use breakout::entity::{DrawError, Entity, TextureTable};

#[test]
fn texture_name_round_trip() {
    let mut e = Entity::new();
    assert_eq!(e.texture_name(), "");
    let id = e.id();
    e.set_texture(String::from("x"));
    assert_eq!(e.texture_name(), "x");
    assert_eq!(e.id(), id);
}

#[test]
fn identities_differ() {
    let a = Entity::new();
    let b = Entity::new();
    assert_ne!(a.id(), b.id());
    assert_eq!(a.id().get_version_num(), 4);
}

#[test]
fn unset_texture_is_not_found() {
    let mut table = TextureTable::new();
    table.add("");
    table.add("block");
    let e = Entity::new();
    assert_eq!(e.texture_slot(&table), Err(DrawError::TextureNotFound(String::new())));
}

#[test]
fn unknown_texture_is_not_found() {
    let mut table = TextureTable::new();
    table.add("block");
    let mut e = Entity::new();
    e.set_texture(String::from("player"));
    assert_eq!(
        e.texture_slot(&table),
        Err(DrawError::TextureNotFound(String::from("player")))
    );
}

#[test]
fn texture_found_in_its_slot() {
    let mut table = TextureTable::new();
    assert_eq!(table.add("solid"), 0);
    assert_eq!(table.add("breakable"), 1);
    assert_eq!(table.add("solid"), 0);
    assert_eq!(table.len(), 2);
    let mut e = Entity::new();
    e.set_texture(String::from("breakable"));
    assert_eq!(e.texture_slot(&table), Ok(1));
    assert_eq!(table.find("solid"), Some(0));
    assert_eq!(table.find("paddle"), None);
}
