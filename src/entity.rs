//! What every drawable entity shares: an identity fixed at construction and the
//! name of the texture it is drawn with, looked up in a table of loaded textures.
use uuid::Uuid;
use vstd::prelude::*;
use vstd::string::*;

verus! {

#[verifier::external_type_specification]
#[verifier::external_body]
pub struct ExUuid(Uuid);

/// Relies on uuid's `Uuid::new_v4`: a random version-4 identifier. Nothing is
/// promised of its value.
pub assume_specification[ Uuid::new_v4 ]() -> Uuid;

/// Why an entity could not be drawn.
#[derive(Clone, Debug, PartialEq, Eq)]
pub enum DrawError {
    /// The entity's texture name is unset or not in the texture table.
    TextureNotFound(String),
}

/// The identity and texture binding of one drawable entity.
#[derive(Debug)]
pub struct Entity {
    id: Uuid,
    texture_name: String,
}

impl Entity {
    /// The identity given at construction.
    pub closed spec fn identity(&self) -> Uuid {
        self.id
    }

    /// The name of the texture the entity is drawn with; empty while unset.
    pub closed spec fn texture(&self) -> Seq<char> {
        self.texture_name@
    }

    /// A new entity with a fresh random identity and no texture.
    pub fn new() -> (r: Entity)
        ensures
            r.texture() == Seq::<char>::empty(),
    {
        let texture_name = String::new();
        Entity { id: Uuid::new_v4(), texture_name }
    }

    pub fn id(&self) -> (r: Uuid)
        ensures
            r == self.identity(),
    {
        self.id
    }

    pub fn texture_name(&self) -> (r: String)
        ensures
            r@ == self.texture(),
    {
        self.texture_name.clone()
    }

    /// Draws the entity with the texture named `texture_name` from now on.
    pub fn set_texture(&mut self, texture_name: String)
        ensures
            final(self).texture() == texture_name@,
            final(self).identity() == old(self).identity(),
    {
        self.texture_name = texture_name;
    }

    /// The slot of the table that holds the entity's texture. Fails when the
    /// name is unset (empty) or not in the table.
    pub fn texture_slot(&self, table: &TextureTable) -> (r: Result<usize, DrawError>)
        requires
            table.wf(),
        ensures
            match r {
                Ok(i) => self.texture().len() > 0 && i < table@.len() && table@[i as int]
                    == self.texture(),
                Err(DrawError::TextureNotFound(name)) => name@ == self.texture() && (
                self.texture().len() == 0 || !table@.contains(self.texture())),
            },
    {
        if self.texture_name.as_str().unicode_len() == 0 {
            return Err(DrawError::TextureNotFound(self.texture_name.clone()));
        }
        match table.find(self.texture_name.as_str()) {
            Some(i) => Ok(i),
            None => Err(DrawError::TextureNotFound(self.texture_name.clone())),
        }
    }
}

/// The names of the loaded textures, each in its own slot; a store of
/// textures keeps each texture in the slot of its name.
pub struct TextureTable {
    names: Vec<String>,
}

impl View for TextureTable {
    type V = Seq<Seq<char>>;

    closed spec fn view(&self) -> Seq<Seq<char>> {
        self.names@.map_values(|s: String| s@)
    }
}

impl TextureTable {
    /// No name is in two slots.
    pub open spec fn wf(&self) -> bool {
        forall|i: int, j: int| 0 <= i < j < self@.len() ==> self@[i] != self@[j]
    }

    pub fn new() -> (r: TextureTable)
        ensures
            r.wf(),
            r@ == Seq::<Seq<char>>::empty(),
    {
        let r = TextureTable { names: Vec::new() };
        assert(r@ =~= Seq::<Seq<char>>::empty());
        r
    }

    pub fn len(&self) -> (r: usize)
        ensures
            r == self@.len(),
    {
        self.names.len()
    }

    /// The slot that holds `name`, if any.
    pub fn find(&self, name: &str) -> (r: Option<usize>)
        requires
            self.wf(),
        ensures
            match r {
                Some(i) => i < self@.len() && self@[i as int] == name@,
                None => !self@.contains(name@),
            },
    {
        let mut i: usize = 0;
        while i < self.names.len()
            invariant
                i <= self@.len() == self.names@.len(),
                forall|j: int| 0 <= j < i ==> self@[j] != name@,
            decreases self.names@.len() - i,
        {
            if crate::text::same_chars(self.names[i].as_str(), name) {
                return Some(i);
            }
            i = i + 1;
        }
        None
    }

    /// Registers `name` and returns its slot: the slot it already had, or a
    /// new last one.
    pub fn add(&mut self, name: &str) -> (r: usize)
        requires
            old(self).wf(),
        ensures
            final(self).wf(),
            old(self)@.contains(name@) ==> final(self)@ == old(self)@ && old(self)@[r as int]
                == name@,
            !old(self)@.contains(name@) ==> final(self)@ == old(self)@.push(name@) && r == old(
                self,
            )@.len(),
    {
        match self.find(name) {
            Some(i) => i,
            None => {
                let n = self.names.len();
                self.names.push(String::from_str(name));
                assert(self@ =~= old(self)@.push(name@));
                n
            },
        }
    }
}

} // verus!
