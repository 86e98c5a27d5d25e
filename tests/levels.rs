use breakout::levels::{parse_level, BlockType, ParseError};

#[test]
fn parses_small_level() {
    let level = parse_level("level 1\ndimensions 2x2\ns b\nb s\n").unwrap();
    assert_eq!(level.level, 1);
    assert_eq!(level.width, 2);
    assert_eq!(level.height, 2);
    assert_eq!(
        level.blocks,
        vec![
            vec![BlockType::Solid, BlockType::Breakable],
            vec![BlockType::Breakable, BlockType::Solid]
        ]
    );
}

#[test]
fn missing_level_line_fails() {
    let r = parse_level("dimensions 2x2\ns b\nb s\n");
    assert_eq!(r, Err(ParseError::MissingLevel));
}

#[test]
fn missing_level_line_fails_without_rows() {
    assert_eq!(parse_level("dimensions 4x3\n"), Err(ParseError::MissingLevel));
    assert_eq!(parse_level(""), Err(ParseError::MissingLevel));
}

#[test]
fn missing_dimensions_line_fails() {
    assert_eq!(parse_level("level 3\ns s\n"), Err(ParseError::MissingDimensions));
}

#[test]
fn unknown_token_is_named() {
    let r = parse_level("level 1\ndimensions 2x2\ns x\nb s\n");
    assert_eq!(r, Err(ParseError::InvalidToken(String::from("x"))));
}

#[test]
fn first_unknown_token_is_named() {
    let r = parse_level("level 1\ndimensions 3x1\ns q x\n");
    assert_eq!(r, Err(ParseError::InvalidToken(String::from("q"))));
}

#[test]
fn blank_lines_are_ignored() {
    let plain = parse_level("level 1\ndimensions 2x2\ns b\nb s\n");
    let spaced = parse_level("\n  \nlevel 1\n\t\ndimensions 2x2\n\ns b\n   \nb s\n\n\n");
    assert!(plain.is_ok());
    assert_eq!(plain, spaced);
}

#[test]
fn lines_may_come_in_any_order() {
    let level = parse_level("s s b\ndimensions 3x1\nlevel 9").unwrap();
    assert_eq!(level.level, 9);
    assert_eq!(level.width, 3);
    assert_eq!(level.height, 1);
    assert_eq!(level.blocks, vec![vec![BlockType::Solid, BlockType::Solid, BlockType::Breakable]]);
}

#[test]
fn carriage_returns_and_wide_spaces_separate_words() {
    let level = parse_level("level 2\r\ndimensions 2x1\r\ns\u{3000}b\r\n").unwrap();
    assert_eq!(level.level, 2);
    assert_eq!(level.blocks, vec![vec![BlockType::Solid, BlockType::Breakable]]);
}

#[test]
fn empty_grid_is_accepted() {
    let level = parse_level("level 0\ndimensions 0x0\n").unwrap();
    assert_eq!(level.level, 0);
    assert!(level.blocks.is_empty());
}

#[test]
fn rows_are_not_checked_against_dimensions() {
    let level = parse_level("level 1\ndimensions 5x5\ns\nb b b\n").unwrap();
    assert_eq!(level.blocks.len(), 2);
    assert_eq!(level.blocks[0].len(), 1);
    assert_eq!(level.blocks[1].len(), 3);
}

#[test]
fn later_level_line_wins() {
    let level = parse_level("level 1\nlevel 7\ndimensions 1x1\ns\n").unwrap();
    assert_eq!(level.level, 7);
}

#[test]
fn level_number_edges() {
    assert_eq!(parse_level("level 255\ndimensions 1x1\n").unwrap().level, 255);
    assert_eq!(parse_level("level +7\ndimensions 1x1\n").unwrap().level, 7);
    assert_eq!(parse_level("level 007\ndimensions 1x1\n").unwrap().level, 7);
    assert_eq!(
        parse_level("level 256\ndimensions 1x1\n"),
        Err(ParseError::InvalidLevel(String::from("256")))
    );
    assert_eq!(
        parse_level("level -1\ndimensions 1x1\n"),
        Err(ParseError::InvalidLevel(String::from("-1")))
    );
    assert_eq!(
        parse_level("level one\ndimensions 1x1\n"),
        Err(ParseError::InvalidLevel(String::from("one")))
    );
    assert_eq!(
        parse_level("level +\ndimensions 1x1\n"),
        Err(ParseError::InvalidLevel(String::from("+")))
    );
}

#[test]
fn level_line_without_number_fails() {
    assert_eq!(
        parse_level("level\ndimensions 1x1\n"),
        Err(ParseError::InvalidLevel(String::new()))
    );
}

#[test]
fn malformed_dimensions_fail() {
    for bad in ["2", "2x", "x2", "2x2x2", "2X2", "2x300", "ax2", "2y2"] {
        let text = format!("level 1\ndimensions {}\n", bad);
        assert_eq!(
            parse_level(&text),
            Err(ParseError::InvalidDimensions(String::from(bad))),
            "{}",
            bad
        );
    }
    assert_eq!(
        parse_level("level 1\ndimensions\n"),
        Err(ParseError::InvalidDimensions(String::new()))
    );
}

#[test]
fn dimensions_with_largest_values() {
    let level = parse_level("level 1\ndimensions 255x+12\n").unwrap();
    assert_eq!(level.width, 255);
    assert_eq!(level.height, 12);
}

#[test]
fn first_failing_line_decides() {
    assert_eq!(
        parse_level("s z\nlevel bad\n"),
        Err(ParseError::InvalidToken(String::from("z")))
    );
    assert_eq!(
        parse_level("level bad\ns z\n"),
        Err(ParseError::InvalidLevel(String::from("bad")))
    );
}
