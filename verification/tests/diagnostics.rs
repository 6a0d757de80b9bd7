use trestle::diagnostics::LineIndex;

#[test]
fn first_character_is_line_one_column_one() {
    let index = LineIndex::new("let x = 1");
    assert_eq!(index.position(0), (1, 1));
}

#[test]
fn offsets_resolve_to_the_right_line() {
    let source = "let a = 1\nlet b = 2\nb";
    let index = LineIndex::new(source);

    assert_eq!(index.position(source.find("let b").unwrap()), (2, 1));
    assert_eq!(index.position(source.rfind('b').unwrap()), (3, 1));
}

#[test]
fn columns_count_utf16_units_not_bytes() {
    // The emoji is 4 UTF-8 bytes but 2 UTF-16 code units; a byte-based column would put
    // the marker two characters too far right.
    let source = "let s = \"🎈\"\nlet y = 2";
    let index = LineIndex::new(source);
    let offset = source.find("let y").unwrap();

    assert_eq!(index.position(offset), (2, 1));
    assert_eq!(index.position(source.find('🎈').unwrap()), (1, 10));
}

#[test]
fn out_of_range_offsets_clamp_instead_of_panicking() {
    let index = LineIndex::new("let x = 1");
    assert_eq!(index.position(9_999), (1, 10));
}

#[test]
fn offsets_inside_a_character_clamp_down_to_its_start() {
    let source = "\"🎈\"";
    let index = LineIndex::new(source);
    // Offset 2 is halfway through the emoji.
    assert_eq!(index.position(2), index.position(1));
}

#[test]
fn the_end_of_the_text_is_on_the_line_after_its_last_newline() {
    let empty = LineIndex::new("");
    assert_eq!(empty.position(0), (1, 1));

    let trailing = "a\nb\n";
    let index = LineIndex::new(trailing);
    assert_eq!(index.position(trailing.len()), (3, 1));

    let only_newlines = "\n\n\n";
    let index = LineIndex::new(only_newlines);
    assert_eq!(index.position(only_newlines.len()), (4, 1));
}
