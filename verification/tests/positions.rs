use asp_ls::parse::normalize;
use asp_ls::position::{Position, Range};
use asp_ls::state::{byte_to_utf16_col, span_to_range, string_at, utf16_col_to_byte, word_at};

#[test]
fn normalize_resolves_dots_lexically() {
    assert_eq!(normalize("/a/b/../c/./d"), "/a/c/d");
    assert_eq!(normalize("a/../../b"), "b");
    assert_eq!(normalize("/../x"), "/x");
    assert_eq!(normalize("//a//b/"), "/a/b");
    assert_eq!(normalize("./x/y/.."), "x");
    assert_eq!(normalize(""), "");
}

#[test]
fn byte_offsets_become_utf16_columns() {
    assert_eq!(byte_to_utf16_col("hello", 3), 3);
    // 'é' is two bytes and one UTF-16 unit.
    assert_eq!(byte_to_utf16_col("héllo", 3), 2);
    // '😀' is four bytes and two UTF-16 units.
    assert_eq!(byte_to_utf16_col("a😀b", 5), 3);
    // Past the end: every character counts.
    assert_eq!(byte_to_utf16_col("a😀b", 100), 4);
    // An offset inside a character counts that character.
    assert_eq!(byte_to_utf16_col("a😀b", 2), 3);
    assert_eq!(byte_to_utf16_col("", 0), 0);
}

#[test]
fn utf16_columns_become_byte_offsets() {
    assert_eq!(utf16_col_to_byte("hello", 3), 3);
    assert_eq!(utf16_col_to_byte("héllo", 2), 3);
    assert_eq!(utf16_col_to_byte("a😀b", 3), 5);
    // A column inside a surrogate pair moves to the next character.
    assert_eq!(utf16_col_to_byte("a😀b", 2), 5);
    // Past the end: the length of the line.
    assert_eq!(utf16_col_to_byte("a😀b", 40), 6);
}

#[test]
fn columns_round_trip_on_character_boundaries() {
    let line = "Dim s : s = \"日本\" & x😀y";
    for (b, _) in line.char_indices() {
        let col = byte_to_utf16_col(line, b);
        assert_eq!(utf16_col_to_byte(line, col), b);
        assert_eq!(byte_to_utf16_col(line, utf16_col_to_byte(line, col)), col);
    }
}

#[test]
fn spans_become_ranges_on_one_line() {
    let r = span_to_range(7, "ab😀cd", (2, 6));
    assert_eq!(
        r,
        Range { start: Position { line: 7, character: 2 }, end: Position { line: 7, character: 4 } }
    );
}

#[test]
fn string_at_finds_the_enclosing_literal() {
    let line = "x = \"hello\" & \"world\"";
    assert_eq!(string_at(line, 5), Some(("hello".to_string(), (5, 10))));
    // On the closing quote counts as inside.
    assert_eq!(string_at(line, 10), Some(("hello".to_string(), (5, 10))));
    assert_eq!(string_at(line, 16), Some(("world".to_string(), (15, 20))));
    assert_eq!(string_at(line, 0), None);
    assert_eq!(string_at(line, 12), None);
}

#[test]
fn string_at_gives_up_on_unterminated_literals() {
    assert_eq!(string_at("a \"open", 4), None);
    assert_eq!(string_at("\"ok\" \"open", 8), None);
    assert_eq!(string_at("\"ok\" \"open", 1), Some(("ok".to_string(), (1, 3))));
}

#[test]
fn word_at_reads_identifier_and_qualifier() {
    assert_eq!(
        word_at("rs.MoveNext", 5),
        Some(("MoveNext".to_string(), Some("rs".to_string())))
    );
    assert_eq!(word_at("Call DoWork(1)", 7), Some(("DoWork".to_string(), None)));
    // At the end of a word.
    assert_eq!(word_at("abc", 3), Some(("abc".to_string(), None)));
    assert_eq!(word_at("a + b", 2), None);
    // A dot with nothing before it gives no qualifier.
    assert_eq!(word_at(".Write", 3), Some(("Write".to_string(), None)));
    assert_eq!(word_at("", 0), None);
}

#[test]
fn word_at_counts_columns_in_utf16() {
    // "é" before the cursor: column 3 is byte 4, inside "name".
    assert_eq!(word_at("é.name", 3), Some(("name".to_string(), None)));
    assert_eq!(word_at("😀 foo_bar", 4), Some(("foo_bar".to_string(), None)));
}

#[test]
fn normalizing_twice_changes_nothing() {
    for p in ["/a/b/../c/./d", "a/../../b", "/../x", "//a//b/", "./x/y/..", "", ".", "..", "/", "a/./b//c/"] {
        let once = normalize(p);
        assert_eq!(normalize(&once), once, "{p:?}");
    }
}

#[test]
fn a_column_inside_a_character_moves_to_the_next_boundary() {
    let line = "a\u{1F600}b";
    assert_eq!(utf16_col_to_byte(line, 1), 1);
    assert_eq!(utf16_col_to_byte(line, 2), 5);
    assert_eq!(utf16_col_to_byte(line, 3), 5);
    assert_eq!(utf16_col_to_byte(line, 4), 6);
    assert_eq!(utf16_col_to_byte(line, 9), 6);
}
