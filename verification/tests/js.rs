use aipo::js::{count_lines, source_map_mappings};

#[test]
fn lines_are_counted_like_str_lines() {
    for text in ["", "a", "a\n", "a\nb", "a\n\nb\n", "\n", "a\r\nb"] {
        assert_eq!(count_lines(text), text.lines().count(), "{text:?}");
    }
}

#[test]
fn mappings_map_each_line_to_the_source_line_or_the_last() {
    assert_eq!(source_map_mappings("x\ny\n", "a\nb\nc\n"), "AAAA;AACA;AACA");
    assert_eq!(source_map_mappings("", "a\nb\n"), "AAAA;AAAA");
    assert_eq!(source_map_mappings("one\n", ""), "");
}

#[test]
fn large_line_numbers_use_continuation_digits() {
    let source: String = "x\n".repeat(40);
    let app: String = "a\n".repeat(17);
    let mappings = source_map_mappings(&source, &app);
    let segments: Vec<&str> = mappings.split(';').collect();
    assert_eq!(segments.len(), 17);
    assert_eq!(segments[16], "AAgBA");
}
