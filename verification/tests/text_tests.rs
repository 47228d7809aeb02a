use noter::text_bounds::{
    byte_index_at_char, byte_range_from_char_range, common_prefix_characters,
    common_suffix_characters, is_single_logical_newline, logical_prefix,
    truncate_source_to_byte_limit, truncate_to_utf8_byte_limit, utf8_prefix,
};

#[test]
fn utf8_prefix_handles_every_position_inside_a_four_byte_scalar() {
    let value = "a\u{10437}z";
    for (maximum, expected) in [
        (0, ""),
        (1, "a"),
        (2, "a"),
        (3, "a"),
        (4, "a"),
        (5, "a\u{10437}"),
        (6, "a\u{10437}z"),
    ] {
        assert_eq!(utf8_prefix(value, maximum), expected);
    }
}

#[test]
fn truncation_keeps_whole_scalars_and_reports_change() {
    let mut text = String::from("éé");
    assert!(truncate_to_utf8_byte_limit(&mut text, 3));
    assert_eq!(text, "é");
    assert!(!truncate_to_utf8_byte_limit(&mut text, 2));
    assert_eq!(text, "é");
    assert!(truncate_to_utf8_byte_limit(&mut text, 1));
    assert_eq!(text, "");
}

#[test]
fn source_truncation_never_splits_a_crlf_pair() {
    let mut source = String::from("ab\r\ncd");
    assert!(truncate_source_to_byte_limit(&mut source, 3));
    assert_eq!(source, "ab");
    let mut bare = String::from("ab\rcd");
    assert!(truncate_source_to_byte_limit(&mut bare, 3));
    assert_eq!(bare, "ab\r");
    let mut fits = String::from("ab\r\n");
    assert!(!truncate_source_to_byte_limit(&mut fits, 4));
    assert_eq!(fits, "ab\r\n");
}

#[test]
fn logical_prefix_counts_crlf_as_one_character() {
    assert_eq!(logical_prefix("a\r\nb\rc", 2), "a\r\n");
    assert_eq!(logical_prefix("a\r\nb\rc", 4), "a\r\nb\r");
    assert_eq!(logical_prefix("a\r\nb\rc", 0), "");
    assert_eq!(logical_prefix("é\r\n", usize::MAX), "é\r\n");
    assert_eq!(logical_prefix("é\r\n", 9), "é\r\n");
}

#[test]
fn shared_prefix_and_bounded_suffix_count_characters() {
    assert_eq!(common_prefix_characters("héllo", "hélp"), 3);
    assert_eq!(common_prefix_characters("", "x"), 0);
    assert_eq!(common_suffix_characters("xxabé", "yabé", 10), 3);
    assert_eq!(common_suffix_characters("xxabé", "yabé", 2), 2);
    assert_eq!(common_suffix_characters("same", "same", 10), 4);
}

#[test]
fn newline_payloads_are_recognized_exactly() {
    assert!(is_single_logical_newline("\n"));
    assert!(is_single_logical_newline("\r"));
    assert!(is_single_logical_newline("\r\n"));
    assert!(!is_single_logical_newline("\n\r"));
    assert!(!is_single_logical_newline(""));
    assert!(!is_single_logical_newline("x\n"));
}

#[test]
fn character_positions_map_to_byte_offsets() {
    assert_eq!(byte_index_at_char("aé😀", 0), Some(0));
    assert_eq!(byte_index_at_char("aé😀", 2), Some(3));
    assert_eq!(byte_index_at_char("aé😀", 3), Some(7));
    assert_eq!(byte_index_at_char("aé😀", 4), None);
    assert_eq!(byte_range_from_char_range("aé😀", 3, 1), (1, 7));
    assert_eq!(byte_range_from_char_range("aé😀", 1, 9), (1, 7));
}
