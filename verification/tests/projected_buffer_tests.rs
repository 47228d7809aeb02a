use noter::edit::Selection;
use noter::line_endings::LineEnding;
use noter::projected_buffer::ProjectedTextBuffer;
use noter::projection::{DisplayRange, SourceDisplayProjection};

#[test]
fn projected_buffer_deletes_crlf_atomically_in_both_directions() {
    let initial = "a\r\nb";
    for (first, second) in [(1, 2), (2, 1)] {
        let mut buffer = ProjectedTextBuffer::new(initial.to_owned(), 16, LineEnding::CrLf);
        buffer.delete_char_range(first, second);
        assert_eq!(buffer.as_str(), "ab");
        assert_eq!(buffer.source(), "ab");
    }
}

#[test]
fn projected_buffer_uses_internal_and_external_mixed_ending_context() {
    let mut block = ProjectedTextBuffer::new("EDIT".to_owned(), 32, LineEnding::CrLf);
    assert_eq!(block.insert_text("\nX\r\n", 0), 3);
    assert_eq!(block.source(), "\r\nX\r\nEDIT");

    let mut buffer = ProjectedTextBuffer::new("a\r\nb\nc\r".to_owned(), 64, LineEnding::CrLf);
    assert_eq!(buffer.insert_text("\n", 3), 1);
    assert_eq!(buffer.source(), "a\r\nb\r\n\nc\r");
}

#[test]
fn projected_buffer_enforces_source_bytes_and_never_splits_crlf_or_unicode() {
    let mut buffer = ProjectedTextBuffer::new("a".to_owned(), 2, LineEnding::CrLf);
    assert_eq!(buffer.insert_text("\n", 1), 0);
    assert!(buffer.was_limited());
    assert_eq!(buffer.source(), "a");

    let mut buffer = ProjectedTextBuffer::new("a".to_owned(), 5, LineEnding::CrLf);
    assert_eq!(buffer.insert_text("\né", 1), 2);
    assert_eq!(buffer.insert_text("字", 3), 0);
    assert!(buffer.was_limited());
    assert_eq!(buffer.source(), "a\r\né");

    let split = ProjectedTextBuffer::new("a\r\nb".to_owned(), 2, LineEnding::CrLf);
    assert!(split.was_limited());
    assert_eq!(split.source(), "a");
}

#[test]
fn rejected_projected_replacement_restores_the_deleted_source() {
    let mut buffer = ProjectedTextBuffer::new("ax".to_owned(), 2, LineEnding::Lf);
    let cursor = buffer.delete_selected(0, 1);
    buffer.insert_text_at(cursor, "é", usize::MAX);
    assert_eq!(buffer.as_str(), "ax");
    assert!(buffer.was_limited());
    assert_eq!(buffer.source(), "ax");
}

#[test]
fn minimal_diff_replacement_preserves_unrelated_line_ending_bytes() {
    let mut buffer =
        ProjectedTextBuffer::new("head\r\nold\nkeep\rtail".to_owned(), 64, LineEnding::CrLf);
    buffer.replace_with("head\nnew\nline\nkeep\ntail");
    assert_eq!(buffer.as_str(), "head\nnew\nline\nkeep\ntail");
    assert_eq!(buffer.source(), "head\r\nnew\r\nline\nkeep\rtail");
}

#[test]
fn projected_trait_replacement_canonicalizes_every_raw_newline_form() {
    for replacement in ["a\nb", "a\r\nb", "a\rb"] {
        let mut buffer = ProjectedTextBuffer::new("old\r\nvalue".to_owned(), 64, LineEnding::CrLf);
        buffer.replace_with(replacement);
        assert_eq!(buffer.as_str(), "a\nb", "{replacement:?}");
        assert!(!buffer.was_limited(), "{replacement:?}");
        assert_eq!(buffer.source(), "a\r\nb", "{replacement:?}");
    }

    let mut buffer = ProjectedTextBuffer::new("a\r\nb".to_owned(), 64, LineEnding::CrLf);
    buffer.replace_with("a\r\nb");
    assert_eq!(buffer.as_str(), "a\nb");
    assert_eq!(buffer.source(), "a\r\nb");
}

#[test]
fn projected_trait_clear_take_and_bounded_rejection_preserve_contracts() {
    let mut buffer = ProjectedTextBuffer::new("a\r\nb".to_owned(), 64, LineEnding::CrLf);
    assert_eq!(buffer.take(), "a\nb");
    assert_eq!(buffer.as_str(), "");
    buffer.replace_with("x\r\ny");
    buffer.clear();
    assert_eq!(buffer.as_str(), "");
    assert!(buffer.source().is_empty());

    let mut buffer = ProjectedTextBuffer::new("ab".to_owned(), 2, LineEnding::CrLf);
    buffer.replace_with("a\r\nb");
    assert_eq!(buffer.as_str(), "ab");
    assert!(buffer.was_limited());
    assert_eq!(buffer.source(), "ab");
}

#[test]
fn replacements_capture_mixed_ending_policy_before_removing_the_selection() {
    let initial = "gone\r\nkept\nfar\r";
    let expected = "X\r\nYkept\nfar\r";

    let mut event_replacement = ProjectedTextBuffer::new(initial.to_owned(), 64, LineEnding::CrLf);
    let cursor = event_replacement.delete_selected(0, 5);
    event_replacement.insert_text_at(cursor, "X\nY", usize::MAX);
    assert_eq!(event_replacement.source(), expected);

    let mut direct_replacement = ProjectedTextBuffer::new(initial.to_owned(), 64, LineEnding::CrLf);
    direct_replacement.replace_with("X\nYkept\nfar\n");
    assert_eq!(direct_replacement.source(), expected);
}

#[test]
fn projected_deletion_matrix_removes_only_the_exact_mapped_source_range() {
    for initial in ["", "a", "a\nb", "a\r\nb", "\r\n\r\n", "a\rb", "é\r\n字\rX\n"] {
        let projection = SourceDisplayProjection::new(initial);
        let display_characters = projection.display().chars().count();
        for start in 0..=display_characters {
            for end in start..=display_characters {
                let expected_start = projection
                    .display_char_to_source_byte(start)
                    .expect("a display boundary should map to source");
                let expected_end = projection
                    .display_char_to_source_byte(end)
                    .expect("a display boundary should map to source");
                assert_eq!(projection.source_byte_to_display_char(expected_start), Some(start));
                assert_eq!(projection.source_byte_to_display_char(expected_end), Some(end));
                let mut expected = initial.to_owned();
                expected.replace_range(expected_start..expected_end, "");

                let mut buffer = ProjectedTextBuffer::new(initial.to_owned(), 64, LineEnding::CrLf);
                buffer.delete_char_range(start, end);
                assert_eq!(buffer.source(), expected, "range {start}..{end} in {initial:?}");
            }
        }
    }
}

#[test]
fn projected_insert_text_at_counts_crlf_payload_as_one_display_character() {
    let mut buffer = ProjectedTextBuffer::new(String::new(), 16, LineEnding::CrLf);
    let cursor = buffer.insert_text_at(0, "\r\nX", 1);
    assert_eq!(cursor, 1);
    assert_eq!(buffer.source(), "\r\n");
}

#[test]
fn a_refused_insertion_past_the_display_changes_nothing() {
    let mut buffer = ProjectedTextBuffer::new("ab".to_owned(), 8, LineEnding::Lf);
    assert_eq!(buffer.insert_text("x", 5), 0);
    assert_eq!(buffer.source(), "ab");
    assert!(!buffer.was_limited());
    assert_eq!(buffer.delete_selected(1, 9), 1);
    assert_eq!(buffer.source(), "ab");
}

#[test]
fn projected_buffer_exposes_directional_selection_mapping() {
    let mut buffer = ProjectedTextBuffer::new("a\r\né".to_owned(), 16, LineEnding::CrLf);
    assert_eq!(buffer.as_str(), "a\né");
    let display = DisplayRange {
        primary: 1,
        secondary: 3,
    };
    let source_selection = buffer
        .selection_to_source(display)
        .expect("display boundaries should map to source");
    assert_eq!(source_selection, Selection::new(5, 1));
    assert_eq!(
        buffer
            .selection_to_display(source_selection)
            .expect("source boundaries should map to display"),
        display
    );
}

#[test]
fn a_refused_replacement_gives_back_a_deleted_crlf() {
    let mut buffer = ProjectedTextBuffer::new("a\r\nb".to_owned(), 4, LineEnding::CrLf);
    let cursor = buffer.delete_selected(2, 1);
    assert_eq!(cursor, 1);
    assert_eq!(buffer.source(), "ab");
    assert_eq!(buffer.insert_text("字", cursor), 0);
    assert_eq!(buffer.source(), "a\r\nb");
    assert!(buffer.was_limited());
}
