use noter::document::Document;
use noter::observation::{ContentFingerprint, FileChangeToken, FileIdentity, FileObservation};
use noter::projection::DisplayRange;
use noter::edit::{Selection, TextRange};
use noter::presentation::{
    cursor_range_from_selection, interactive_text_maximum_for, persistence_status_label,
    selection_from_cursor_range, PendingHardLinkSave, SaveAttempt,
    INTERACTIVE_TEXT_MAX_BYTES,
    bounded_destination_label, write_destination_label, byte_at_or_before, caret_line_column, char_index_to_byte,
    dialog_remains_open, hex_encoded_path, preferred_view_for_extension,
    projected_replacement_length, selected_character_count, selection_is_valid,
    valid_selection_or_end, BoundedTextWriter, DocumentView, EditCommand, FileCommand,
    UpdateStatusState, ViewCommand, ViewCommandFocus, ViewCommandRequest,
    MAX_SAVE_RECOVERY_LABEL_BYTES,
};

#[test]
fn dialog_state_closes_for_either_native_or_button_request() {
    assert!(dialog_remains_open(true, false));
    assert!(!dialog_remains_open(false, false));
    assert!(!dialog_remains_open(true, true));
    assert!(!dialog_remains_open(false, true));
}

#[test]
fn recovery_destination_label_is_bounded_on_a_utf8_boundary() {
    let name = "leaf".repeat(1_000);
    let label = bounded_destination_label(Some("directory"), Some(&name), "", "/")
        .expect("the bounded label buffer should reserve successfully");

    assert_eq!(label.len(), MAX_SAVE_RECOVERY_LABEL_BYTES);
    assert!(label.is_char_boundary(label.len()));
    assert!(label.ends_with("..."));
}

#[test]
fn short_destination_labels_are_exact() {
    assert_eq!(
        bounded_destination_label(Some("notes"), Some("today.md"), "", "/").as_deref(),
        Some("notes/today.md")
    );
    assert_eq!(
        bounded_destination_label(None, Some("today.md"), "", "/").as_deref(),
        Some("today.md")
    );
    assert_eq!(
        bounded_destination_label(None, None, "/", "/").as_deref(),
        Some("/")
    );
}

#[test]
fn a_reserved_buffer_receives_the_destination_label() {
    let mut buffer = String::new();
    buffer.reserve_exact(MAX_SAVE_RECOVERY_LABEL_BYTES);
    assert_eq!(
        write_destination_label(buffer, Some("notes"), Some("today.md"), "", "/"),
        "notes/today.md"
    );
    let long = "é".repeat(MAX_SAVE_RECOVERY_LABEL_BYTES);
    let label = write_destination_label(String::new(), None, None, &long, "/");
    assert_eq!(label.len(), MAX_SAVE_RECOVERY_LABEL_BYTES - 1);
    assert!(label.ends_with("..."));
}

#[test]
fn bounded_writer_cuts_multibyte_text_on_a_boundary() {
    let mut writer = BoundedTextWriter::new(String::new(), 8, "...");
    writer.write_str("ab");
    writer.write_str("éééé");
    writer.write_str("ignored");
    assert_eq!(writer.finish(), "abé...");
    let mut exact = BoundedTextWriter::new(String::new(), 4, "..");
    exact.write_str("abcd");
    assert_eq!(exact.finish(), "abcd");
}

#[test]
fn status_position_handles_unicode_and_every_supported_line_ending() {
    let source = "a\r\né\rb\nc";
    for (position, expected) in [
        (0, (1, 1)),
        (1, (1, 2)),
        (3, (2, 1)),
        (4, (2, 1)),
        (5, (2, 2)),
        (6, (3, 1)),
        (8, (4, 1)),
        (9, (4, 2)),
        (usize::MAX, (4, 2)),
    ] {
        assert_eq!(caret_line_column(source, position), expected);
    }
    assert_eq!(selected_character_count(source, Selection::new(8, 3)), 4);
    assert_eq!(selected_character_count(source, Selection::new(4, 5)), 0);
}

#[test]
fn positions_clamp_to_boundaries_and_the_end() {
    assert_eq!(byte_at_or_before("aé", 2), 1);
    assert_eq!(byte_at_or_before("aé", 99), 3);
    assert_eq!(char_index_to_byte("aé", 1), 1);
    assert_eq!(char_index_to_byte("aé", 5), 3);
}

#[test]
fn selections_are_checked_against_boundaries() {
    assert!(selection_is_valid("aé", Selection::new(3, 0)));
    assert!(!selection_is_valid("aé", Selection::new(2, 0)));
    assert!(!selection_is_valid("aé", Selection::new(4, 0)));
    assert_eq!(
        valid_selection_or_end("aé", Selection::new(2, 0)),
        Selection::caret(3)
    );
    assert_eq!(
        valid_selection_or_end("aé", Selection::new(1, 0)),
        Selection::new(1, 0)
    );
}

#[test]
fn replacement_length_is_checked() {
    assert_eq!(projected_replacement_length(10, TextRange::new(2, 5), 7), Some(14));
    assert_eq!(projected_replacement_length(10, TextRange::new(5, 2), 7), None);
    assert_eq!(projected_replacement_length(2, TextRange::new(0, 5), 7), None);
    assert_eq!(
        projected_replacement_length(usize::MAX, TextRange::new(0, 0), 1),
        None
    );
}

#[test]
fn labels_and_view_rules_are_exact() {
    assert_eq!(DocumentView::Text.label(), "Text");
    assert_eq!(DocumentView::Markdown.label(), "Markdown");
    assert_eq!(DocumentView::default(), DocumentView::Text);
    assert_eq!(FileCommand::Reload.label(), "Reload from Disk");
    assert_eq!(FileCommand::SaveAs.label(), "Save As...");
    assert_eq!(EditCommand::GoToLine.label(), "Go To Line...");
    assert_eq!(ViewCommand::ToggleDocumentView.label(), "Switch Mode");
    assert_eq!(
        ViewCommandRequest::restore_document(ViewCommand::ZoomIn).focus,
        ViewCommandFocus::RestoreDocument
    );
    assert_eq!(
        ViewCommandRequest::preserve_control(ViewCommand::ZoomOut).focus,
        ViewCommandFocus::PreserveControl
    );
    assert!(!UpdateStatusState::Closed.is_open());
    assert!(UpdateStatusState::Open.is_open());
    assert!(!UpdateStatusState::Open.names_the_window());
    assert!(UpdateStatusState::OpenedByLaunch.names_the_window());
    assert_eq!(preferred_view_for_extension(Some("MD")), DocumentView::Markdown);
    assert_eq!(preferred_view_for_extension(Some("Markdown")), DocumentView::Markdown);
    assert_eq!(preferred_view_for_extension(Some("txt")), DocumentView::Text);
    assert_eq!(preferred_view_for_extension(None), DocumentView::Text);
}

#[test]
fn hex_paths_use_two_lowercase_digits_per_byte() {
    assert_eq!(hex_encoded_path("unix-path-bytes:", &[0x00, 0xAB, 0x7f]), "unix-path-bytes:00ab7f");
    assert_eq!(hex_encoded_path("p:", &[]), "p:");
}

#[test]
fn replacement_projection_is_checked_before_mutating_ui_text() {
    assert_eq!(
        projected_replacement_length(8, TextRange::new(2, 6), 4),
        Some(8)
    );
    assert_eq!(
        projected_replacement_length(8, TextRange::new(2, 6), 5),
        Some(9)
    );
    assert_eq!(
        projected_replacement_length(8, TextRange::new(6, 2), 1),
        None
    );
    assert_eq!(
        projected_replacement_length(usize::MAX, TextRange::new(0, 0), 1),
        None
    );
}

#[test]
fn every_interactive_path_uses_the_measured_editor_ceiling() {
    assert_eq!(
        interactive_text_maximum_for(&Document::new()),
        INTERACTIVE_TEXT_MAX_BYTES
    );

    let bom_document =
        Document::from_bytes(b"\xEF\xBB\xBFtext").expect("the UTF-8 BOM fixture should load");
    assert_eq!(
        interactive_text_maximum_for(&bom_document),
        INTERACTIVE_TEXT_MAX_BYTES
    );
}

#[test]
fn persistence_status_distinguishes_untitled_from_saved() {
    assert_eq!(persistence_status_label(&Document::new(), false), "Unsaved");

    let mut dirty = Document::new();
    dirty
        .replace_text("draft")
        .expect("fixture edit should advance the revision");
    assert_eq!(persistence_status_label(&dirty, false), "Modified");

    let mut saved = Document::from_bytes(b"hello").expect("open fixture");
    saved.record_loaded_target(
        std::path::PathBuf::from("notes.txt"),
        FileObservation::new(
            FileIdentity::new(1, 2),
            ContentFingerprint::from_bytes(b"hello"),
            5,
            1,
            FileChangeToken::new(0, 0),
        ),
    );
    assert_eq!(persistence_status_label(&saved, false), "Saved");
    assert_eq!(persistence_status_label(&saved, true), "Modified");
}

#[test]
fn non_unicode_unix_recovery_path_copy_is_exact_and_reversible() {
    let copied = hex_encoded_path("unix-path-bytes:", &[b'n', b'o', b't', b'e', b'-', 0xff]);

    assert_eq!(copied, "unix-path-bytes:6e6f74652dff");
    assert!(!copied.contains('\u{fffd}'));
}

#[test]
fn save_attempts_report_their_destination() {
    let current = SaveAttempt::Current(std::path::PathBuf::from("notes.txt"));
    assert_eq!(current.destination(), &std::path::PathBuf::from("notes.txt"));
    let save_as = SaveAttempt::SaveAs(std::path::PathBuf::from("copy.md"));
    assert_eq!(save_as.into_destination(), std::path::PathBuf::from("copy.md"));
}

#[test]
fn cursor_ranges_and_selections_convert_in_both_directions() {
    let source = "aé\nb";
    let selection = selection_from_cursor_range(
        source,
        DisplayRange {
            primary: 1,
            secondary: 4,
        },
    );
    assert_eq!(selection, Selection::new(5, 1));
    assert_eq!(
        cursor_range_from_selection(source, selection),
        Some(DisplayRange {
            primary: 1,
            secondary: 4,
        })
    );
    assert_eq!(
        selection_from_cursor_range(
            source,
            DisplayRange {
                primary: 9,
                secondary: 0,
            }
        ),
        Selection::new(0, 5)
    );
    assert_eq!(cursor_range_from_selection(source, Selection::new(2, 0)), None);
    assert_eq!(cursor_range_from_selection(source, Selection::new(0, 6)), None);
}

#[test]
fn pending_hard_link_saves_report_the_link_count() {
    let pending = PendingHardLinkSave::Current {
        target: std::path::PathBuf::from("notes.txt"),
        link_count: 3,
    };
    assert_eq!(pending.link_count(), 3);
}
