use noter::document::{require_hard_link_confirmation, Bom, Document, DocumentError, Encoding};
use noter::edit::{EditError, EditOrigin, EditTimestamp, EditTransaction, Selection, TextEdit, TextRange};
use noter::limits::MAX_DOCUMENT_BYTES;
use noter::line_endings::{LineEnding, LineEndingCounts, LineEndingProfile};
use noter::observation::{
    ContentFingerprint, FileChangeToken, FileIdentity, FileObservation, SpecialFileKind,
    TargetExpectation, TargetState,
};
use noter::revision::Revision;

#[test]
fn default_document_matches_new_document() {
    let first = Document::new();
    let second = Document::new();
    assert_eq!(first.rope(), second.rope());
    assert_eq!(first.encoding(), second.encoding());
    assert_eq!(first.bom(), second.bom());
    assert_eq!(first.revision(), second.revision());
    assert_eq!(first.is_dirty(), second.is_dirty());
    assert_eq!(first.line_endings(), second.line_endings());
    assert_eq!(first.line_endings(), &LineEndingProfile::Empty);
    assert_eq!(first.revision(), Revision::initial());
    assert!(!first.is_dirty());
}

#[test]
fn mark_recovered_dirty_keeps_bytes_and_sets_dirty() {
    let mut document = Document::from_bytes(b"recovered text").expect("fixture should load");
    assert!(!document.is_dirty());
    let before = document.to_bytes();
    document.mark_recovered_dirty();
    assert!(document.is_dirty());
    assert_eq!(document.to_bytes(), before);
    assert_eq!(document.saved_target(), None);
}

#[test]
fn roundtrip_preserves_bom_and_line_endings() {
    let original = b"\xEF\xBB\xBFhello\r\nworld\r\n";
    let document = Document::from_bytes(original).expect("fixture should load");
    assert_eq!(
        document.line_endings(),
        &LineEndingProfile::Uniform {
            ending: LineEnding::CrLf,
            count: 2
        }
    );
    assert_eq!(document.encoding(), Encoding::Utf8);
    assert_eq!(document.bom(), Bom::Utf8);
    assert!(document.path().is_none());
    assert_eq!(document.rope().to_string(), "hello\r\nworld\r\n");
    assert_eq!(original.as_slice(), document.to_bytes());
}

#[test]
fn mixed_line_endings_are_counted_without_normalization() {
    let original = b"one\ntwo\r\nthree\rfour\r\n";
    let document = Document::from_bytes(original).expect("fixture should load");
    assert_eq!(
        document.line_endings(),
        &LineEndingProfile::Mixed {
            counts: LineEndingCounts {
                lf: 1,
                crlf: 2,
                cr: 1
            },
            insertion: LineEnding::CrLf
        }
    );
    assert_eq!(document.to_bytes(), original);
}

#[test]
fn an_edit_redetects_the_line_endings() {
    let mut document = Document::from_bytes(b"a\nb").expect("fixture should load");
    assert_eq!(
        document.line_endings(),
        &LineEndingProfile::Uniform {
            ending: LineEnding::Lf,
            count: 1
        }
    );
    assert_eq!(document.replace_text("a\r\nb\rc"), Ok(true));
    assert_eq!(
        document.line_endings(),
        &LineEndingProfile::Mixed {
            counts: LineEndingCounts {
                lf: 0,
                crlf: 1,
                cr: 1
            },
            insertion: LineEnding::CrLf
        }
    );
    assert_eq!(document.replace_text("plain"), Ok(true));
    assert_eq!(document.line_endings(), &LineEndingProfile::Empty);
}

#[test]
fn invalid_utf8_is_rejected() {
    let error = Document::from_bytes(b"valid prefix\xFF")
        .err()
        .expect("invalid UTF-8 must produce an error");

    assert!(matches!(error, DocumentError::InvalidUtf8 { .. }));
}

#[test]
fn serialized_document_ceiling_is_exact_and_includes_the_bom() {
    let exact = vec![b'x'; MAX_DOCUMENT_BYTES];
    let document = Document::from_bytes(&exact).expect("the exact ceiling should load");
    assert_eq!(document.rope().len_bytes(), MAX_DOCUMENT_BYTES);
    assert_eq!(document.to_bytes().len(), MAX_DOCUMENT_BYTES);
    drop(document);
    drop(exact);

    let oversized = vec![b'x'; MAX_DOCUMENT_BYTES + 1];
    assert!(matches!(
        Document::from_bytes(&oversized),
        Err(DocumentError::DocumentTooLarge {
            actual,
            maximum: MAX_DOCUMENT_BYTES,
        }) if actual == MAX_DOCUMENT_BYTES + 1
    ));

    let bom_document = Document::from_bytes(b"\xEF\xBB\xBFx").expect("BOM fixture should load");
    assert_eq!(
        bom_document.maximum_text_bytes(),
        MAX_DOCUMENT_BYTES - Bom::Utf8.as_bytes().len()
    );
}

#[test]
fn authoritative_document_edit_rejects_growth_beyond_the_ceiling() {
    let initial = vec![b'x'; MAX_DOCUMENT_BYTES - 1];
    let mut document = Document::from_bytes(&initial).expect("bounded fixture should load");
    let append = EditTransaction::new(
        document.revision(),
        vec![TextEdit::replace(
            TextRange::new(initial.len(), initial.len()),
            "y",
            "",
        )],
        Selection::caret(initial.len()),
        Selection::caret(initial.len() + 1),
        EditOrigin::TextInput,
        EditTimestamp::default(),
    );
    document
        .apply_transaction(&append)
        .expect("an edit reaching the exact ceiling should apply");
    assert_eq!(document.rope().len_bytes(), MAX_DOCUMENT_BYTES);

    let overflow = EditTransaction::new(
        document.revision(),
        vec![TextEdit::replace(
            TextRange::new(MAX_DOCUMENT_BYTES, MAX_DOCUMENT_BYTES),
            "z",
            "",
        )],
        Selection::caret(MAX_DOCUMENT_BYTES),
        Selection::caret(MAX_DOCUMENT_BYTES + 1),
        EditOrigin::Paste,
        EditTimestamp::default(),
    );
    assert!(matches!(
        document.apply_transaction(&overflow),
        Err(EditError::ResultTooLarge {
            projected,
            maximum: MAX_DOCUMENT_BYTES,
        }) if projected == MAX_DOCUMENT_BYTES + 1
    ));
    assert_eq!(document.rope().len_bytes(), MAX_DOCUMENT_BYTES);
}

#[test]
fn whole_text_replacement_limit_is_exact_and_rejects_before_diffing() {
    let mut exact_document = Document::new();

    let changed = exact_document
        .replace_text_with_maximum("four", 4)
        .expect("a replacement at the exact ceiling should succeed");
    assert!(changed);
    assert_eq!(exact_document.rope().to_string(), "four");
    assert!(exact_document.is_dirty());

    let mut document = Document::from_bytes(b"unchanged").expect("fixture should load");
    let revision = document.revision();

    assert!(matches!(
        document.replace_text_with_maximum("12345", 4),
        Err(DocumentError::Edit(EditError::ResultTooLarge {
            projected,
            maximum: 4,
        })) if projected == 5
    ));
    assert_eq!(document.rope().to_string(), "unchanged");
    assert_eq!(document.revision(), revision);
    assert!(!document.is_dirty());
}

#[test]
fn replacing_with_identical_text_changes_nothing() {
    let mut document = Document::from_bytes(b"same").expect("fixture should load");
    assert_eq!(document.replace_text("same"), Ok(false));
    assert_eq!(document.revision(), Revision::initial());
    assert_eq!(document.replace_text("other"), Ok(true));
    assert_eq!(document.revision(), Revision::new(1));
    assert!(document.is_dirty());
    assert_eq!(document.replace_text("same"), Ok(true));
    assert_eq!(document.revision(), Revision::new(2));
    assert!(!document.is_dirty());
}

#[test]
fn committed_saves_rebaseline_only_the_current_revision() {
    let observation = FileObservation::new(
        FileIdentity::new(1, 2),
        ContentFingerprint::from_bytes(b"saved"),
        5,
        1,
        FileChangeToken::new(3, 4),
    );
    let mut document = Document::new();
    document.replace_text("draft").expect("edit applies");
    assert!(document.is_dirty());
    let chosen = std::path::PathBuf::from("chosen.txt");
    assert!(!document.record_committed_save(Revision::initial(), observation, chosen.clone(), true));
    assert!(document.is_dirty());
    assert_eq!(document.path(), None);
    assert!(document.record_committed_save(document.revision(), observation, chosen.clone(), true));
    assert!(!document.is_dirty());
    assert_eq!(
        document.saved_target(),
        Some(TargetExpectation::Existing(observation))
    );
    assert_eq!(document.path(), Some(&chosen));
}

#[test]
fn loaded_documents_keep_their_path_and_ordinary_saves_keep_it() {
    let fresh = Document::from_bytes(b"text").expect("fixture loads");
    assert_eq!(fresh.path(), None);
    assert_eq!(Document::new().path(), None);

    let observation = FileObservation::new(
        FileIdentity::new(1, 2),
        ContentFingerprint::from_bytes(b"text"),
        4,
        1,
        FileChangeToken::new(3, 4),
    );
    let mut document = Document::from_bytes(b"text").expect("fixture loads");
    let loaded = std::path::PathBuf::from("notes.txt");
    document.record_loaded_target(loaded.clone(), observation);
    assert_eq!(document.path(), Some(&loaded));
    assert_eq!(document.replace_text("more text"), Ok(true));
    assert_eq!(document.path(), Some(&loaded));
    assert!(document.record_committed_save(
        document.revision(),
        observation,
        std::path::PathBuf::from("elsewhere.txt"),
        false
    ));
    assert_eq!(document.path(), Some(&loaded));
}

#[test]
fn hard_linked_targets_need_confirmation() {
    let shared = FileObservation::new(
        FileIdentity::new(1, 2),
        ContentFingerprint::from_bytes(b"x"),
        1,
        2,
        FileChangeToken::new(0, 0),
    );
    assert_eq!(
        require_hard_link_confirmation(TargetExpectation::Existing(shared), false),
        Err(DocumentError::HardLinkedTarget(2))
    );
    assert_eq!(
        require_hard_link_confirmation(TargetExpectation::Existing(shared), true),
        Ok(())
    );
    assert_eq!(
        require_hard_link_confirmation(TargetExpectation::Missing, false),
        Ok(())
    );
}

#[test]
fn invalid_utf8_reports_the_valid_prefix_after_the_bom() {
    let error = Document::from_bytes(b"\xEF\xBB\xBFab\xC3")
        .err()
        .expect("a truncated scalar must produce an error");
    assert_eq!(
        error,
        DocumentError::InvalidUtf8 {
            valid_up_to: 2,
            error_len: None,
        }
    );
    let error = Document::from_bytes(b"ab\xFFcd")
        .err()
        .expect("an unexpected byte must produce an error");
    assert_eq!(
        error,
        DocumentError::InvalidUtf8 {
            valid_up_to: 2,
            error_len: Some(1),
        }
    );
}

#[test]
fn fingerprints_are_blake3_digests_of_the_exact_bytes() {
    let empty = ContentFingerprint::from_bytes(b"");
    let expected: [u8; 32] = [
        0xaf, 0x13, 0x49, 0xb9, 0xf5, 0xf9, 0xa1, 0xa6, 0xa0, 0x40, 0x4d, 0xea, 0x36, 0xdc, 0xc9,
        0x49, 0x9b, 0xcb, 0x25, 0xc9, 0xad, 0xc1, 0x12, 0xb7, 0xcc, 0x9a, 0x93, 0xca, 0xe4, 0x1f,
        0x32, 0x62,
    ];
    assert_eq!(empty.as_bytes(), &expected);
    assert_ne!(ContentFingerprint::from_bytes(b"a"), ContentFingerprint::from_bytes(b"b"));
}

#[test]
fn editing_back_to_the_loaded_text_is_clean_again() {
    let mut document = Document::from_bytes(b"\xEF\xBB\xBFabc").expect("fixture loads");
    assert!(!document.is_dirty());
    assert_eq!(document.replace_text("abd"), Ok(true));
    assert!(document.is_dirty());
    assert_eq!(document.replace_text("abc"), Ok(true));
    assert!(!document.is_dirty());
}

#[test]
fn prepared_save_as_keeps_the_chosen_path_and_expectation() {
    let prepared = noter::document::PreparedSaveAs::new(
        std::path::PathBuf::from("chosen.txt"),
        TargetExpectation::Missing,
        true,
    );
    assert_eq!(prepared.path(), &std::path::PathBuf::from("chosen.txt"));
    assert_eq!(prepared.expected(), TargetExpectation::Missing);
    assert!(prepared.adopt_path());
}

#[test]
fn reserved_replacement_and_application_succeed() {
    let mut document = Document::new();
    assert_eq!(document.replace_text_with_reserved("four", 4, Vec::new()), Ok(true));
    assert_eq!(document.rope().to_string(), "four");
    assert_eq!(
        document.replace_text_with_reserved("12345", 4, Vec::new()),
        Err(DocumentError::Edit(EditError::ResultTooLarge { projected: 5, maximum: 4 }))
    );
    assert_eq!(document.replace_text_with_reserved("four", 4, Vec::new()), Ok(false));

    let edit = EditTransaction::new(
        document.revision(),
        vec![TextEdit::replace(TextRange::new(4, 4), "!", "")],
        Selection::caret(4),
        Selection::caret(5),
        EditOrigin::TextInput,
        EditTimestamp::default(),
    );
    let applied = document
        .apply_reserved_transaction(&edit, Vec::new())
        .expect("the edit applies");
    assert_eq!(document.rope().to_string(), "four!");
    assert_eq!(applied.revision(), document.revision());
}

#[test]
fn saving_an_untitled_document_preserves_dirty_state() {
    let mut document = Document::new();
    document
        .replace_text("unsaved")
        .expect("the initial edit should advance the revision");

    let error = document
        .save_destination(false)
        .expect_err("an untitled document must require Save As");

    assert!(matches!(error, DocumentError::NoPath));
    assert!(document.is_dirty());
}

#[test]
fn save_as_refuses_directory_and_preserves_dirty_state() {
    let mut document = Document::new();
    document
        .replace_text("must remain dirty")
        .expect("the initial edit should advance the revision");

    let error = document
        .prepare_save_as(
            std::path::PathBuf::from("destination"),
            false,
            Some(TargetState::Special(SpecialFileKind::Directory)),
        )
        .expect_err("Save As must refuse an existing directory");

    assert!(matches!(error, DocumentError::UnsupportedTarget(_)));
    assert!(document.is_dirty());
    assert_eq!(document.path(), None);
}

#[test]
fn save_destinations_follow_the_trusted_baseline() {
    let single = FileObservation::new(
        FileIdentity::new(1, 2),
        ContentFingerprint::from_bytes(b"text"),
        4,
        1,
        FileChangeToken::new(0, 0),
    );
    let shared = FileObservation::new(
        FileIdentity::new(1, 3),
        ContentFingerprint::from_bytes(b"text"),
        4,
        2,
        FileChangeToken::new(0, 0),
    );
    let loaded = std::path::PathBuf::from("notes.txt");

    let untitled = Document::from_bytes(b"text").expect("fixture loads");
    assert_eq!(
        untitled
            .prepare_save_as(loaded.clone(), true, None)
            .expect_err("the current path needs a baseline"),
        DocumentError::MissingFileBaseline
    );
    let fresh = untitled
        .prepare_save_as(loaded.clone(), false, Some(TargetState::Missing))
        .expect("a missing destination can be created");
    assert_eq!(fresh.expected(), TargetExpectation::Missing);
    assert!(fresh.adopt_path());

    let mut document = Document::from_bytes(b"text").expect("fixture loads");
    document.record_loaded_target(loaded.clone(), single);
    let (path, expected) = document.save_destination(false).expect("a loaded file saves");
    assert_eq!(path, &loaded);
    assert_eq!(expected, TargetExpectation::Existing(single));
    let same = document
        .prepare_save_as(loaded.clone(), true, None)
        .expect("the current path keeps its baseline");
    assert_eq!(same.expected(), TargetExpectation::Existing(single));
    assert!(!same.adopt_path());
    let other = document
        .prepare_save_as(
            std::path::PathBuf::from("copy.txt"),
            false,
            Some(TargetState::Regular(shared)),
        )
        .expect("an existing regular file is versioned");
    assert_eq!(other.expected(), TargetExpectation::Existing(shared));
    assert_eq!(other.hard_link_count(), Some(2));

    document.record_loaded_target(loaded.clone(), shared);
    assert_eq!(
        document.save_destination(false).expect_err("other names need confirmation"),
        DocumentError::HardLinkedTarget(2)
    );
    assert!(document.save_destination(true).is_ok());
}
