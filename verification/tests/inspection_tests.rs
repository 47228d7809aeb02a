use noter::inspection::{
    after_failed_attempt, bounded_read_limit, changed_or_io, handle_metadata_is_regular,
    link_attributes_indicate_link, non_regular_state, read_window_changed, redacted_error,
    reopened_path_changed, AttemptError, AttemptStep, FileFacts, HandleStamp, IoErrorKind,
    ModifiedTime, SaveStage, FILE_TOO_LARGE_MESSAGE, MAX_SUPPORTED_FILE_BYTES,
};
use noter::observation::{FileChangeToken, FileIdentity, SpecialFileKind, TargetState};

fn stamp(file: u128, length: u64) -> HandleStamp {
    HandleStamp {
        facts: FileFacts {
            identity: FileIdentity::new(7, file),
            link_count: 1,
            change_token: FileChangeToken::new(100, 0),
        },
        length,
        modified: Some(ModifiedTime {
            seconds: 100,
            nanoseconds: 5,
        }),
        is_regular: true,
    }
}

#[test]
fn link_attribute_classification_has_an_exact_truth_table() {
    assert!(!link_attributes_indicate_link(false, false));
    assert!(link_attributes_indicate_link(true, false));
    assert!(link_attributes_indicate_link(false, true));
    assert!(link_attributes_indicate_link(true, true));
}

#[test]
fn open_handle_classification_has_an_exact_truth_table() {
    assert!(!handle_metadata_is_regular(false, false));
    assert!(!handle_metadata_is_regular(false, true));
    assert!(handle_metadata_is_regular(true, false));
    assert!(!handle_metadata_is_regular(true, true));
}

#[test]
fn maximum_size_constant_is_exact_and_limit_arithmetic_cannot_wrap() {
    assert_eq!(MAX_SUPPORTED_FILE_BYTES, 67_108_864);
    assert!(matches!(
        bounded_read_limit(0, u64::MAX),
        Err(AttemptError::Io {
            operation: "calculate bounded read limit",
            ..
        })
    ));
}

#[test]
fn read_limit_is_one_past_an_inclusive_maximum() {
    assert_eq!(bounded_read_limit(4, 4), Ok(5));
    assert_eq!(bounded_read_limit(5, 4), Err(AttemptError::TooLarge));
}

#[test]
fn read_window_change_checks_each_observed_dimension() {
    let first = stamp(1, 11);
    let second = stamp(2, 11);
    assert!(!read_window_changed(first, first, first.length));
    assert!(read_window_changed(first, second, first.length));
    let mut changed_length = first;
    changed_length.length += 1;
    assert!(read_window_changed(first, changed_length, first.length));
    let mut changed_modified = first;
    changed_modified.modified = None;
    assert!(read_window_changed(first, changed_modified, first.length));
    let mut changed_kind = first;
    changed_kind.is_regular = false;
    assert!(read_window_changed(first, changed_kind, first.length));
    assert!(read_window_changed(first, first, first.length + 1));
}

#[test]
fn reopened_path_change_checks_entry_and_handle_independently() {
    let first = stamp(1, 5);
    let second = stamp(2, 6);
    assert!(!reopened_path_changed(false, first, first));
    assert!(reopened_path_changed(true, first, first));
    assert!(reopened_path_changed(false, second, first));
}

#[test]
fn special_entries_are_classified_link_first() {
    assert_eq!(
        non_regular_state(true, true, false),
        Some(TargetState::Special(SpecialFileKind::SymbolicLink))
    );
    assert_eq!(
        non_regular_state(false, true, false),
        Some(TargetState::Special(SpecialFileKind::Directory))
    );
    assert_eq!(non_regular_state(false, false, true), None);
    assert_eq!(
        non_regular_state(false, false, false),
        Some(TargetState::Special(SpecialFileKind::Other))
    );
}

#[test]
fn failed_attempts_retry_only_changes_and_redact_paths() {
    assert_eq!(changed_or_io("open", IoErrorKind::NotFound), AttemptError::Changed);
    assert_eq!(
        changed_or_io("open", IoErrorKind::PermissionDenied),
        AttemptError::Io {
            operation: "open",
            kind: IoErrorKind::PermissionDenied,
        }
    );
    assert_eq!(
        after_failed_attempt(SaveStage::Revalidate, 1, AttemptError::Changed, "changed repeatedly"),
        AttemptStep::Retry
    );
    let AttemptStep::Fail(exhausted) =
        after_failed_attempt(SaveStage::Revalidate, 3, AttemptError::Changed, "changed repeatedly")
    else {
        panic!("a third changed attempt must stop");
    };
    assert_eq!(exhausted.stage(), SaveStage::Revalidate);
    assert_eq!(exhausted.message(), "changed repeatedly");
    let AttemptStep::Fail(large) =
        after_failed_attempt(SaveStage::InspectInitial, 1, AttemptError::TooLarge, "unused")
    else {
        panic!("an oversized file must stop");
    };
    assert_eq!(large.message(), FILE_TOO_LARGE_MESSAGE);
    let error = redacted_error(
        SaveStage::Revalidate,
        "read final-entry metadata",
        IoErrorKind::InvalidInput,
    );
    assert_eq!(error.stage(), SaveStage::Revalidate);
    assert_eq!(error.message(), "read final-entry metadata failed with InvalidInput");
}

#[test]
fn inspection_errors_retain_stage_without_disclosing_path() {
    let private_marker = "private-note-name";
    let AttemptStep::Fail(error) = after_failed_attempt(
        SaveStage::Revalidate,
        1,
        AttemptError::Io {
            operation: "read final-entry metadata",
            kind: IoErrorKind::InvalidInput,
        },
        "unused",
    ) else {
        panic!("an I/O failure other than a change must stop");
    };
    assert_eq!(error.stage(), SaveStage::Revalidate);
    assert!(!error.message().contains(private_marker));
    assert!(error.message().contains("InvalidInput"));
    for kind in [IoErrorKind::NotFound, IoErrorKind::PermissionDenied, IoErrorKind::Other] {
        let redacted = redacted_error(SaveStage::InspectInitial, "open regular file", kind);
        assert!(!redacted.message().contains('/'));
        assert!(!redacted.message().contains(private_marker));
        assert_eq!(redacted.message(), format!("open regular file failed with {}", kind.name()));
    }
}
