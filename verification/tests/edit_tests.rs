use std::time::Duration;

use noter::edit::{
    EditError, EditIntent, EditOrigin, EditTimestamp, EditTransaction, Selection, SelectionState,
    TextEdit, TextRange,
};
use noter::revision::Revision;
use ropey::Rope;

fn transaction(
    revision: Revision,
    edits: Vec<TextEdit>,
    before: Selection,
    after: Selection,
) -> EditTransaction {
    EditTransaction::new(
        revision,
        edits,
        before,
        after,
        EditOrigin::TextInput,
        EditTimestamp::default(),
    )
}

#[test]
fn value_types_preserve_byte_ranges_and_selection_direction() {
    let range = TextRange::new(2, 7);
    assert_eq!(range.start(), 2);
    assert_eq!(range.end(), 7);
    assert_eq!(range.len(), 5);

    let selection = Selection::new(9, 3);
    assert_eq!(selection.anchor(), 9);
    assert_eq!(selection.active(), 3);
    assert_eq!(selection.ordered_range(), TextRange::new(3, 9));
    assert_eq!(Selection::caret(4), Selection::new(4, 4));
}

#[test]
fn direct_source_deltas_have_conservative_explicit_intents() {
    let cases = [
        (
            TextEdit::replace(TextRange::new(1, 1), "é", ""),
            Selection::caret(1),
            Selection::caret(3),
            EditOrigin::TextInput,
            EditIntent::Insert,
        ),
        (
            TextEdit::replace(TextRange::new(1, 3), "", "é"),
            Selection::caret(3),
            Selection::caret(1),
            EditOrigin::TextInput,
            EditIntent::Backspace,
        ),
        (
            TextEdit::replace(TextRange::new(1, 3), "", "é"),
            Selection::caret(1),
            Selection::caret(1),
            EditOrigin::MarkdownInput,
            EditIntent::Delete,
        ),
        (
            TextEdit::replace(TextRange::new(1, 3), "x", "é"),
            Selection::new(3, 1),
            Selection::caret(2),
            EditOrigin::TextInput,
            EditIntent::ReplaceSelection,
        ),
        (
            TextEdit::replace(TextRange::new(1, 1), "x", ""),
            Selection::caret(1),
            Selection::caret(2),
            EditOrigin::Paste,
            EditIntent::Paste,
        ),
    ];

    for (edit, before, after, origin, expected) in cases {
        let transaction = EditTransaction::new(
            Revision::initial(),
            vec![edit],
            before,
            after,
            origin,
            EditTimestamp::default(),
        );
        assert_eq!(transaction.intent(), expected);
        assert_eq!(transaction.edits().len(), 1);
    }
}

#[test]
fn direct_intent_classification_rejects_each_near_miss_independently() {
    let cases = [
        (
            TextEdit::replace(TextRange::new(1, 2), "x", ""),
            Selection::caret(1),
            Selection::caret(2),
        ),
        (
            TextEdit::replace(TextRange::new(1, 1), "x", "y"),
            Selection::caret(1),
            Selection::caret(1),
        ),
        (
            TextEdit::replace(TextRange::new(1, 2), "", "x"),
            Selection::caret(0),
            Selection::caret(1),
        ),
    ];

    for (edit, before, after) in cases {
        let transaction = EditTransaction::new(
            Revision::initial(),
            vec![edit],
            before,
            after,
            EditOrigin::TextInput,
            EditTimestamp::default(),
        );
        assert_eq!(transaction.intent(), EditIntent::Unclassified);
    }
}

#[test]
fn explicit_operation_origins_define_intent_without_shape_guessing() {
    for (origin, expected) in [
        (EditOrigin::MarkdownFormatting, EditIntent::Formatting),
        (EditOrigin::Replace, EditIntent::Replace),
        (
            EditOrigin::LineEndingConversion,
            EditIntent::LineEndingConversion,
        ),
        (EditOrigin::Programmatic, EditIntent::Programmatic),
    ] {
        let transaction = EditTransaction::new(
            Revision::initial(),
            vec![TextEdit::replace(TextRange::new(0, 0), "x", "")],
            Selection::caret(0),
            Selection::caret(1),
            origin,
            EditTimestamp::default(),
        );
        assert_eq!(transaction.intent(), expected);
    }
}

#[test]
fn inverse_retains_the_forward_intent() {
    let source = Rope::from_str("");
    let transaction = EditTransaction::new(
        Revision::initial(),
        vec![TextEdit::replace(TextRange::new(0, 0), "x", "")],
        Selection::caret(0),
        Selection::caret(1),
        EditOrigin::TextInput,
        EditTimestamp::default(),
    );

    let (_, applied) = transaction
        .apply_to(&source, Revision::initial(), usize::MAX)
        .expect("insertion should apply");

    assert_eq!(transaction.intent(), EditIntent::Insert);
    assert_eq!(applied.inverse().intent(), EditIntent::Insert);
}

#[test]
fn minimal_difference_keeps_shared_unicode_prefix_and_suffix() {
    let edit = EditTransaction::between(
        Revision::initial(),
        "a\u{301} middle \u{1f642}",
        "a\u{301} better \u{1f642}",
        Selection::caret(3),
        Selection::caret(3),
        EditOrigin::TextInput,
        EditTimestamp::new(Duration::from_millis(12)),
    )
    .expect("valid selections should produce a transaction")
    .expect("different text should produce one edit");

    assert_eq!(edit.edits().len(), 1);
    assert_eq!(edit.edits()[0].removed(), "middle");
    assert_eq!(edit.edits()[0].inserted(), "better");
    assert_eq!(edit.observed_at().elapsed(), Duration::from_millis(12));
}

#[test]
fn equal_content_is_not_a_transaction() {
    let transaction = EditTransaction::between(
        Revision::initial(),
        "same",
        "same",
        Selection::caret(0),
        Selection::caret(4),
        EditOrigin::TextInput,
        EditTimestamp::default(),
    )
    .expect("both selections are valid");

    assert!(transaction.is_none());
}

#[test]
fn between_rejects_invalid_selections_even_when_content_is_equal() {
    assert_eq!(
        EditTransaction::between(
            Revision::initial(),
            "é",
            "é",
            Selection::caret(1),
            Selection::caret(2),
            EditOrigin::TextInput,
            EditTimestamp::default(),
        ),
        Err(EditError::InvalidBoundary { offset: 1 })
    );
    assert_eq!(
        EditTransaction::between(
            Revision::initial(),
            "text",
            "text",
            Selection::caret(0),
            Selection::caret(5),
            EditOrigin::TextInput,
            EditTimestamp::default(),
        ),
        Err(EditError::InvalidSelection {
            state: SelectionState::After,
            position: 5,
            source_len: 4,
        })
    );
}

#[test]
fn apply_is_atomic_and_inverse_restores_content_and_directional_selection() {
    let source = Rope::from_str("alpha beta gamma");
    let edit = transaction(
        Revision::initial(),
        vec![TextEdit::replace(TextRange::new(6, 10), "BETA", "beta")],
        Selection::new(10, 6),
        Selection::new(6, 10),
    );

    let (changed, applied) = edit
        .apply_to(&source, Revision::initial(), usize::MAX)
        .expect("valid edit should apply");
    assert_eq!(changed.to_string(), "alpha BETA gamma");
    assert_eq!(applied.selection(), Selection::new(6, 10));

    let (restored, undone) = applied
        .inverse()
        .apply_to(&changed, applied.revision(), usize::MAX)
        .expect("exact inverse should apply");
    assert_eq!(restored, source);
    assert_eq!(undone.selection(), Selection::new(10, 6));
}

#[test]
fn multiple_edits_produce_correct_shifted_inverse_ranges() {
    let source = Rope::from_str("one two three");
    let edit = transaction(
        Revision::initial(),
        vec![
            TextEdit::replace(TextRange::new(0, 3), "1", "one"),
            TextEdit::replace(TextRange::new(8, 13), "33333", "three"),
        ],
        Selection::caret(0),
        Selection::caret(7),
    );

    let (changed, applied) = edit
        .apply_to(&source, Revision::initial(), usize::MAX)
        .expect("disjoint edits should apply atomically");
    assert_eq!(changed.to_string(), "1 two 33333");
    assert_eq!(applied.inverse().edits()[0].range(), TextRange::new(0, 1));
    assert_eq!(applied.inverse().edits()[1].range(), TextRange::new(6, 11));

    let (restored, _) = applied
        .inverse()
        .apply_to(&changed, applied.revision(), usize::MAX)
        .expect("shifted inverse ranges should restore the source");
    assert_eq!(restored, source);
}

#[test]
fn every_validation_failure_preserves_the_input_rope() {
    let cases = [
        transaction(
            Revision::new(1),
            vec![TextEdit::replace(TextRange::new(0, 1), "x", "a")],
            Selection::caret(0),
            Selection::caret(1),
        ),
        transaction(
            Revision::initial(),
            Vec::new(),
            Selection::caret(0),
            Selection::caret(0),
        ),
        transaction(
            Revision::initial(),
            vec![TextEdit::replace(TextRange::new(2, 1), "x", "")],
            Selection::caret(0),
            Selection::caret(0),
        ),
        transaction(
            Revision::initial(),
            vec![TextEdit::replace(TextRange::new(1, 2), "x", "")],
            Selection::caret(0),
            Selection::caret(0),
        ),
        transaction(
            Revision::initial(),
            vec![TextEdit::replace(TextRange::new(0, 1), "a", "a")],
            Selection::caret(0),
            Selection::caret(1),
        ),
        transaction(
            Revision::initial(),
            vec![TextEdit::replace(TextRange::new(0, 1), "x", "z")],
            Selection::caret(0),
            Selection::caret(1),
        ),
        transaction(
            Revision::initial(),
            vec![
                TextEdit::replace(TextRange::new(1, 2), "x", "b"),
                TextEdit::replace(TextRange::new(0, 1), "y", "a"),
            ],
            Selection::caret(0),
            Selection::caret(0),
        ),
        transaction(
            Revision::initial(),
            vec![TextEdit::replace(TextRange::new(0, 1), "x", "a")],
            Selection::caret(4),
            Selection::caret(1),
        ),
    ];

    for candidate in cases {
        let source = Rope::from_str("abc");
        assert!(
            candidate
                .apply_to(&source, Revision::initial(), usize::MAX)
                .is_err()
        );
        assert_eq!(source.to_string(), "abc");
    }
}

#[test]
fn invalid_unicode_boundaries_are_rejected() {
    let source = Rope::from_str("é");
    let edit = transaction(
        Revision::initial(),
        vec![TextEdit::replace(TextRange::new(1, 2), "e", "")],
        Selection::caret(0),
        Selection::caret(1),
    );

    assert_eq!(
        edit.apply_to(&source, Revision::initial(), usize::MAX),
        Err(EditError::InvalidBoundary { offset: 1 })
    );
    assert_eq!(source.to_string(), "é");
}

#[test]
fn result_ceiling_is_exact_for_typing_paste_and_replace_origins() {
    let source = Rope::from_str("abc");
    for origin in [
        EditOrigin::TextInput,
        EditOrigin::Paste,
        EditOrigin::Replace,
    ] {
        let edit = EditTransaction::new(
            Revision::initial(),
            vec![TextEdit::replace(TextRange::new(3, 3), "d", "")],
            Selection::caret(3),
            Selection::caret(4),
            origin,
            EditTimestamp::default(),
        );

        assert!(
            edit.apply_to(&source, Revision::initial(), 4).is_ok(),
            "{origin:?} should reach the exact result ceiling"
        );
        assert_eq!(
            edit.apply_to(&source, Revision::initial(), 3),
            Err(EditError::ResultTooLarge {
                projected: 4,
                maximum: 3,
            }),
            "{origin:?} must not exceed the result ceiling"
        );
        assert_eq!(source.to_string(), "abc");
    }
}

#[test]
fn each_rejection_reports_its_exact_error() {
    let source = Rope::from_str("abc");
    let stale = transaction(
        Revision::new(1),
        vec![TextEdit::replace(TextRange::new(0, 1), "x", "a")],
        Selection::caret(0),
        Selection::caret(1),
    );
    assert_eq!(
        stale.apply_to(&source, Revision::initial(), usize::MAX),
        Err(EditError::StaleRevision {
            expected: Revision::new(1),
            actual: Revision::initial(),
        })
    );
    let empty = transaction(
        Revision::initial(),
        Vec::new(),
        Selection::caret(0),
        Selection::caret(0),
    );
    assert_eq!(
        empty.apply_to(&source, Revision::initial(), usize::MAX),
        Err(EditError::EmptyTransaction)
    );
    let reversed = transaction(
        Revision::initial(),
        vec![TextEdit::replace(TextRange::new(2, 1), "x", "")],
        Selection::caret(0),
        Selection::caret(0),
    );
    assert_eq!(
        reversed.apply_to(&source, Revision::initial(), usize::MAX),
        Err(EditError::InvalidRange {
            start: 2,
            end: 1,
            source_len: 3,
        })
    );
    let no_op = transaction(
        Revision::initial(),
        vec![TextEdit::replace(TextRange::new(0, 1), "a", "a")],
        Selection::caret(0),
        Selection::caret(1),
    );
    assert_eq!(
        no_op.apply_to(&source, Revision::initial(), usize::MAX),
        Err(EditError::NoOpEdit { index: 0 })
    );
    let mismatch = transaction(
        Revision::initial(),
        vec![TextEdit::replace(TextRange::new(0, 1), "x", "z")],
        Selection::caret(0),
        Selection::caret(1),
    );
    assert_eq!(
        mismatch.apply_to(&source, Revision::initial(), usize::MAX),
        Err(EditError::RemovedTextMismatch { index: 0 })
    );
    let unordered = transaction(
        Revision::initial(),
        vec![
            TextEdit::replace(TextRange::new(1, 2), "x", "b"),
            TextEdit::replace(TextRange::new(0, 1), "y", "a"),
        ],
        Selection::caret(0),
        Selection::caret(0),
    );
    assert_eq!(
        unordered.apply_to(&source, Revision::initial(), usize::MAX),
        Err(EditError::EditsOverlapOrOutOfOrder {
            index: 1,
            start: 0,
            previous_end: 2,
        })
    );
    let outside = transaction(
        Revision::initial(),
        vec![TextEdit::replace(TextRange::new(0, 1), "x", "a")],
        Selection::caret(4),
        Selection::caret(1),
    );
    assert_eq!(
        outside.apply_to(&source, Revision::initial(), usize::MAX),
        Err(EditError::InvalidSelection {
            state: SelectionState::Before,
            position: 4,
            source_len: 3,
        })
    );
    let after_outside = transaction(
        Revision::initial(),
        vec![TextEdit::replace(TextRange::new(0, 1), "x", "a")],
        Selection::caret(0),
        Selection::caret(9),
    );
    assert_eq!(
        after_outside.apply_to(&source, Revision::initial(), usize::MAX),
        Err(EditError::InvalidSelection {
            state: SelectionState::After,
            position: 9,
            source_len: 3,
        })
    );
    let exhausted = transaction(
        Revision::new(u64::MAX),
        vec![TextEdit::replace(TextRange::new(0, 1), "x", "a")],
        Selection::caret(0),
        Selection::caret(1),
    );
    assert_eq!(
        exhausted.apply_to(&source, Revision::new(u64::MAX), usize::MAX),
        Err(EditError::RevisionExhausted)
    );
}

#[test]
fn applying_advances_the_revision_exactly_once_and_records_the_base() {
    let source = Rope::from_str("abc");
    let edit = transaction(
        Revision::new(5),
        vec![TextEdit::replace(TextRange::new(1, 2), "XY", "b")],
        Selection::caret(1),
        Selection::caret(3),
    );
    let (changed, applied) = edit
        .apply_to(&source, Revision::new(5), usize::MAX)
        .expect("valid edit should apply");
    assert_eq!(changed.to_string(), "aXYc");
    assert_eq!(applied.base_revision(), Revision::new(5));
    assert_eq!(applied.revision(), Revision::new(6));
    let inverse = applied.into_inverse();
    assert_eq!(inverse.base_revision(), Revision::new(6));
    assert_eq!(inverse.selection_before(), Selection::caret(3));
    assert_eq!(inverse.selection_after(), Selection::caret(1));
    assert_eq!(inverse.edits()[0].range(), TextRange::new(1, 3));
    assert_eq!(inverse.edits()[0].inserted(), "b");
    assert_eq!(inverse.edits()[0].removed(), "XY");
}

#[test]
fn between_applied_to_its_source_reproduces_the_target() {
    let before = "one two three";
    let after = "one 2 three!";
    let edit = EditTransaction::between(
        Revision::initial(),
        before,
        after,
        Selection::caret(0),
        Selection::caret(0),
        EditOrigin::Programmatic,
        EditTimestamp::default(),
    )
    .expect("valid selections")
    .expect("different text");
    assert_eq!(edit.edits()[0].range(), TextRange::new(4, 13));
    let (changed, _) = edit
        .apply_to(&Rope::from_str(before), Revision::initial(), usize::MAX)
        .expect("the minimal edit applies to its source");
    assert_eq!(changed.to_string(), after);
}

#[test]
fn retained_bytes_sum_inserted_and_removed_text() {
    let edit = transaction(
        Revision::initial(),
        vec![
            TextEdit::replace(TextRange::new(0, 2), "é", "ab"),
            TextEdit::replace(TextRange::new(3, 3), "xyz", ""),
        ],
        Selection::caret(0),
        Selection::caret(0),
    );
    assert_eq!(edit.retained_bytes(), 2 + 2 + 3);
    assert_eq!(edit.edits()[0].retained_bytes(), 4);
    let rebased = edit.rebased(Revision::new(8));
    assert_eq!(rebased.base_revision(), Revision::new(8));
    assert_eq!(rebased.edits(), edit.edits());
}

#[test]
fn redoing_an_undo_repeats_the_original_edits() {
    let source = Rope::from_str("one two three");
    let edit = transaction(
        Revision::initial(),
        vec![
            TextEdit::replace(TextRange::new(0, 3), "1", "one"),
            TextEdit::replace(TextRange::new(8, 13), "33333", "three"),
        ],
        Selection::caret(0),
        Selection::caret(7),
    );

    let (changed, applied) = edit
        .apply_to(&source, Revision::initial(), usize::MAX)
        .expect("disjoint edits should apply");
    let (restored, undone) = applied
        .inverse()
        .apply_to(&changed, applied.revision(), usize::MAX)
        .expect("the inverse should apply");
    assert_eq!(restored, source);

    let redo = undone.inverse();
    assert_eq!(redo.edits().len(), 2);
    for (again, original) in redo.edits().iter().zip(edit.edits()) {
        assert_eq!(again.range(), original.range());
        assert_eq!(again.inserted(), original.inserted());
        assert_eq!(again.removed(), original.removed());
    }
    assert_eq!(redo.selection_before(), edit.selection_before());
    assert_eq!(redo.selection_after(), edit.selection_after());

    let (redone, _) = redo
        .apply_to(&restored, undone.revision(), usize::MAX)
        .expect("the redo should apply");
    assert_eq!(redone, changed);
}

#[test]
fn a_granted_reservation_applies_the_transaction() {
    let source = Rope::from_str("one two three");
    let edit = transaction(
        Revision::initial(),
        vec![
            TextEdit::replace(TextRange::new(0, 3), "1", "one"),
            TextEdit::replace(TextRange::new(8, 13), "33333", "three"),
        ],
        Selection::caret(0),
        Selection::caret(7),
    );
    let reserved = edit.reserve_inverse().expect("a small reservation is granted");
    assert!(reserved.is_empty());
    let (changed, applied) = edit
        .apply_with_reserved(&source, Revision::initial(), usize::MAX, reserved)
        .expect("a valid transaction applies once its room is reserved");
    assert_eq!(changed.to_string(), "1 two 33333");
    assert_eq!(applied.inverse().edits()[1].range(), TextRange::new(6, 11));
    assert_eq!(applied.inverse().edits()[1].inserted(), "three");

    assert_eq!(
        edit.apply_with_reserved(&source, Revision::new(1), usize::MAX, Vec::new()),
        Err(EditError::StaleRevision {
            expected: Revision::initial(),
            actual: Revision::new(1),
        })
    );
}
