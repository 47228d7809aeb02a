use noter::edit::{Selection, TextRange};
use noter::replace_all::{replace_all_outcome, replace_scope_range, ReplaceAllOutcome, ReplaceScope};

#[test]
fn replace_all_scope_is_the_selection_or_the_document() {
    assert_eq!(
        replace_scope_range(10, Selection::new(7, 2), ReplaceScope::Selection),
        TextRange::new(2, 7)
    );
    assert_eq!(
        replace_scope_range(10, Selection::new(7, 2), ReplaceScope::Document),
        TextRange::new(0, 10)
    );
}

#[test]
fn an_empty_scope_or_an_identical_result_changes_nothing() {
    assert_eq!(
        replace_all_outcome("abc", Selection::caret(1), ReplaceScope::Selection, "x"),
        ReplaceAllOutcome::EmptyScope
    );
    assert_eq!(
        replace_all_outcome("", Selection::caret(0), ReplaceScope::Document, "x"),
        ReplaceAllOutcome::EmptyScope
    );
    assert_eq!(
        replace_all_outcome("a cat", Selection::new(2, 5), ReplaceScope::Selection, "cat"),
        ReplaceAllOutcome::Unchanged
    );
}

#[test]
fn selection_replacements_keep_their_direction() {
    assert_eq!(
        replace_all_outcome("a cat sat", Selection::new(2, 9), ReplaceScope::Selection, "dog dog"),
        ReplaceAllOutcome::Replaced {
            text: "a dog dog".to_owned(),
            selection: Selection::new(2, 9),
        }
    );
    assert_eq!(
        replace_all_outcome("a cat", Selection::new(5, 2), ReplaceScope::Selection, "é"),
        ReplaceAllOutcome::Replaced {
            text: "a é".to_owned(),
            selection: Selection::new(4, 2),
        }
    );
}

#[test]
fn document_replacements_keep_the_caret_on_a_boundary() {
    assert_eq!(
        replace_all_outcome("cat cat", Selection::caret(6), ReplaceScope::Document, "é é"),
        ReplaceAllOutcome::Replaced {
            text: "é é".to_owned(),
            selection: Selection::caret(5),
        }
    );
    assert_eq!(
        replace_all_outcome("aaaa", Selection::caret(2), ReplaceScope::Document, "éé"),
        ReplaceAllOutcome::Replaced {
            text: "éé".to_owned(),
            selection: Selection::caret(2),
        }
    );
}
