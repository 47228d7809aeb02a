//! Replace All: which part of the text a replacement covers, when a
//! replacement would change nothing, and the text and selection it leaves.
//! The search that produces the replaced scope text is taken as an argument.

use vstd::prelude::*;
use vstd::string::StringExecFns;

use crate::edit::{Selection, TextRange};
use crate::presentation::{byte_at_or_before, selection_fits};
use crate::text_bounds::fitting_count;
use crate::text_bounds::lemma_fitting_count;
use crate::utf8_text::{
    char_count_at, is_boundary, lemma_char_count_at, lemma_prefix_bytes_full,
    lemma_prefix_is_boundary, prefix_bytes, str_len, str_slice, utf8_bytes,
};

verus! {

/// What Replace All covers.
#[derive(Clone, Copy, PartialEq, Eq, Structural, Debug)]
pub enum ReplaceScope {
    /// The current selection.
    Selection,
    /// The whole document.
    Document,
}

/// The byte range Replace All covers: the ordered selection, or the whole
/// text.
pub open spec fn scope_bounds(text_len: int, selection: Selection, scope: ReplaceScope) -> (
    int,
    int,
) {
    match scope {
        ReplaceScope::Selection => if selection.spec_anchor() <= selection.spec_active() {
            (selection.spec_anchor() as int, selection.spec_active() as int)
        } else {
            (selection.spec_active() as int, selection.spec_anchor() as int)
        },
        ReplaceScope::Document => (0, text_len),
    }
}

/// Returns the byte range Replace All covers in a text of `text_len` bytes.
pub fn replace_scope_range(text_len: usize, selection: Selection, scope: ReplaceScope) -> (range:
    TextRange)
    ensures
        (range.spec_start() as int, range.spec_end() as int) == scope_bounds(
            text_len as int,
            selection,
            scope,
        ),
{
    match scope {
        ReplaceScope::Selection => selection.ordered_range(),
        ReplaceScope::Document => TextRange::new(0, text_len),
    }
}

/// What Replace All does with a scope and the text its matches became.
#[derive(PartialEq, Eq, Debug)]
pub enum ReplaceAllOutcome {
    /// The scope is empty: nothing runs.
    EmptyScope,
    /// The replaced scope equals the scope: nothing changes and no
    /// replacement is counted.
    Unchanged,
    /// The new text, and the selection to show in it.
    Replaced {
        /// The whole text with the scope replaced.
        text: String,
        /// The selection afterwards.
        selection: Selection,
    },
}

/// The selection after replacing the scope `start..end` with `length`
/// bytes: over the new scope text in the old selection's direction, or, for
/// the whole document, a caret at the scalar boundary at or before the old
/// active end in the new text.
pub open spec fn selection_after_replace(
    new_text: Seq<char>,
    selection: Selection,
    scope: ReplaceScope,
    start: int,
    length: int,
) -> Selection {
    match scope {
        ReplaceScope::Selection => if selection.spec_anchor() <= selection.spec_active() {
            Selection::spec_new(start as usize, (start + length) as usize)
        } else {
            Selection::spec_new((start + length) as usize, start as usize)
        },
        ReplaceScope::Document => {
            let caret = prefix_bytes(
                new_text,
                fitting_count(new_text, selection.spec_active() as int),
            ) as usize;
            Selection::spec_new(caret, caret)
        },
    }
}

/// Decides Replace All over `text` given `replaced_scope`, the text the
/// search made of the scope: nothing for an empty scope, nothing changed
/// when the replaced scope equals the scope, and otherwise the text with the
/// scope replaced and the selection that shows it.
pub fn replace_all_outcome(
    text: &str,
    selection: Selection,
    scope: ReplaceScope,
    replaced_scope: &str,
) -> (outcome: ReplaceAllOutcome)
    requires
        scope is Selection ==> selection_fits(text@, selection),
    ensures
        ({
            let (start, end) = scope_bounds(utf8_bytes(text@).len() as int, selection, scope);
            let first = char_count_at(text@, start);
            let last = char_count_at(text@, end);
            if start == end {
                outcome == ReplaceAllOutcome::EmptyScope
            } else if text@.subrange(first, last) == replaced_scope@ {
                outcome == ReplaceAllOutcome::Unchanged
            } else {
                let new_text = text@.take(first) + replaced_scope@ + text@.skip(last);
                outcome matches ReplaceAllOutcome::Replaced { text: result, selection: after } && {
                    &&& result@ == new_text
                    &&& after == selection_after_replace(
                        new_text,
                        selection,
                        scope,
                        start,
                        utf8_bytes(replaced_scope@).len() as int,
                    )
                }
            }
        }),
{
    let length = str_len(text);
    let range = replace_scope_range(length, selection, scope);
    let start = range.start();
    let end = range.end();
    if start == end {
        return ReplaceAllOutcome::EmptyScope;
    }
    proof {
        lemma_prefix_bytes_full(text@);
        lemma_prefix_is_boundary(text@, 0);
        lemma_prefix_is_boundary(text@, text@.len() as int);
        assert(prefix_bytes(text@, 0) == 0);
        assert(text@.take(text@.len() as int) =~= text@);
        lemma_char_count_at(text@, start as int);
        lemma_char_count_at(text@, end as int);
        lemma_char_count_at(text@, length as int);
        lemma_char_count_at(text@, 0);
        if char_count_at(text@, end as int) < char_count_at(text@, start as int) {
            crate::utf8_text::lemma_prefix_bytes_monotone(
                text@,
                char_count_at(text@, end as int),
                char_count_at(text@, start as int),
            );
        }
    }
    let current = str_slice(text, start, end).to_owned();
    let replacement = replaced_scope.to_owned();
    if current == replacement {
        return ReplaceAllOutcome::Unchanged;
    }
    let mut result = str_slice(text, 0, start).to_owned();
    result.append(replaced_scope);
    result.append(str_slice(text, end, length));
    let replaced_length = str_len(replaced_scope);
    proof {
        assert(text@.subrange(0, char_count_at(text@, start as int)) =~= text@.take(
            char_count_at(text@, start as int),
        ));
        assert(text@.subrange(char_count_at(text@, end as int), text@.len() as int) =~= text@.skip(
            char_count_at(text@, end as int),
        ));
    }
    let after = match scope {
        ReplaceScope::Selection => {
            if selection.anchor() <= selection.active() {
                Selection::new(start, start + replaced_length)
            } else {
                Selection::new(start + replaced_length, start)
            }
        },
        ReplaceScope::Document => {
            let caret = byte_at_or_before(result.as_str(), selection.active());
            Selection::caret(caret)
        },
    };
    ReplaceAllOutcome::Replaced { text: result, selection: after }
}

/// After a whole-document Replace All the selection is a caret that
/// depends only on the old selection's active end, never on its anchor: it
/// sits at the last scalar boundary of the new text at or before that end
/// (the new text's end when the active end lies past it).
pub proof fn lemma_document_caret_follows_active_end(
    new_text: Seq<char>,
    selection: Selection,
    other: Selection,
    start: int,
    length: int,
)
    requires
        other.spec_active() == selection.spec_active(),
    ensures
        selection_after_replace(new_text, selection, ReplaceScope::Document, start, length)
            == selection_after_replace(new_text, other, ReplaceScope::Document, start, length),
        ({
            let after = selection_after_replace(
                new_text,
                selection,
                ReplaceScope::Document,
                start,
                length,
            );
            let caret = after.spec_active() as int;
            let active = selection.spec_active() as int;
            &&& after.spec_anchor() == after.spec_active()
            &&& caret <= active
            &&& exists|count: int|
                0 <= count <= new_text.len() && #[trigger] prefix_bytes(new_text, count) == caret && (count
                    == new_text.len() || prefix_bytes(new_text, count + 1) > active)
        }),
{
    selection.lemma_endpoints();
    let active = selection.spec_active() as int;
    lemma_fitting_count(new_text, active);
    let count = fitting_count(new_text, active);
    lemma_prefix_bytes_full(new_text);
    crate::utf8_text::lemma_prefix_bytes_monotone(new_text, count, new_text.len() as int);
    assert(prefix_bytes(new_text, count) <= active);
    let after = selection_after_replace(new_text, selection, ReplaceScope::Document, start, length);
    assert(after.spec_active() == prefix_bytes(new_text, count) as usize);
}

/// A Replace All within the selection selects exactly the replaced text,
/// keeping the old selection's direction.
pub proof fn lemma_selection_scope_keeps_direction(
    new_text: Seq<char>,
    selection: Selection,
    start: int,
    length: int,
)
    requires
        0 <= start,
        0 <= length,
        start + length <= usize::MAX,
    ensures
        ({
            let after = selection_after_replace(
                new_text,
                selection,
                ReplaceScope::Selection,
                start,
                length,
            );
            let low = if after.spec_anchor() <= after.spec_active() {
                after.spec_anchor()
            } else {
                after.spec_active()
            };
            let high = if after.spec_anchor() <= after.spec_active() {
                after.spec_active()
            } else {
                after.spec_anchor()
            };
            &&& low == start
            &&& high == start + length
            &&& length > 0 ==> ((after.spec_anchor() <= after.spec_active()) == (
            selection.spec_anchor() <= selection.spec_active()))
        }),
{
    selection.lemma_endpoints();
}

} // verus!
