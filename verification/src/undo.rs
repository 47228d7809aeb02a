//! The undo law: the inverse of an applied transaction gives back exactly the
//! source it changed, and the selection it started from.

use vstd::prelude::*;
use vstd::utf8::*;

use crate::edit::{
    applied_bytes, apply_failure, common_prefix_len, common_suffix_len, compose, edit_failure,
    edit_passes, edits_in_order, edits_valid, is_inverse_of, is_minimal_replacement, length_delta,
    lemma_scan_passes, lemma_valid_edits_in_order, minimal_frame, previous_end,
    result_selection_failure, retained_sum, scan_failure, EditTransaction, TextEdit,
};
use crate::revision::Revision;
use crate::utf8_text::{
    lemma_encode_concat, lemma_encode_split, lemma_join_boundary, lemma_prefix_bytes_full,
    lemma_valid_between, prefix_bytes, utf8_bytes,
};

verus! {

/// Where unchanged source resumes before edit `index`: the end of the edit
/// before it, or the start of the source.
pub open spec fn source_cursor(edits: Seq<TextEdit>, index: int) -> int {
    if index <= 0 {
        0
    } else {
        edits[index - 1].spec_range().spec_end() as int
    }
}

/// Every length the produced source passes through while its edits are
/// undone one at a time fits in `usize`.
pub open spec fn undo_lengths_fit(edits: Seq<TextEdit>, source_len: int) -> bool {
    forall|count: int|
        #![trigger length_delta(edits, count)]
        0 < count <= edits.len() ==> source_len + length_delta(edits, edits.len() as int)
            - length_delta(edits, count) <= usize::MAX
}

/// The inverse replacements of `edits`, in produced-source coordinates.
spec fn inverse_edits_of(edits: Seq<TextEdit>, reversed: Seq<TextEdit>) -> bool {
    &&& reversed.len() == edits.len()
    &&& forall|index: int|
        #![trigger reversed[index]]
        0 <= index < edits.len() ==> {
            &&& reversed[index].spec_range().spec_start() == edits[index].spec_range().spec_start()
                + length_delta(edits, index)
            &&& reversed[index].spec_range().spec_end() == edits[index].spec_range().spec_start()
                + length_delta(edits, index) + utf8_bytes(edits[index].spec_inserted()).len()
            &&& reversed[index].spec_inserted() == edits[index].spec_removed()
            &&& reversed[index].spec_removed() == edits[index].spec_inserted()
        }
}

/// Validated edits of valid UTF-8 source, with their scalar boundaries.
spec fn edits_apply(source: Seq<u8>, edits: Seq<TextEdit>) -> bool {
    &&& valid_utf8(source)
    &&& edits_valid(source, edits)
    &&& edits_in_order(edits, source.len() as int)
}

/// The facts a validated edit gives about its range.
proof fn lemma_edit_facts(chars: Seq<char>, edits: Seq<TextEdit>, index: int)
    requires
        edits_apply(utf8_bytes(chars), edits),
        0 <= index < edits.len(),
    ensures
        ({
            let source = utf8_bytes(chars);
            let edit = edits[index];
            let start = edit.spec_range().spec_start() as int;
            let end = edit.spec_range().spec_end() as int;
            &&& source_cursor(edits, index) <= start <= end <= source.len()
            &&& is_char_boundary(source, start)
            &&& is_char_boundary(source, end)
            &&& is_char_boundary(source, source_cursor(edits, index))
            &&& source.subrange(start, end) == utf8_bytes(edit.spec_removed())
            &&& edit.spec_inserted() != edit.spec_removed()
            &&& length_delta(edits, index + 1) == length_delta(edits, index) + utf8_bytes(
                edit.spec_inserted(),
            ).len() - (end - start)
        }),
{
    let source = utf8_bytes(chars);
    assert(edit_passes(source, edits, index));
    assert(edits[index] == edits[index]);
    if index > 0 {
        assert(edit_passes(source, edits, index - 1));
        assert(edits[index - 1].spec_range().spec_end() <= edits[index].spec_range().spec_start());
    } else {
        is_char_boundary_start_end_of_seq(source);
    }
}

/// The produced source splits, after each edit's cursor, into a valid prefix
/// and the composition of the remaining edits.
proof fn lemma_produced_prefix(chars: Seq<char>, edits: Seq<TextEdit>, index: int)
    requires
        edits_apply(utf8_bytes(chars), edits),
        0 <= index <= edits.len(),
    ensures
        ({
            let source = utf8_bytes(chars);
            let produced = compose(source, edits, 0);
            let cursor = source_cursor(edits, index) + length_delta(edits, index);
            &&& 0 <= cursor <= produced.len()
            &&& produced.skip(cursor) == compose(
                source,
                edits.skip(index),
                source_cursor(edits, index),
            )
            &&& valid_utf8(produced.take(cursor))
        }),
    decreases index,
{
    let source = utf8_bytes(chars);
    let produced = compose(source, edits, 0);
    if index == 0 {
        assert(edits.skip(0) =~= edits);
        assert(produced.skip(0) =~= produced);
        assert(produced.take(0) =~= Seq::<u8>::empty());
    } else {
        let i = index - 1;
        lemma_produced_prefix(chars, edits, i);
        lemma_edit_facts(chars, edits, i);
        let edit = edits[i];
        let start = edit.spec_range().spec_start() as int;
        let end = edit.spec_range().spec_end() as int;
        let from = source_cursor(edits, i);
        let before = from + length_delta(edits, i);
        let unchanged = source.subrange(from, start);
        let inserted = utf8_bytes(edit.spec_inserted());
        let rest = compose(source, edits.skip(index), end);
        assert(edits.skip(i)[0] == edit);
        assert(edits.skip(i).drop_first() =~= edits.skip(index));
        assert(produced.skip(before) == unchanged + inserted + rest);
        let after = before + unchanged.len() + inserted.len();
        assert(after == source_cursor(edits, index) + length_delta(edits, index));
        assert(produced =~= produced.take(before) + produced.skip(before));
        assert(produced.skip(after) =~= rest);
        assert(produced.take(after) =~= produced.take(before) + unchanged + inserted);
        lemma_valid_between(chars, from, start);
        encode_utf8_valid_utf8(edit.spec_inserted());
        valid_utf8_concat(produced.take(before), unchanged);
        valid_utf8_concat(produced.take(before) + unchanged, inserted);
    }
}

/// Composing the remaining edits over valid source gives valid UTF-8.
proof fn lemma_compose_valid(chars: Seq<char>, edits: Seq<TextEdit>, index: int)
    requires
        edits_apply(utf8_bytes(chars), edits),
        0 <= index <= edits.len(),
    ensures
        valid_utf8(compose(utf8_bytes(chars), edits.skip(index), source_cursor(edits, index))),
    decreases edits.len() - index,
{
    let source = utf8_bytes(chars);
    let from = source_cursor(edits, index);
    if index == edits.len() {
        if index == 0 {
            is_char_boundary_start_end_of_seq(source);
        } else {
            lemma_edit_facts(chars, edits, index - 1);
        }
        is_char_boundary_start_end_of_seq(source);
        lemma_valid_between(chars, from, source.len() as int);
        assert(edits.skip(index).len() == 0);
    } else {
        lemma_compose_valid(chars, edits, index + 1);
        lemma_edit_facts(chars, edits, index);
        let edit = edits[index];
        let start = edit.spec_range().spec_start() as int;
        let end = edit.spec_range().spec_end() as int;
        assert(edits.skip(index)[0] == edit);
        assert(edits.skip(index).drop_first() =~= edits.skip(index + 1));
        lemma_valid_between(chars, from, start);
        encode_utf8_valid_utf8(edit.spec_inserted());
        valid_utf8_concat(source.subrange(from, start), utf8_bytes(edit.spec_inserted()));
        valid_utf8_concat(
            source.subrange(from, start) + utf8_bytes(edit.spec_inserted()),
            compose(source, edits.skip(index + 1), end),
        );
    }
}

/// Undoing the edits from `index` on gives back the source from that edit's
/// cursor.
proof fn lemma_inverse_composes(
    chars: Seq<char>,
    edits: Seq<TextEdit>,
    reversed: Seq<TextEdit>,
    index: int,
)
    requires
        edits_apply(utf8_bytes(chars), edits),
        inverse_edits_of(edits, reversed),
        0 <= index <= edits.len(),
    ensures
        ({
            let source = utf8_bytes(chars);
            let produced = compose(source, edits, 0);
            compose(
                produced,
                reversed.skip(index),
                source_cursor(edits, index) + length_delta(edits, index),
            ) == source.subrange(source_cursor(edits, index), source.len() as int)
        }),
    decreases edits.len() - index,
{
    let source = utf8_bytes(chars);
    let produced = compose(source, edits, 0);
    let from = source_cursor(edits, index);
    let cursor = from + length_delta(edits, index);
    lemma_produced_prefix(chars, edits, index);
    if index == edits.len() {
        assert(reversed.skip(index).len() == 0);
        assert(edits.skip(index).len() == 0);
        assert(produced.subrange(cursor, produced.len() as int) =~= produced.skip(cursor));
    } else {
        lemma_inverse_composes(chars, edits, reversed, index + 1);
        lemma_edit_facts(chars, edits, index);
        let edit = edits[index];
        let start = edit.spec_range().spec_start() as int;
        let end = edit.spec_range().spec_end() as int;
        let inverse = reversed[index];
        assert(reversed.skip(index)[0] == inverse);
        assert(reversed.skip(index).drop_first() =~= reversed.skip(index + 1));
        assert(edits.skip(index)[0] == edit);
        assert(edits.skip(index).drop_first() =~= edits.skip(index + 1));
        let unchanged = source.subrange(from, start);
        let inserted = utf8_bytes(edit.spec_inserted());
        assert(produced.skip(cursor) == unchanged + inserted + compose(
            source,
            edits.skip(index + 1),
            end,
        ));
        assert(produced.subrange(cursor, cursor + unchanged.len()) =~= unchanged);
        assert(source.subrange(from, source.len() as int) =~= unchanged + source.subrange(
            start,
            end,
        ) + source.subrange(end, source.len() as int));
    }
}

/// The net length change of the inverse edits is the opposite of the edits'.
proof fn lemma_inverse_delta(
    chars: Seq<char>,
    edits: Seq<TextEdit>,
    reversed: Seq<TextEdit>,
    count: int,
)
    requires
        edits_apply(utf8_bytes(chars), edits),
        inverse_edits_of(edits, reversed),
        0 <= count <= edits.len(),
    ensures
        length_delta(reversed, count) == -length_delta(edits, count),
    decreases count,
{
    if count > 0 {
        lemma_inverse_delta(chars, edits, reversed, count - 1);
        lemma_edit_facts(chars, edits, count - 1);
        assert(reversed[count - 1] == reversed[count - 1]);
    }
}

/// Each inverse edit passes validation against the produced source.
#[verifier::spinoff_prover]
#[verifier::rlimit(40)]
proof fn lemma_inverse_edit_passes(
    chars: Seq<char>,
    edits: Seq<TextEdit>,
    reversed: Seq<TextEdit>,
    index: int,
)
    requires
        edits_apply(utf8_bytes(chars), edits),
        inverse_edits_of(edits, reversed),
        0 <= index < edits.len(),
    ensures
        edit_passes(compose(utf8_bytes(chars), edits, 0), reversed, index),
{
    let source = utf8_bytes(chars);
    let produced = compose(source, edits, 0);
    lemma_produced_prefix(chars, edits, index);
    lemma_produced_prefix(chars, edits, index + 1);
    lemma_compose_valid(chars, edits, index + 1);
    lemma_edit_facts(chars, edits, index);
    let edit = edits[index];
    let start = edit.spec_range().spec_start() as int;
    let end = edit.spec_range().spec_end() as int;
    let from = source_cursor(edits, index);
    let cursor = from + length_delta(edits, index);
    let inverse = reversed[index];
    let new_start = inverse.spec_range().spec_start() as int;
    let new_end = inverse.spec_range().spec_end() as int;
    let unchanged = source.subrange(from, start);
    let inserted = utf8_bytes(edit.spec_inserted());
    let rest = compose(source, edits.skip(index + 1), end);
    assert(edits.skip(index)[0] == edit);
    assert(edits.skip(index).drop_first() =~= edits.skip(index + 1));
    assert(produced.skip(cursor) == unchanged + inserted + rest);
    assert(new_end == source_cursor(edits, index + 1) + length_delta(edits, index + 1));
    if index > 0 {
        assert(reversed[index - 1] == reversed[index - 1]);
        lemma_edit_facts(chars, edits, index - 1);
    }
    // The inverse range holds exactly the inserted bytes.
    let tail = produced.skip(cursor);
    assert(unchanged.len() == start - from);
    assert(new_start == cursor + unchanged.len());
    assert(new_end == new_start + inserted.len());
    assert(tail.subrange(unchanged.len() as int, (unchanged.len() + inserted.len()) as int) =~= inserted);
    assert(produced.subrange(new_start, new_end) =~= tail.subrange(
        unchanged.len() as int,
        (unchanged.len() + inserted.len()) as int,
    ));
    assert(tail.take(unchanged.len() as int) =~= unchanged);
    assert(tail.skip(unchanged.len() as int) =~= inserted + rest);
    // Its start is a boundary: valid bytes on both sides.
    lemma_valid_between(chars, from, start);
    encode_utf8_valid_utf8(edit.spec_inserted());
    valid_utf8_concat(produced.take(cursor), unchanged);
    valid_utf8_concat(inserted, rest);
    assert(produced.take(new_start) =~= produced.take(cursor) + unchanged);
    assert(produced.skip(new_start) =~= inserted + rest);
    assert(produced =~= produced.take(new_start) + produced.skip(new_start));
    lemma_join_boundary(produced.take(new_start), produced.skip(new_start));
    // Its end is a boundary: the produced prefix and the remaining
    // composition are both valid.
    assert(produced =~= produced.take(new_end) + produced.skip(new_end));
    lemma_join_boundary(produced.take(new_end), produced.skip(new_end));
    assert(edit_failure(produced, inverse, index, previous_end(reversed, index)) is None);
}

/// A scan in which every edit passes and every running length fits finds no
/// failure.
proof fn lemma_scan_clean(source: Seq<u8>, edits: Seq<TextEdit>, maximum: usize, index: int)
    requires
        0 <= index <= edits.len(),
        forall|j: int|
            index <= j < edits.len() ==> #[trigger] edit_passes(source, edits, j) && source.len()
                + length_delta(edits, j + 1) <= usize::MAX,
    ensures
        scan_failure(source, edits, maximum, index) is None,
    decreases edits.len() - index,
{
    if index < edits.len() {
        assert(edit_passes(source, edits, index));
        lemma_scan_clean(source, edits, maximum, index + 1);
    }
}

/// Undo gives back exactly what was changed.
///
/// When a transaction applies to valid UTF-8 `chars` at `actual` and its
/// after-selection fits the produced source, its inverse, observing the
/// produced `revision`, applies to the produced source under any maximum that
/// admits the original length, and produces the original source bytes; the
/// restored selection is the transaction's before-selection. Excluded are a
/// produced revision at `u64::MAX`, which cannot advance, and a produced
/// source whose intermediate undo lengths would not fit in `usize`.
pub proof fn lemma_inverse_restores(
    transaction: EditTransaction,
    inverse: EditTransaction,
    chars: Seq<char>,
    actual: Revision,
    maximum: usize,
    revision: Revision,
    restored_maximum: usize,
)
    requires
        apply_failure(transaction, utf8_bytes(chars), actual, maximum) is None,
        result_selection_failure(transaction, utf8_bytes(chars)) is None,
        is_inverse_of(inverse, transaction, revision),
        revision.spec_value() < u64::MAX,
        utf8_bytes(chars).len() <= restored_maximum,
        undo_lengths_fit(transaction.spec_edits(), utf8_bytes(chars).len() as int),
    ensures
        apply_failure(
            inverse,
            applied_bytes(transaction, utf8_bytes(chars)),
            revision,
            restored_maximum,
        ) is None,
        result_selection_failure(inverse, applied_bytes(transaction, utf8_bytes(chars))) is None,
        applied_bytes(inverse, applied_bytes(transaction, utf8_bytes(chars))) == utf8_bytes(chars),
        inverse.spec_selection_after() == transaction.spec_selection_before(),
{
    let source = utf8_bytes(chars);
    let edits = transaction.spec_edits();
    let reversed = inverse.spec_edits();
    let produced = compose(source, edits, 0);
    let count = edits.len() as int;
    encode_utf8_valid_utf8(chars);
    lemma_scan_passes(source, edits, maximum, 0);
    assert(edits_valid(source, edits)) by {
        assert forall|j: int| 0 <= j < edits.len() implies #[trigger] edit_passes(source, edits, j) by {
            assert(edit_passes(source, edits, j));
        }
    }
    lemma_valid_edits_in_order(source, edits);
    assert(inverse_edits_of(edits, reversed));
    lemma_inverse_composes(chars, edits, reversed, 0);
    lemma_inverse_delta(chars, edits, reversed, count);
    lemma_produced_prefix(chars, edits, count);
    assert(edits.skip(count).len() == 0);
    lemma_edit_facts(chars, edits, count - 1);
    assert(compose(source, edits.skip(count), source_cursor(edits, count)) == source.subrange(
        source_cursor(edits, count),
        source.len() as int,
    ));
    assert(produced.len() == source.len() + length_delta(edits, count));
    assert forall|j: int| 0 <= j < reversed.len() implies #[trigger] edit_passes(
        produced,
        reversed,
        j,
    ) && produced.len() + length_delta(reversed, j + 1) <= usize::MAX by {
        lemma_inverse_edit_passes(chars, edits, reversed, j);
        lemma_inverse_delta(chars, edits, reversed, j + 1);
        assert(length_delta(edits, j + 1) == length_delta(edits, j + 1));
    }
    lemma_scan_clean(produced, reversed, restored_maximum, 0);
    assert(reversed.skip(0) =~= reversed);
    assert(source.subrange(0, source.len() as int) =~= source);
}

/// The produced source of an accepted transaction fits the maximum it was
/// checked against.
pub proof fn lemma_applied_length(
    transaction: EditTransaction,
    chars: Seq<char>,
    actual: Revision,
    maximum: usize,
)
    requires
        apply_failure(transaction, utf8_bytes(chars), actual, maximum) is None,
    ensures
        applied_bytes(transaction, utf8_bytes(chars)).len() <= maximum,
{
    let source = utf8_bytes(chars);
    let edits = transaction.spec_edits();
    let count = edits.len() as int;
    encode_utf8_valid_utf8(chars);
    lemma_scan_passes(source, edits, maximum, 0);
    assert(edits_valid(source, edits)) by {
        assert forall|j: int| 0 <= j < edits.len() implies #[trigger] edit_passes(source, edits, j) by {
            assert(edit_passes(source, edits, j));
        }
    }
    lemma_valid_edits_in_order(source, edits);
    lemma_produced_prefix(chars, edits, count);
    lemma_edit_facts(chars, edits, count - 1);
    assert(edits.skip(count).len() == 0);
    assert(compose(source, edits.skip(count), source_cursor(edits, count)) == source.subrange(
        source_cursor(edits, count),
        source.len() as int,
    ));
}

/// The shared prefix is shared, and no longer than either sequence.
proof fn lemma_common_prefix_shared(a: Seq<char>, b: Seq<char>)
    ensures
        common_prefix_len(a, b) <= a.len(),
        common_prefix_len(a, b) <= b.len(),
        a.take(common_prefix_len(a, b) as int) == b.take(common_prefix_len(a, b) as int),
    decreases a.len(),
{
    let p = common_prefix_len(a, b) as int;
    if p > 0 {
        lemma_common_prefix_shared(a.drop_first(), b.drop_first());
        assert(a.take(p) =~= seq![a[0]] + a.drop_first().take(p - 1));
        assert(b.take(p) =~= seq![b[0]] + b.drop_first().take(p - 1));
    } else {
        assert(a.take(0) =~= b.take(0));
    }
}

/// The shared suffix is shared, and no longer than either sequence.
proof fn lemma_common_suffix_shared(a: Seq<char>, b: Seq<char>)
    ensures
        common_suffix_len(a, b) <= a.len(),
        common_suffix_len(a, b) <= b.len(),
        a.skip(a.len() - common_suffix_len(a, b)) == b.skip(b.len() - common_suffix_len(a, b)),
    decreases a.len(),
{
    let q = common_suffix_len(a, b) as int;
    if q > 0 {
        lemma_common_suffix_shared(a.drop_last(), b.drop_last());
        assert(a.skip(a.len() - q) =~= a.drop_last().skip(a.len() - q) + seq![a.last()]);
        assert(b.skip(b.len() - q) =~= b.drop_last().skip(b.len() - q) + seq![b.last()]);
    } else {
        assert(a.skip(a.len() as int) =~= b.skip(b.len() as int));
    }
}

/// Applying the minimal replacement from `before` to `after` to `before`
/// produces exactly `after`.
pub proof fn lemma_between_applies(transaction: EditTransaction, before: Seq<char>, after: Seq<char>)
    requires
        is_minimal_replacement(transaction.spec_edits(), before, after),
    ensures
        applied_bytes(transaction, utf8_bytes(before)) == utf8_bytes(after),
{
    let a = before;
    let b = after;
    let (prefix, suffix) = minimal_frame(a, b);
    let p = prefix as int;
    let q = suffix as int;
    lemma_common_prefix_shared(a, b);
    lemma_common_suffix_shared(a.skip(p), b.skip(p));
    assert(a.skip(p).skip(a.skip(p).len() - q) =~= a.skip(a.len() - q));
    assert(b.skip(p).skip(b.skip(p).len() - q) =~= b.skip(b.len() - q));
    let edits = transaction.spec_edits();
    let edit = edits[0];
    let source = utf8_bytes(a);
    let start = prefix_bytes(a, p) as int;
    let end = prefix_bytes(a, a.len() - q) as int;
    lemma_encode_split(a, p);
    lemma_encode_split(a, a.len() - q);
    lemma_prefix_bytes_full(a);
    assert(edits.drop_first().len() == 0);
    assert(compose(source, edits.drop_first(), end) == source.subrange(end, source.len() as int));
    assert(source.subrange(0, start) =~= source.take(start));
    assert(source.subrange(end, source.len() as int) =~= source.skip(end));
    let middle = b.subrange(p, b.len() - q);
    assert(b =~= b.take(p) + middle + b.skip(b.len() - q));
    lemma_encode_concat(b.take(p) + middle, b.skip(b.len() - q));
    lemma_encode_concat(b.take(p), middle);
}

/// The minimal replacement from `before` to `after` passes every edit check
/// against the bytes of `before`, and changes their length to that of
/// `after`.
pub proof fn lemma_minimal_replacement_passes(
    edits: Seq<TextEdit>,
    before: Seq<char>,
    after: Seq<char>,
    maximum: usize,
)
    requires
        is_minimal_replacement(edits, before, after),
        before != after,
        utf8_bytes(after).len() <= usize::MAX,
    ensures
        scan_failure(utf8_bytes(before), edits, maximum, 0) is None,
        utf8_bytes(before).len() + length_delta(edits, 1) == utf8_bytes(after).len(),
{
    let a = before;
    let b = after;
    let (prefix, suffix) = minimal_frame(a, b);
    let p = prefix as int;
    let q = suffix as int;
    lemma_common_prefix_shared(a, b);
    lemma_common_suffix_shared(a.skip(p), b.skip(p));
    assert(a.skip(p).skip(a.skip(p).len() - q) =~= a.skip(a.len() - q));
    assert(b.skip(p).skip(b.skip(p).len() - q) =~= b.skip(b.len() - q));
    let source = utf8_bytes(a);
    let edit = edits[0];
    let start = prefix_bytes(a, p) as int;
    let end = prefix_bytes(a, a.len() - q) as int;
    lemma_prefix_bytes_full(a);
    crate::utf8_text::lemma_prefix_bytes_monotone(a, p, a.len() - q);
    crate::utf8_text::lemma_prefix_bytes_monotone(a, a.len() - q, a.len() as int);
    crate::utf8_text::lemma_prefix_is_boundary(a, p);
    crate::utf8_text::lemma_prefix_is_boundary(a, a.len() - q);
    crate::utf8_text::lemma_encode_subrange(a, p, a.len() - q);
    // The texts differ, or the shared prefix and suffix would make `a == b`.
    let middle_a = a.subrange(p, a.len() - q);
    let middle_b = b.subrange(p, b.len() - q);
    assert(a =~= a.take(p) + middle_a + a.skip(a.len() - q));
    assert(b =~= b.take(p) + middle_b + b.skip(b.len() - q));
    assert(edit.spec_inserted() != edit.spec_removed());
    assert(source.subrange(start, end) == utf8_bytes(edit.spec_removed()));
    // Lengths: shared prefix and suffix bytes, and the two middles.
    lemma_encode_concat(a.take(p) + middle_a, a.skip(a.len() - q));
    lemma_encode_concat(a.take(p), middle_a);
    lemma_encode_concat(b.take(p) + middle_b, b.skip(b.len() - q));
    lemma_encode_concat(b.take(p), middle_b);
    assert(length_delta(edits, 0) == 0);
    assert(edit.spec_range().spec_end() - edit.spec_range().spec_start() == end - start);
    assert(length_delta(edits, 1) == utf8_bytes(middle_b).len() - (end - start));
    assert(edit_failure(source, edit, 0, previous_end(edits, 0)) is None);
    assert(scan_failure(source, edits, maximum, 1) is None);
}

/// One edit of the inverse of an inverse: the same range and texts as the
/// edit it came from.
proof fn lemma_redo_edit(
    chars: Seq<char>,
    edits: Seq<TextEdit>,
    reversed: Seq<TextEdit>,
    again: Seq<TextEdit>,
    index: int,
)
    requires
        edits_apply(utf8_bytes(chars), edits),
        inverse_edits_of(edits, reversed),
        inverse_edits_of(reversed, again),
        0 <= index < edits.len(),
    ensures
        again[index].spec_range() == edits[index].spec_range(),
        again[index].spec_inserted() == edits[index].spec_inserted(),
        again[index].spec_removed() == edits[index].spec_removed(),
{
    lemma_inverse_delta(chars, edits, reversed, index);
    lemma_edit_facts(chars, edits, index);
    assert(reversed[index] == reversed[index]);
    assert(again[index] == again[index]);
    edits[index].spec_range().lemma_offsets();
    again[index].spec_range().lemma_offsets();
}

/// Redo gives back exactly what was undone.
///
/// The inverse of a transaction's inverse replaces the same ranges with the
/// same texts as the transaction itself, and restores its selections, when
/// the transaction applied to valid UTF-8 `chars`.
pub proof fn lemma_redo_matches_transaction(
    transaction: EditTransaction,
    inverse: EditTransaction,
    redo: EditTransaction,
    chars: Seq<char>,
    actual: Revision,
    maximum: usize,
    revision: Revision,
    redo_revision: Revision,
)
    requires
        apply_failure(transaction, utf8_bytes(chars), actual, maximum) is None,
        is_inverse_of(inverse, transaction, revision),
        is_inverse_of(redo, inverse, redo_revision),
    ensures
        redo.spec_edits().len() == transaction.spec_edits().len(),
        forall|index: int|
            0 <= index < transaction.spec_edits().len() ==> {
                &&& #[trigger] redo.spec_edits()[index].spec_range()
                    == transaction.spec_edits()[index].spec_range()
                &&& redo.spec_edits()[index].spec_inserted()
                    == transaction.spec_edits()[index].spec_inserted()
                &&& redo.spec_edits()[index].spec_removed()
                    == transaction.spec_edits()[index].spec_removed()
            },
        redo.spec_selection_before() == transaction.spec_selection_before(),
        redo.spec_selection_after() == transaction.spec_selection_after(),
{
    let source = utf8_bytes(chars);
    let edits = transaction.spec_edits();
    let reversed = inverse.spec_edits();
    let again = redo.spec_edits();
    encode_utf8_valid_utf8(chars);
    lemma_scan_passes(source, edits, maximum, 0);
    assert(edits_valid(source, edits)) by {
        assert forall|j: int| 0 <= j < edits.len() implies #[trigger] edit_passes(source, edits, j) by {
            assert(edit_passes(source, edits, j));
        }
    }
    lemma_valid_edits_in_order(source, edits);
    assert(inverse_edits_of(edits, reversed));
    assert(inverse_edits_of(reversed, again));
    assert forall|index: int| 0 <= index < edits.len() implies {
        &&& #[trigger] again[index].spec_range() == edits[index].spec_range()
        &&& again[index].spec_inserted() == edits[index].spec_inserted()
        &&& again[index].spec_removed() == edits[index].spec_removed()
    } by {
        lemma_redo_edit(chars, edits, reversed, again, index);
    }
}

/// An inverse retains exactly the bytes its transaction retains: each of
/// its edits holds the same two texts, swapped.
pub proof fn lemma_inverse_retains_same_bytes(
    transaction: EditTransaction,
    inverse: EditTransaction,
    revision: Revision,
)
    requires
        is_inverse_of(inverse, transaction, revision),
    ensures
        retained_sum(inverse.spec_edits(), inverse.spec_edits().len() as int) == retained_sum(
            transaction.spec_edits(),
            transaction.spec_edits().len() as int,
        ),
{
    lemma_retained_prefix(transaction, inverse, revision, transaction.spec_edits().len() as int);
}

/// The retained sums of the first `count` edits agree.
proof fn lemma_retained_prefix(
    transaction: EditTransaction,
    inverse: EditTransaction,
    revision: Revision,
    count: int,
)
    requires
        is_inverse_of(inverse, transaction, revision),
        0 <= count <= transaction.spec_edits().len(),
    ensures
        retained_sum(inverse.spec_edits(), count) == retained_sum(transaction.spec_edits(), count),
    decreases count,
{
    if count > 0 {
        lemma_retained_prefix(transaction, inverse, revision, count - 1);
        let reversed = inverse.spec_edits();
        assert(reversed[count - 1].spec_inserted() == transaction.spec_edits()[count
            - 1].spec_removed());
    }
}

/// The length change of the first `count` inverse edits undoes that of the
/// first `count` forward edits.
proof fn lemma_inverse_delta_negates(
    transaction: EditTransaction,
    inverse: EditTransaction,
    revision: Revision,
    count: int,
)
    requires
        is_inverse_of(inverse, transaction, revision),
        0 <= count <= transaction.spec_edits().len(),
        forall|index: int|
            0 <= index < transaction.spec_edits().len() ==> #[trigger] transaction.spec_edits()[index].spec_range().spec_end()
                - transaction.spec_edits()[index].spec_range().spec_start() == utf8_bytes(
                transaction.spec_edits()[index].spec_removed(),
            ).len(),
    ensures
        length_delta(inverse.spec_edits(), count) == -length_delta(transaction.spec_edits(), count),
    decreases count,
{
    if count > 0 {
        lemma_inverse_delta_negates(transaction, inverse, revision, count - 1);
        let reversed = inverse.spec_edits();
        let edits = transaction.spec_edits();
        assert(reversed[count - 1].spec_inserted() == edits[count - 1].spec_removed());
        assert(edits[count - 1].spec_range().spec_end() - edits[count - 1].spec_range().spec_start()
            == utf8_bytes(edits[count - 1].spec_removed()).len());
    }
}

/// Inverting an applied transaction's inverse gives back the transaction's
/// edits, range for range and text for text, and its two selections.
pub proof fn lemma_double_inverse(
    transaction: EditTransaction,
    inverse: EditTransaction,
    twice: EditTransaction,
    source: Seq<u8>,
    actual: Revision,
    maximum: usize,
    revision: Revision,
    later: Revision,
)
    requires
        apply_failure(transaction, source, actual, maximum) is None,
        is_inverse_of(inverse, transaction, revision),
        is_inverse_of(twice, inverse, later),
    ensures
        twice.spec_edits().len() == transaction.spec_edits().len(),
        forall|index: int|
            0 <= index < transaction.spec_edits().len() ==> {
                &&& #[trigger] twice.spec_edits()[index].spec_range() == transaction.spec_edits()[index].spec_range()
                &&& twice.spec_edits()[index].spec_inserted() == transaction.spec_edits()[index].spec_inserted()
                &&& twice.spec_edits()[index].spec_removed() == transaction.spec_edits()[index].spec_removed()
            },
        twice.spec_selection_before() == transaction.spec_selection_before(),
        twice.spec_selection_after() == transaction.spec_selection_after(),
{
    let edits = transaction.spec_edits();
    let reversed = inverse.spec_edits();
    let again = twice.spec_edits();
    lemma_scan_passes(source, edits, maximum, 0);
    assert forall|index: int| 0 <= index < edits.len() implies #[trigger] edits[index].spec_range().spec_end()
        - edits[index].spec_range().spec_start() == utf8_bytes(edits[index].spec_removed()).len() by {
        assert(edit_passes(source, edits, index));
    }
    assert forall|index: int| 0 <= index < edits.len() implies {
        &&& #[trigger] again[index].spec_range() == edits[index].spec_range()
        &&& again[index].spec_inserted() == edits[index].spec_inserted()
        &&& again[index].spec_removed() == edits[index].spec_removed()
    } by {
        lemma_inverse_delta_negates(transaction, inverse, revision, index);
        assert(reversed[index].spec_inserted() == edits[index].spec_removed());
        assert(again[index].spec_inserted() == reversed[index].spec_removed());
        assert(edits[index].spec_range().spec_end() - edits[index].spec_range().spec_start()
            == utf8_bytes(edits[index].spec_removed()).len());
        again[index].spec_range().lemma_offsets();
        edits[index].spec_range().lemma_offsets();
    }
}

} // verus!
