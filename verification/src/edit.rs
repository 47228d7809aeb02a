//! Revision-checked, reversible text transactions.

use ropey::Rope;
use std::time::Duration;
use vstd::prelude::*;
use vstd::string::StringSliceAdditionalSpecFns;
use vstd::utf8::*;

use crate::revision::Revision;
use crate::rope_text::{
    rope_char_to_byte, rope_chars, rope_clone, rope_insert, rope_len_bytes, rope_remove,
    rope_slice_equals, rope_try_byte_to_char,
};
use crate::utf8_text::{
    char_count_at, chars_of, is_boundary, lemma_boundary_in_shared_prefix, lemma_char_count_at,
    lemma_encode_concat,
    lemma_encode_injective, lemma_encode_split, lemma_encode_subrange, lemma_prefix_bytes_full,
    lemma_prefix_bytes_monotone, lemma_prefix_bytes_step, lemma_prefix_is_boundary, prefix_bytes,
    str_len, str_slice, utf8_bytes, utf8_width,
};

verus! {

/// A half-open UTF-8 byte range in document source.
#[derive(Clone, Copy, Default, PartialEq, Eq, Structural, Hash, Debug)]
pub struct TextRange {
    start: usize,
    end: usize,
}

impl TextRange {
    /// The inclusive start byte offset.
    pub closed spec fn spec_start(self) -> usize {
        self.start
    }

    /// The exclusive end byte offset.
    pub closed spec fn spec_end(self) -> usize {
        self.end
    }

    /// The range with exactly these offsets.
    pub closed spec fn spec_new(start: usize, end: usize) -> Self {
        TextRange { start, end }
    }

    /// A range is determined by its two offsets.
    pub proof fn lemma_offsets(self)
        ensures
            TextRange::spec_new(self.spec_start(), self.spec_end()) == self,
            forall|start: usize, end: usize|
                #![trigger TextRange::spec_new(start, end)]
                TextRange::spec_new(start, end).spec_start() == start && TextRange::spec_new(
                    start,
                    end,
                ).spec_end() == end,
    {
    }

    /// Creates a half-open byte range without consulting document content.
    ///
    /// Applying a transaction validates order, bounds, and UTF-8 boundaries
    /// before any content changes.
    pub fn new(start: usize, end: usize) -> (range: Self)
        ensures
            range.spec_start() == start,
            range.spec_end() == end,
            range == TextRange::spec_new(start, end),
    {
        TextRange { start, end }
    }

    /// Returns the inclusive start byte offset.
    pub fn start(self) -> (start: usize)
        ensures
            start == self.spec_start(),
    {
        self.start
    }

    /// Returns the exclusive end byte offset.
    pub fn end(self) -> (end: usize)
        ensures
            end == self.spec_end(),
    {
        self.end
    }

    /// Returns the number of source bytes covered by this range (zero when
    /// the range is reversed).
    pub fn len(self) -> (length: usize)
        ensures
            length == (if self.spec_end() >= self.spec_start() {
                self.spec_end() - self.spec_start()
            } else {
                0
            }),
    {
        self.end.saturating_sub(self.start)
    }
}

/// A directional source selection measured in UTF-8 byte offsets.
///
/// `anchor` remains fixed while `active` is the moving caret. Keeping both
/// positions preserves selection direction across undo and redo.
#[derive(Clone, Copy, Default, PartialEq, Eq, Structural, Hash, Debug)]
pub struct Selection {
    anchor: usize,
    active: usize,
}

impl Selection {
    /// The fixed endpoint.
    pub closed spec fn spec_anchor(self) -> usize {
        self.anchor
    }

    /// The moving caret.
    pub closed spec fn spec_active(self) -> usize {
        self.active
    }

    /// The selection with exactly these endpoints.
    pub closed spec fn spec_new(anchor: usize, active: usize) -> Self {
        Selection { anchor, active }
    }

    /// A selection is determined by its two endpoints.
    pub proof fn lemma_endpoints(self)
        ensures
            Selection::spec_new(self.spec_anchor(), self.spec_active()) == self,
            forall|anchor: usize, active: usize|
                #![trigger Selection::spec_new(anchor, active)]
                Selection::spec_new(anchor, active).spec_anchor() == anchor && Selection::spec_new(
                    anchor,
                    active,
                ).spec_active() == active,
    {
    }

    /// Creates a directional selection.
    pub fn new(anchor: usize, active: usize) -> (selection: Self)
        ensures
            selection.spec_anchor() == anchor,
            selection.spec_active() == active,
            selection == Selection::spec_new(anchor, active),
    {
        Selection { anchor, active }
    }

    /// Creates an empty selection at one caret position.
    pub fn caret(position: usize) -> (selection: Self)
        ensures
            selection.spec_anchor() == position,
            selection.spec_active() == position,
            selection == Selection::spec_new(position, position),
    {
        Selection { anchor: position, active: position }
    }

    /// Returns the fixed selection endpoint.
    pub fn anchor(self) -> (anchor: usize)
        ensures
            anchor == self.spec_anchor(),
    {
        self.anchor
    }

    /// Returns the active caret endpoint.
    pub fn active(self) -> (active: usize)
        ensures
            active == self.spec_active(),
    {
        self.active
    }

    /// Returns the ordered source range covered by the selection.
    pub fn ordered_range(self) -> (range: TextRange)
        ensures
            range.spec_start() == (if self.spec_anchor() <= self.spec_active() {
                self.spec_anchor()
            } else {
                self.spec_active()
            }),
            range.spec_end() == (if self.spec_anchor() <= self.spec_active() {
                self.spec_active()
            } else {
                self.spec_anchor()
            }),
    {
        if self.anchor <= self.active {
            TextRange::new(self.anchor, self.active)
        } else {
            TextRange::new(self.active, self.anchor)
        }
    }
}

/// Monotonic observation time supplied by the editor adapter.
///
/// The transaction layer stores but does not read a system clock. This keeps
/// future coalescing policy deterministic and straightforward to test.
#[derive(Clone, Copy, Default, PartialEq, Eq, PartialOrd, Ord, Hash, Debug)]
pub struct EditTimestamp(Duration);

impl EditTimestamp {
    /// The stored elapsed duration.
    pub closed spec fn spec_elapsed(self) -> Duration {
        self.0
    }

    /// Creates a timestamp from an elapsed monotonic duration.
    pub fn new(elapsed: Duration) -> (timestamp: Self)
        ensures
            timestamp.spec_elapsed() == elapsed,
    {
        EditTimestamp(elapsed)
    }

    /// Returns the stored elapsed duration.
    pub fn elapsed(self) -> (elapsed: Duration)
        ensures
            elapsed == self.spec_elapsed(),
    {
        self.0
    }
}

/// The user-visible operation family that produced an edit.
#[derive(Clone, Copy, PartialEq, Eq, Structural, Hash, Debug)]
pub enum EditOrigin {
    /// Direct input through the plain-text editor adapter.
    TextInput,
    /// Direct input through the formatted Markdown editor adapter.
    MarkdownInput,
    /// An explicit Markdown formatting command.
    MarkdownFormatting,
    /// An explicit paste command.
    Paste,
    /// An explicit replacement command.
    Replace,
    /// An explicit line-ending conversion command.
    LineEndingConversion,
    /// A trusted internal content replacement outside an interactive editor.
    Programmatic,
}

/// The deterministic user intent represented by an edit transaction.
#[derive(Clone, Copy, PartialEq, Eq, Structural, Hash, Debug)]
pub enum EditIntent {
    /// Insert source at a collapsed caret.
    Insert,
    /// Delete source immediately before a collapsed caret.
    Backspace,
    /// Delete source immediately after a collapsed caret.
    Delete,
    /// Replace or delete an explicit source selection.
    ReplaceSelection,
    /// Paste clipboard content.
    Paste,
    /// Apply a Markdown formatting command.
    Formatting,
    /// Apply an explicit search replacement.
    Replace,
    /// Convert line endings explicitly.
    LineEndingConversion,
    /// Replace content through trusted application logic.
    Programmatic,
    /// A source delta that cannot be classified conservatively.
    Unclassified,
}

/// One source replacement within an [`EditTransaction`].
#[derive(Clone, PartialEq, Eq, Debug)]
pub struct TextEdit {
    range: TextRange,
    inserted: String,
    removed: String,
}

impl TextEdit {
    /// The replaced source range.
    pub closed spec fn spec_range(self) -> TextRange {
        self.range
    }

    /// The inserted characters.
    pub closed spec fn spec_inserted(self) -> Seq<char> {
        self.inserted@
    }

    /// The characters expected to be removed.
    pub closed spec fn spec_removed(self) -> Seq<char> {
        self.removed@
    }

    /// Describes replacing `range` with `inserted`, provided the range contains
    /// exactly `removed` when the transaction is applied.
    pub fn replace(range: TextRange, inserted: &str, removed: &str) -> (edit: Self)
        ensures
            edit.spec_range() == range,
            edit.spec_inserted() == inserted@,
            edit.spec_removed() == removed@,
    {
        TextEdit { range, inserted: inserted.to_owned(), removed: removed.to_owned() }
    }

    /// Returns the source range replaced by this edit.
    pub fn range(&self) -> (range: TextRange)
        ensures
            range == self.spec_range(),
    {
        self.range
    }

    /// Returns the inserted UTF-8 source.
    pub fn inserted(&self) -> (inserted: &str)
        ensures
            inserted@ == self.spec_inserted(),
    {
        self.inserted.as_str()
    }

    /// Returns the exact source expected to be removed.
    pub fn removed(&self) -> (removed: &str)
        ensures
            removed@ == self.spec_removed(),
    {
        self.removed.as_str()
    }

    /// Returns the bytes retained for this edit and its inverse, saturating.
    pub fn retained_bytes(&self) -> (bytes: usize)
        ensures
            bytes == retained_edit_bytes(*self),
    {
        str_len(self.inserted.as_str()).saturating_add(str_len(self.removed.as_str()))
    }

    /// An exact copy of this edit.
    pub fn duplicate(&self) -> (copy: Self)
        ensures
            copy == *self,
    {
        TextEdit { range: self.range, inserted: self.inserted.clone(), removed: self.removed.clone() }
    }
}

/// The retained bytes of one edit: inserted plus removed bytes, saturating.
pub open spec fn retained_edit_bytes(edit: TextEdit) -> int {
    let total = utf8_bytes(edit.spec_inserted()).len() + utf8_bytes(edit.spec_removed()).len();
    if total > usize::MAX {
        usize::MAX as int
    } else {
        total as int
    }
}

/// The sum of the first `count` edits' retained bytes.
pub open spec fn retained_sum(edits: Seq<TextEdit>, count: int) -> int
    decreases count,
{
    if count <= 0 {
        0
    } else {
        retained_sum(edits, count - 1) + retained_edit_bytes(edits[count - 1])
    }
}

/// Whether a selection belongs to source before or after a transaction.
#[derive(Clone, Copy, PartialEq, Eq, Structural, Debug)]
pub enum SelectionState {
    /// Selection in the transaction's base source.
    Before,
    /// Selection in the transaction's resulting source.
    After,
}

/// Reasons a proposed edit transaction can be rejected without mutation.
#[derive(Clone, PartialEq, Eq, Structural, Debug)]
pub enum EditError {
    /// The document advanced after the transaction was created.
    StaleRevision {
        /// Revision captured by the transaction.
        expected: Revision,
        /// Current authoritative document revision.
        actual: Revision,
    },
    /// The monotonic revision counter cannot advance safely.
    RevisionExhausted,
    /// A content transaction contains no replacements.
    EmptyTransaction,
    /// A replacement range is reversed or outside the current source.
    InvalidRange {
        /// Proposed start byte.
        start: usize,
        /// Proposed end byte.
        end: usize,
        /// Current source length in bytes.
        source_len: usize,
    },
    /// A byte offset splits a UTF-8 scalar value.
    InvalidBoundary {
        /// Invalid byte offset.
        offset: usize,
    },
    /// Replacements are not ordered and disjoint in base-source coordinates.
    EditsOverlapOrOutOfOrder {
        /// Zero-based edit position.
        index: usize,
        /// Proposed start byte.
        start: usize,
        /// Previous exclusive end byte.
        previous_end: usize,
    },
    /// A replacement would not change the matched source.
    NoOpEdit {
        /// Zero-based edit position.
        index: usize,
    },
    /// The exact expected removed source no longer matches.
    RemovedTextMismatch {
        /// Zero-based edit position.
        index: usize,
    },
    /// A selection endpoint is outside its corresponding source.
    InvalidSelection {
        /// Whether this is the before or after selection.
        state: SelectionState,
        /// Invalid byte offset.
        position: usize,
        /// Corresponding source length in bytes.
        source_len: usize,
    },
    /// The resulting source exceeds the caller's authoritative byte ceiling.
    ResultTooLarge {
        /// Projected result length, or `usize::MAX` after arithmetic overflow.
        projected: usize,
        /// Maximum accepted source length.
        maximum: usize,
    },
    /// The inverse-edit index could not reserve its bounded allocation.
    AllocationUnavailable {
        /// Exact number of inverse edits requested.
        requested_edits: usize,
    },
}

/// The first endpoint of `selection` that is outside `source` or splits a
/// scalar, checked anchor first.
pub open spec fn selection_failure(
    selection: Selection,
    source: Seq<u8>,
    state: SelectionState,
) -> Option<EditError> {
    let anchor = selection.spec_anchor();
    let active = selection.spec_active();
    if anchor > source.len() {
        Some(EditError::InvalidSelection { state, position: anchor, source_len: source.len() as usize })
    } else if !is_char_boundary(source, anchor as int) {
        Some(EditError::InvalidBoundary { offset: anchor })
    } else if active > source.len() {
        Some(EditError::InvalidSelection { state, position: active, source_len: source.len() as usize })
    } else if !is_char_boundary(source, active as int) {
        Some(EditError::InvalidBoundary { offset: active })
    } else {
        None
    }
}

/// The intent of a direct edit, classified conservatively from its exact
/// shape, or the intent that an explicit operation family defines.
pub open spec fn classify_intent(
    edits: Seq<TextEdit>,
    before: Selection,
    after: Selection,
    origin: EditOrigin,
) -> EditIntent {
    match origin {
        EditOrigin::Paste => EditIntent::Paste,
        EditOrigin::MarkdownFormatting => EditIntent::Formatting,
        EditOrigin::Replace => EditIntent::Replace,
        EditOrigin::LineEndingConversion => EditIntent::LineEndingConversion,
        EditOrigin::Programmatic => EditIntent::Programmatic,
        EditOrigin::TextInput | EditOrigin::MarkdownInput => {
            if edits.len() != 1 {
                EditIntent::Unclassified
            } else if before.spec_anchor() != before.spec_active() {
                EditIntent::ReplaceSelection
            } else if after.spec_anchor() != after.spec_active() {
                EditIntent::Unclassified
            } else {
                let edit = edits[0];
                let start = edit.spec_range().spec_start();
                let end = edit.spec_range().spec_end();
                let inserted = utf8_bytes(edit.spec_inserted()).len();
                let removed = edit.spec_removed();
                let caret_before = before.spec_active();
                let caret_after = after.spec_active();
                if start == end && removed.len() == 0 && inserted > 0 && caret_before == start
                    && caret_after == (if start + inserted > usize::MAX {
                    usize::MAX as int
                } else {
                    start + inserted
                }) {
                    EditIntent::Insert
                } else if edit.spec_inserted().len() == 0 && removed.len() != 0 && caret_before
                    == end && caret_after == start {
                    EditIntent::Backspace
                } else if edit.spec_inserted().len() == 0 && removed.len() != 0 && caret_before
                    == start && caret_after == start {
                    EditIntent::Delete
                } else {
                    EditIntent::Unclassified
                }
            }
        },
    }
}

/// Classifies the user intent of a proposed transaction.
pub fn classify_edit_intent(
    edits: &[TextEdit],
    selection_before: Selection,
    selection_after: Selection,
    origin: EditOrigin,
) -> (intent: EditIntent)
    ensures
        intent == classify_intent(edits@, selection_before, selection_after, origin),
{
    match origin {
        EditOrigin::Paste => return EditIntent::Paste,
        EditOrigin::MarkdownFormatting => return EditIntent::Formatting,
        EditOrigin::Replace => return EditIntent::Replace,
        EditOrigin::LineEndingConversion => return EditIntent::LineEndingConversion,
        EditOrigin::Programmatic => return EditIntent::Programmatic,
        EditOrigin::TextInput | EditOrigin::MarkdownInput => {},
    }
    if edits.len() != 1 {
        return EditIntent::Unclassified;
    }
    let edit = &edits[0];
    if selection_before.anchor != selection_before.active {
        return EditIntent::ReplaceSelection;
    }
    if selection_after.anchor != selection_after.active {
        return EditIntent::Unclassified;
    }
    let before = selection_before.active;
    let after = selection_after.active;
    let range = edit.range();
    let inserted_len = str_len(edit.inserted.as_str());
    let inserted_empty = edit.inserted.as_str().is_empty();
    let removed_empty = edit.removed.as_str().is_empty();
    if range.start == range.end && removed_empty && !inserted_empty && before == range.start
        && after == range.start.saturating_add(inserted_len) {
        return EditIntent::Insert;
    }
    if inserted_empty && !removed_empty {
        if before == range.end && after == range.start {
            return EditIntent::Backspace;
        }
        if before == range.start && after == range.start {
            return EditIntent::Delete;
        }
    }
    EditIntent::Unclassified
}

/// A complete, revision-tagged user edit with before and after selections.
#[derive(Clone, PartialEq, Eq, Debug)]
pub struct EditTransaction {
    base_revision: Revision,
    edits: Vec<TextEdit>,
    selection_before: Selection,
    selection_after: Selection,
    origin: EditOrigin,
    intent: EditIntent,
    observed_at: EditTimestamp,
}

impl EditTransaction {
    /// The revision the transaction must observe.
    pub closed spec fn spec_base_revision(&self) -> Revision {
        self.base_revision
    }

    /// The ordered replacements in base-source coordinates.
    pub closed spec fn spec_edits(&self) -> Seq<TextEdit> {
        self.edits@
    }

    /// The directional selection before applying.
    pub closed spec fn spec_selection_before(&self) -> Selection {
        self.selection_before
    }

    /// The directional selection after applying.
    pub closed spec fn spec_selection_after(&self) -> Selection {
        self.selection_after
    }

    /// The operation family.
    pub closed spec fn spec_origin(&self) -> EditOrigin {
        self.origin
    }

    /// The recorded intent.
    pub closed spec fn spec_intent(&self) -> EditIntent {
        self.intent
    }

    /// The observation time.
    pub closed spec fn spec_observed_at(&self) -> EditTimestamp {
        self.observed_at
    }

    /// Creates a proposed transaction whose intent is classified from its
    /// origin and exact shape.
    ///
    /// Content-dependent validation intentionally happens atomically at apply
    /// time so a stale or malformed proposal cannot partially mutate a document.
    pub fn new(
        base_revision: Revision,
        edits: Vec<TextEdit>,
        selection_before: Selection,
        selection_after: Selection,
        origin: EditOrigin,
        observed_at: EditTimestamp,
    ) -> (transaction: Self)
        ensures
            transaction.spec_base_revision() == base_revision,
            transaction.spec_edits() == edits@,
            transaction.spec_selection_before() == selection_before,
            transaction.spec_selection_after() == selection_after,
            transaction.spec_origin() == origin,
            transaction.spec_intent() == classify_intent(
                edits@,
                selection_before,
                selection_after,
                origin,
            ),
            transaction.spec_observed_at() == observed_at,
    {
        let intent = classify_edit_intent(
            edits.as_slice(),
            selection_before,
            selection_after,
            origin,
        );
        Self::new_with_intent(
            base_revision,
            edits,
            selection_before,
            selection_after,
            origin,
            intent,
            observed_at,
        )
    }

    /// Creates a transaction with an explicit intent.
    pub fn new_with_intent(
        base_revision: Revision,
        edits: Vec<TextEdit>,
        selection_before: Selection,
        selection_after: Selection,
        origin: EditOrigin,
        intent: EditIntent,
        observed_at: EditTimestamp,
    ) -> (transaction: Self)
        ensures
            transaction.spec_base_revision() == base_revision,
            transaction.spec_edits() == edits@,
            transaction.spec_selection_before() == selection_before,
            transaction.spec_selection_after() == selection_after,
            transaction.spec_origin() == origin,
            transaction.spec_intent() == intent,
            transaction.spec_observed_at() == observed_at,
    {
        EditTransaction {
            base_revision,
            edits,
            selection_before,
            selection_after,
            origin,
            intent,
            observed_at,
        }
    }

    /// Returns the revision this transaction must observe before applying.
    pub fn base_revision(&self) -> (revision: Revision)
        ensures
            revision == self.spec_base_revision(),
    {
        self.base_revision
    }

    /// Returns the directional selection before applying.
    pub fn selection_before(&self) -> (selection: Selection)
        ensures
            selection == self.spec_selection_before(),
    {
        self.selection_before
    }

    /// Returns the directional selection after applying.
    pub fn selection_after(&self) -> (selection: Selection)
        ensures
            selection == self.spec_selection_after(),
    {
        self.selection_after
    }

    /// Returns the operation family that produced this transaction.
    pub fn origin(&self) -> (origin: EditOrigin)
        ensures
            origin == self.spec_origin(),
    {
        self.origin
    }

    /// Returns the deterministic user intent represented by this transaction.
    pub fn intent(&self) -> (intent: EditIntent)
        ensures
            intent == self.spec_intent(),
    {
        self.intent
    }

    /// Returns the ordered source replacements in base-source coordinates.
    pub fn edits(&self) -> (edits: &[TextEdit])
        ensures
            edits@ == self.spec_edits(),
    {
        self.edits.as_slice()
    }

    /// Returns when the editor adapter observed this transaction.
    pub fn observed_at(&self) -> (observed_at: EditTimestamp)
        ensures
            observed_at == self.spec_observed_at(),
    {
        self.observed_at
    }

    /// Returns the source bytes retained for exact forward and inverse edits,
    /// saturating at `usize::MAX`.
    pub fn retained_bytes(&self) -> (bytes: usize)
        ensures
            bytes == (if retained_sum(self.spec_edits(), self.spec_edits().len() as int)
                > usize::MAX {
                usize::MAX as int
            } else {
                retained_sum(self.spec_edits(), self.spec_edits().len() as int)
            }),
    {
        let mut total: usize = 0;
        let mut index: usize = 0;
        while index < self.edits.len()
            invariant
                index <= self.edits@.len(),
                total == (if retained_sum(self.edits@, index as int) > usize::MAX {
                    usize::MAX as int
                } else {
                    retained_sum(self.edits@, index as int)
                }),
            decreases self.edits@.len() - index,
        {
            proof {
                lemma_retained_sum_nonnegative(self.edits@, index as int);
            }
            total = total.saturating_add(self.edits[index].retained_bytes());
            index = index + 1;
        }
        total
    }

    /// An exact copy of this transaction observing a different base revision.
    pub fn rebased(&self, base_revision: Revision) -> (rebased: Self)
        ensures
            rebased.spec_base_revision() == base_revision,
            rebased.spec_edits() == self.spec_edits(),
            rebased.spec_selection_before() == self.spec_selection_before(),
            rebased.spec_selection_after() == self.spec_selection_after(),
            rebased.spec_origin() == self.spec_origin(),
            rebased.spec_intent() == self.spec_intent(),
            rebased.spec_observed_at() == self.spec_observed_at(),
    {
        let mut edits: Vec<TextEdit> = Vec::new();
        let mut index: usize = 0;
        while index < self.edits.len()
            invariant
                index <= self.edits@.len(),
                edits@ == self.edits@.take(index as int),
            decreases self.edits@.len() - index,
        {
            edits.push(self.edits[index].duplicate());
            index = index + 1;
        }
        EditTransaction {
            base_revision,
            edits,
            selection_before: self.selection_before,
            selection_after: self.selection_after,
            origin: self.origin,
            intent: self.intent,
            observed_at: self.observed_at,
        }
    }
}

/// Retained sums never decrease and stay nonnegative.
proof fn lemma_retained_sum_nonnegative(edits: Seq<TextEdit>, count: int)
    ensures
        retained_sum(edits, count) >= 0,
    decreases count,
{
    if count > 0 {
        lemma_retained_sum_nonnegative(edits, count - 1);
    }
}

} // verus!

verus! {

/// The number of leading characters that `a` and `b` share.
pub open spec fn common_prefix_len(a: Seq<char>, b: Seq<char>) -> nat
    decreases a.len(),
{
    if a.len() == 0 || b.len() == 0 || a[0] != b[0] {
        0
    } else {
        1 + common_prefix_len(a.drop_first(), b.drop_first())
    }
}

/// The number of trailing characters that `a` and `b` share.
pub open spec fn common_suffix_len(a: Seq<char>, b: Seq<char>) -> nat
    decreases a.len(),
{
    if a.len() == 0 || b.len() == 0 || a.last() != b.last() {
        0
    } else {
        1 + common_suffix_len(a.drop_last(), b.drop_last())
    }
}

/// The shared character prefix length, and the shared suffix length of what
/// follows it, that frame the single minimal replacement from `a` to `b`.
pub open spec fn minimal_frame(a: Seq<char>, b: Seq<char>) -> (nat, nat) {
    let prefix = common_prefix_len(a, b);
    (prefix, common_suffix_len(a.skip(prefix as int), b.skip(prefix as int)))
}

/// `edits` is the single minimal replacement from `a` to `b`: it replaces the
/// characters between the shared prefix and the shared suffix of what
/// follows it.
pub open spec fn is_minimal_replacement(edits: Seq<TextEdit>, a: Seq<char>, b: Seq<char>) -> bool {
    let (prefix, suffix) = minimal_frame(a, b);
    &&& edits.len() == 1
    &&& edits[0].spec_range().spec_start() == prefix_bytes(a, prefix as int)
    &&& edits[0].spec_range().spec_end() == prefix_bytes(a, a.len() - suffix)
    &&& edits[0].spec_inserted() == b.subrange(prefix as int, b.len() - suffix)
    &&& edits[0].spec_removed() == a.subrange(prefix as int, a.len() - suffix)
}

/// A maximal common prefix is the common prefix length.
pub(crate) proof fn lemma_common_prefix(a: Seq<char>, b: Seq<char>, p: int)
    requires
        0 <= p <= a.len(),
        p <= b.len(),
        forall|i: int| 0 <= i < p ==> a[i] == b[i],
        p == a.len() || p == b.len() || a[p] != b[p],
    ensures
        common_prefix_len(a, b) == p,
    decreases p,
{
    if p > 0 {
        lemma_common_prefix(a.drop_first(), b.drop_first(), p - 1);
    }
}

/// The `i`-th character counted from the end.
pub open spec fn from_end(s: Seq<char>, i: int) -> char {
    s[s.len() - 1 - i]
}

/// A maximal common suffix is the common suffix length.
pub(crate) proof fn lemma_common_suffix(a: Seq<char>, b: Seq<char>, q: int)
    requires
        0 <= q <= a.len(),
        q <= b.len(),
        forall|i: int| 0 <= i < q ==> #[trigger] from_end(a, i) == from_end(b, i),
        q == a.len() || q == b.len() || from_end(a, q) != from_end(b, q),
    ensures
        common_suffix_len(a, b) == q,
    decreases q,
{
    if q > 0 {
        assert(from_end(a, 0) == from_end(b, 0));
        assert forall|i: int| 0 <= i < q - 1 implies #[trigger] from_end(a.drop_last(), i)
            == from_end(b.drop_last(), i) by {
            assert(from_end(a, i + 1) == from_end(b, i + 1));
        }
        if q < a.len() && q < b.len() {
            assert(from_end(a.drop_last(), q - 1) == from_end(a, q));
            assert(from_end(b.drop_last(), q - 1) == from_end(b, q));
        }
        lemma_common_suffix(a.drop_last(), b.drop_last(), q - 1);
    }
}

/// Validates that both endpoints of `selection` are scalar boundaries of
/// `source`.
pub fn validate_selection_str(
    selection: Selection,
    source: &str,
    state: SelectionState,
) -> (result: Result<(), EditError>)
    ensures
        result == match selection_failure(selection, source.spec_bytes(), state) {
            Some(error) => Err::<(), EditError>(error),
            None => Ok(()),
        },
{
    let length = str_len(source);
    if selection.anchor > length {
        return Err(EditError::InvalidSelection { state, position: selection.anchor, source_len: length });
    }
    if !source.is_char_boundary(selection.anchor) {
        return Err(EditError::InvalidBoundary { offset: selection.anchor });
    }
    if selection.active > length {
        return Err(EditError::InvalidSelection { state, position: selection.active, source_len: length });
    }
    if !source.is_char_boundary(selection.active) {
        return Err(EditError::InvalidBoundary { offset: selection.active });
    }
    Ok(())
}

/// Sums the UTF-8 widths of `chars[from..to]`.
pub(crate) fn width_of_range(chars: &Vec<char>, from: usize, to: usize) -> (bytes: usize)
    requires
        from <= to <= chars@.len(),
        utf8_bytes(chars@).len() <= usize::MAX,
    ensures
        bytes == prefix_bytes(chars@, to as int) - prefix_bytes(chars@, from as int),
{
    let mut total: usize = 0;
    let mut index = from;
    proof {
        lemma_prefix_bytes_monotone(chars@, from as int, to as int);
        lemma_prefix_bytes_monotone(chars@, to as int, chars@.len() as int);
        lemma_prefix_bytes_full(chars@);
    }
    while index < to
        invariant
            from <= index <= to <= chars@.len(),
            prefix_bytes(chars@, to as int) <= usize::MAX,
            total == prefix_bytes(chars@, index as int) - prefix_bytes(chars@, from as int),
        decreases to - index,
    {
        proof {
            lemma_prefix_bytes_step(chars@, index as int);
            lemma_prefix_bytes_monotone(chars@, index as int + 1, to as int);
            lemma_prefix_bytes_monotone(chars@, from as int, index as int);
        }
        total = total + utf8_width(chars[index]);
        index = index + 1;
    }
    total
}

/// Offsets of the minimal replacement frame: shared prefix and suffix
/// character counts and the frame's byte offsets in both strings. Equal
/// strings have no frame.
fn minimal_frame_offsets(
    before: &str,
    after: &str,
) -> (found: Option<(usize, usize, usize, usize, usize)>)
    ensures
        before@ == after@ <==> found is None,
        found matches Some(frame) ==> {
            let a = before@;
            let b = after@;
            let (prefix, suffix) = minimal_frame(a, b);
            &&& frame.0 == prefix
            &&& frame.1 == suffix
            &&& prefix + suffix <= a.len()
            &&& prefix + suffix <= b.len()
            &&& frame.2 == prefix_bytes(a, prefix as int)
            &&& frame.3 == prefix_bytes(a, a.len() - suffix)
            &&& frame.4 == prefix_bytes(b, b.len() - suffix)
            &&& a.take(prefix as int) == b.take(prefix as int)
            &&& a.skip(a.len() - suffix) == b.skip(b.len() - suffix)
        },
{
    let _before_length = str_len(before);
    let _after_length = str_len(after);
    let a = chars_of(before);
    let b = chars_of(after);
    let ghost ga = before@;
    let ghost gb = after@;
    let shorter = if a.len() < b.len() {
        a.len()
    } else {
        b.len()
    };
    let mut prefix: usize = 0;
    while prefix < shorter && a[prefix] == b[prefix]
        invariant
            a@ == ga,
            b@ == gb,
            shorter == (if ga.len() < gb.len() {
                ga.len()
            } else {
                gb.len()
            }),
            prefix <= shorter,
            forall|i: int| 0 <= i < prefix ==> ga[i] == gb[i],
        decreases shorter - prefix,
    {
        prefix = prefix + 1;
    }
    proof {
        lemma_common_prefix(ga, gb, prefix as int);
    }
    if prefix == a.len() && prefix == b.len() {
        proof {
            assert(ga =~= gb);
        }
        return None;
    }
    let remaining_a = a.len() - prefix;
    let remaining_b = b.len() - prefix;
    let shorter_rest = if remaining_a < remaining_b {
        remaining_a
    } else {
        remaining_b
    };
    let mut suffix: usize = 0;
    while suffix < shorter_rest && a[a.len() - 1 - suffix] == b[b.len() - 1 - suffix]
        invariant
            a@ == ga,
            b@ == gb,
            prefix <= ga.len(),
            prefix <= gb.len(),
            remaining_a == ga.len() - prefix,
            remaining_b == gb.len() - prefix,
            shorter_rest == (if remaining_a < remaining_b {
                remaining_a
            } else {
                remaining_b
            }),
            suffix <= shorter_rest,
            forall|i: int| 0 <= i < suffix ==> #[trigger] from_end(ga, i) == from_end(gb, i),
        decreases shorter_rest - suffix,
    {
        proof {
            assert(from_end(ga, suffix as int) == from_end(gb, suffix as int));
        }
        suffix = suffix + 1;
    }
    proof {
        lemma_suffix_frame(ga, gb, prefix as int, suffix as int);
        assert(ga.take(prefix as int) =~= gb.take(prefix as int));
        assert(ga != gb) by {
            if ga == gb {
                lemma_common_prefix(ga, gb, ga.len() as int);
            }
        }
    }
    let prefix_bytes_a = width_of_range(&a, 0, prefix);
    let before_end = width_of_range(&a, 0, a.len() - suffix);
    let after_end = width_of_range(&b, 0, b.len() - suffix);
    proof {
        assert(prefix_bytes(ga, 0) == 0) by {
            lemma_prefix_bytes_full(ga);
        }
        assert(prefix_bytes(gb, 0) == 0) by {
            lemma_prefix_bytes_full(gb);
        }
    }
    Some((prefix, suffix, prefix_bytes_a, before_end, after_end))
}

/// A maximal shared suffix after the shared prefix is the frame's suffix.
proof fn lemma_suffix_frame(ga: Seq<char>, gb: Seq<char>, prefix: int, suffix: int)
    requires
        0 <= prefix <= ga.len(),
        prefix <= gb.len(),
        0 <= suffix,
        prefix + suffix <= ga.len(),
        prefix + suffix <= gb.len(),
        forall|i: int| 0 <= i < suffix ==> #[trigger] from_end(ga, i) == from_end(gb, i),
        prefix + suffix == ga.len() || prefix + suffix == gb.len() || from_end(ga, suffix)
            != from_end(gb, suffix),
    ensures
        common_suffix_len(ga.skip(prefix), gb.skip(prefix)) == suffix,
        ga.skip(ga.len() - suffix) == gb.skip(gb.len() - suffix),
        prefix_bytes(ga, ga.len() as int) == utf8_bytes(ga).len(),
        prefix_bytes(gb, gb.len() as int) == utf8_bytes(gb).len(),
{
    let ra = ga.skip(prefix);
    let rb = gb.skip(prefix);
    assert forall|i: int| 0 <= i < suffix implies #[trigger] from_end(ra, i) == from_end(rb, i) by {
        assert(from_end(ra, i) == from_end(ga, i));
        assert(from_end(rb, i) == from_end(gb, i));
    }
    if prefix + suffix < ga.len() && prefix + suffix < gb.len() {
        assert(from_end(ra, suffix) == from_end(ga, suffix));
        assert(from_end(rb, suffix) == from_end(gb, suffix));
    }
    lemma_common_suffix(ra, rb, suffix);
    lemma_prefix_bytes_full(ga);
    lemma_prefix_bytes_full(gb);
    assert forall|i: int| 0 <= i < suffix implies #[trigger] ga.skip(ga.len() - suffix)[i]
        == gb.skip(gb.len() - suffix)[i] by {
        assert(from_end(ga, suffix - 1 - i) == from_end(gb, suffix - 1 - i));
    }
    assert(ga.skip(ga.len() - suffix) =~= gb.skip(gb.len() - suffix));
}

/// The byte offsets of a minimal replacement frame are scalar boundaries
/// that delimit the same characters in both strings.
proof fn lemma_frame_boundaries(a: Seq<char>, b: Seq<char>, prefix: int, suffix: int)
    requires
        0 <= prefix,
        0 <= suffix,
        prefix + suffix <= a.len(),
        prefix + suffix <= b.len(),
        a.take(prefix) == b.take(prefix),
        a.skip(a.len() - suffix) == b.skip(b.len() - suffix),
    ensures
        prefix_bytes(a, prefix) == prefix_bytes(b, prefix),
        is_boundary(a, prefix_bytes(a, prefix) as int),
        is_boundary(b, prefix_bytes(a, prefix) as int),
        is_boundary(a, prefix_bytes(a, a.len() - suffix) as int),
        is_boundary(b, prefix_bytes(b, b.len() - suffix) as int),
        prefix_bytes(a, prefix) <= prefix_bytes(a, a.len() - suffix),
        prefix_bytes(b, prefix) <= prefix_bytes(b, b.len() - suffix),
        char_count_at(a, prefix_bytes(a, prefix) as int) == prefix,
        char_count_at(b, prefix_bytes(a, prefix) as int) == prefix,
        char_count_at(a, prefix_bytes(a, a.len() - suffix) as int) == a.len() - suffix,
        char_count_at(b, prefix_bytes(b, b.len() - suffix) as int) == b.len() - suffix,
{
    lemma_prefix_is_boundary(a, prefix);
    lemma_prefix_is_boundary(b, prefix);
    lemma_prefix_is_boundary(a, a.len() - suffix);
    lemma_prefix_is_boundary(b, b.len() - suffix);
    lemma_prefix_bytes_monotone(a, prefix, a.len() - suffix);
    lemma_prefix_bytes_monotone(b, prefix, b.len() - suffix);
    lemma_char_count_at(a, prefix_bytes(a, prefix) as int);
    lemma_char_count_at(b, prefix_bytes(b, prefix) as int);
    lemma_char_count_at(a, prefix_bytes(a, a.len() - suffix) as int);
    lemma_char_count_at(b, prefix_bytes(b, b.len() - suffix) as int);
}

impl EditTransaction {
    /// Computes the single minimal replacement between two UTF-8 strings.
    ///
    /// Equal content returns `None`; a selection-only movement is not a content
    /// transaction and does not advance the document revision.
    ///
    /// # Errors
    ///
    /// Returns an invalid-selection error if either selection is outside its
    /// corresponding string or is not on a UTF-8 boundary.
    pub fn between(
        base_revision: Revision,
        before: &str,
        after: &str,
        selection_before: Selection,
        selection_after: Selection,
        origin: EditOrigin,
        observed_at: EditTimestamp,
    ) -> (result: Result<Option<Self>, EditError>)
        ensures
            selection_failure(selection_before, before.spec_bytes(), SelectionState::Before)
                matches Some(error) ==> result == Err::<Option<Self>, EditError>(error),
            selection_failure(selection_before, before.spec_bytes(), SelectionState::Before)
                is None ==> (selection_failure(
                selection_after,
                after.spec_bytes(),
                SelectionState::After,
            ) matches Some(error) ==> result == Err::<Option<Self>, EditError>(error)),
            selection_failure(selection_before, before.spec_bytes(), SelectionState::Before)
                is None && selection_failure(
                selection_after,
                after.spec_bytes(),
                SelectionState::After,
            ) is None ==> match result {
                Err(_) => false,
                Ok(None) => before@ == after@,
                Ok(Some(transaction)) => {
                    let a = before@;
                    let b = after@;
                    &&& a != b
                    &&& transaction.spec_base_revision() == base_revision
                    &&& is_minimal_replacement(transaction.spec_edits(), a, b)
                    &&& transaction.spec_selection_before() == selection_before
                    &&& transaction.spec_selection_after() == selection_after
                    &&& transaction.spec_origin() == origin
                    &&& transaction.spec_intent() == classify_intent(
                        transaction.spec_edits(),
                        selection_before,
                        selection_after,
                        origin,
                    )
                    &&& transaction.spec_observed_at() == observed_at
                },
            },
    {
        match validate_selection_str(selection_before, before, SelectionState::Before) {
            Ok(()) => {},
            Err(error) => return Err(error),
        }
        match validate_selection_str(selection_after, after, SelectionState::After) {
            Ok(()) => {},
            Err(error) => return Err(error),
        }
        let (prefix, suffix, prefix_bytes_a, before_end, after_end) = match minimal_frame_offsets(
            before,
            after,
        ) {
            None => return Ok(None),
            Some(frame) => frame,
        };
        proof {
            let ga = before@;
            let gb = after@;
            lemma_frame_boundaries(ga, gb, prefix as int, suffix as int);
        }
        let inserted = str_slice(after, prefix_bytes_a, after_end);
        let removed = str_slice(before, prefix_bytes_a, before_end);
        let edit = TextEdit::replace(TextRange::new(prefix_bytes_a, before_end), inserted, removed);
        let mut edits: Vec<TextEdit> = Vec::new();
        edits.push(edit);
        Ok(
            Some(
                Self::new(
                    base_revision,
                    edits,
                    selection_before,
                    selection_after,
                    origin,
                    observed_at,
                ),
            ),
        )
    }
}

} // verus!

verus! {

/// The end of the edit before `index`, if any.
pub open spec fn previous_end(edits: Seq<TextEdit>, index: int) -> Option<usize> {
    if index <= 0 {
        None
    } else {
        Some(edits[index - 1].spec_range().spec_end())
    }
}

/// Why edit `index` cannot apply to `source`, checked in order: range order and
/// bounds, ordering after the previous edit, both scalar boundaries, a no-op
/// replacement, and the exact expected removed text.
pub open spec fn edit_failure(
    source: Seq<u8>,
    edit: TextEdit,
    index: int,
    previous: Option<usize>,
) -> Option<EditError> {
    let start = edit.spec_range().spec_start();
    let end = edit.spec_range().spec_end();
    if start > end || end > source.len() {
        Some(EditError::InvalidRange { start, end, source_len: source.len() as usize })
    } else if previous matches Some(previous_end) && start < previous_end {
        Some(
            EditError::EditsOverlapOrOutOfOrder {
                index: index as usize,
                start,
                previous_end: previous->0,
            },
        )
    } else if !is_char_boundary(source, start as int) {
        Some(EditError::InvalidBoundary { offset: start })
    } else if !is_char_boundary(source, end as int) {
        Some(EditError::InvalidBoundary { offset: end })
    } else if edit.spec_inserted() == edit.spec_removed() {
        Some(EditError::NoOpEdit { index: index as usize })
    } else if source.subrange(start as int, end as int) != utf8_bytes(edit.spec_removed()) {
        Some(EditError::RemovedTextMismatch { index: index as usize })
    } else {
        None
    }
}

/// The net change in source length made by the first `count` edits.
pub open spec fn length_delta(edits: Seq<TextEdit>, count: int) -> int
    decreases count,
{
    if count <= 0 {
        0
    } else {
        length_delta(edits, count - 1) + utf8_bytes(edits[count - 1].spec_inserted()).len() - (
        edits[count - 1].spec_range().spec_end() - edits[count - 1].spec_range().spec_start())
    }
}

/// The first failure among edits `index..`: each edit is validated, then the
/// running result length after it must fit in `usize`.
pub open spec fn scan_failure(
    source: Seq<u8>,
    edits: Seq<TextEdit>,
    maximum: usize,
    index: int,
) -> Option<EditError>
    decreases edits.len() - index,
{
    if index < 0 || index >= edits.len() {
        None
    } else {
        match edit_failure(source, edits[index], index, previous_end(edits, index)) {
            Some(error) => Some(error),
            None => if source.len() + length_delta(edits, index + 1) > usize::MAX {
                Some(EditError::ResultTooLarge { projected: usize::MAX, maximum })
            } else {
                scan_failure(source, edits, maximum, index + 1)
            },
        }
    }
}

/// The source with every edit replaced, edits given in base coordinates from
/// `cursor` onward: unchanged source between edits, and each inserted text in
/// place of its range.
pub open spec fn compose(source: Seq<u8>, edits: Seq<TextEdit>, cursor: int) -> Seq<u8>
    decreases edits.len(),
{
    if edits.len() == 0 {
        source.subrange(cursor, source.len() as int)
    } else {
        source.subrange(cursor, edits[0].spec_range().spec_start() as int) + utf8_bytes(
            edits[0].spec_inserted(),
        ) + compose(source, edits.drop_first(), edits[0].spec_range().spec_end() as int)
    }
}

/// Why a transaction is rejected before any result is built: a stale
/// revision, no edits, an invalid before-selection, an exhausted revision
/// counter, an invalid edit or length overflow, or a result over `maximum`.
pub open spec fn apply_failure(
    transaction: EditTransaction,
    source: Seq<u8>,
    actual: Revision,
    maximum: usize,
) -> Option<EditError> {
    let edits = transaction.spec_edits();
    if transaction.spec_base_revision() != actual {
        Some(EditError::StaleRevision { expected: transaction.spec_base_revision(), actual })
    } else if edits.len() == 0 {
        Some(EditError::EmptyTransaction)
    } else if selection_failure(
        transaction.spec_selection_before(),
        source,
        SelectionState::Before,
    ) is Some {
        selection_failure(transaction.spec_selection_before(), source, SelectionState::Before)
    } else if actual.spec_value() == u64::MAX {
        Some(EditError::RevisionExhausted)
    } else if scan_failure(source, edits, maximum, 0) is Some {
        scan_failure(source, edits, maximum, 0)
    } else if source.len() + length_delta(edits, edits.len() as int) > maximum {
        Some(
            EditError::ResultTooLarge {
                projected: (source.len() + length_delta(edits, edits.len() as int)) as usize,
                maximum,
            },
        )
    } else {
        None
    }
}

/// The bytes a transaction produces from `source`.
pub open spec fn applied_bytes(transaction: EditTransaction, source: Seq<u8>) -> Seq<u8> {
    compose(source, transaction.spec_edits(), 0)
}

/// Why the after-selection does not fit the produced bytes.
pub open spec fn result_selection_failure(
    transaction: EditTransaction,
    source: Seq<u8>,
) -> Option<EditError> {
    selection_failure(
        transaction.spec_selection_after(),
        applied_bytes(transaction, source),
        SelectionState::After,
    )
}

/// Where edit `index` lands in the produced source.
pub open spec fn inverse_start(edits: Seq<TextEdit>, index: int) -> int {
    edits[index].spec_range().spec_start() + length_delta(edits, index)
}

/// `inverse` exactly reverses `transaction`: at `revision`, it replaces each
/// inserted text at its produced position with the text it removed, and
/// swaps the selections; origin, intent and time are kept.
pub open spec fn is_inverse_of(
    inverse: EditTransaction,
    transaction: EditTransaction,
    revision: Revision,
) -> bool {
    let edits = transaction.spec_edits();
    let reversed = inverse.spec_edits();
    &&& inverse.spec_base_revision() == revision
    &&& reversed.len() == edits.len()
    &&& forall|index: int|
        #![trigger reversed[index]]
        0 <= index < edits.len() ==> {
            &&& reversed[index].spec_range().spec_start() == inverse_start(edits, index)
            &&& reversed[index].spec_range().spec_end() == inverse_start(edits, index)
                + utf8_bytes(edits[index].spec_inserted()).len()
            &&& reversed[index].spec_inserted() == edits[index].spec_removed()
            &&& reversed[index].spec_removed() == edits[index].spec_inserted()
        }
    &&& inverse.spec_selection_before() == transaction.spec_selection_after()
    &&& inverse.spec_selection_after() == transaction.spec_selection_before()
    &&& inverse.spec_origin() == transaction.spec_origin()
    &&& inverse.spec_intent() == transaction.spec_intent()
    &&& inverse.spec_observed_at() == transaction.spec_observed_at()
}

/// Successful transaction evidence, including its exact inverse.
#[derive(Clone, PartialEq, Eq, Debug)]
pub struct AppliedTransaction {
    base_revision: Revision,
    revision: Revision,
    selection: Selection,
    inverse: EditTransaction,
}

impl AppliedTransaction {
    /// The revision observed before the mutation.
    pub closed spec fn spec_base_revision(&self) -> Revision {
        self.base_revision
    }

    /// The revision produced by the mutation.
    pub closed spec fn spec_revision(&self) -> Revision {
        self.revision
    }

    /// The selection produced by the mutation.
    pub closed spec fn spec_selection(&self) -> Selection {
        self.selection
    }

    /// The exact reversing transaction.
    pub closed spec fn spec_inverse(&self) -> EditTransaction {
        self.inverse
    }

    /// Returns the revision observed before the successful mutation.
    pub fn base_revision(&self) -> (revision: Revision)
        ensures
            revision == self.spec_base_revision(),
    {
        self.base_revision
    }

    /// Returns the revision produced by the successful mutation.
    pub fn revision(&self) -> (revision: Revision)
        ensures
            revision == self.spec_revision(),
    {
        self.revision
    }

    /// Returns the selection produced by the successful mutation.
    pub fn selection(&self) -> (selection: Selection)
        ensures
            selection == self.spec_selection(),
    {
        self.selection
    }

    /// Returns the exact transaction that reverses this mutation.
    pub fn inverse(&self) -> (inverse: &EditTransaction)
        ensures
            *inverse == self.spec_inverse(),
    {
        &self.inverse
    }

    /// Consumes the evidence and returns its exact inverse transaction.
    pub fn into_inverse(self) -> (inverse: EditTransaction)
        ensures
            inverse == self.spec_inverse(),
    {
        self.inverse
    }
}

} // verus!

verus! {

/// Returns the character index at exact byte boundary `position`.
fn exact_byte_to_char(source: &Rope, position: usize) -> (result: Result<usize, EditError>)
    ensures
        match result {
            Ok(index) => is_boundary(rope_chars(*source), position as int) && index
                == char_count_at(rope_chars(*source), position as int),
            Err(error) => !is_boundary(rope_chars(*source), position as int) && error
                == EditError::InvalidBoundary { offset: position },
        },
{
    let ghost chars = rope_chars(*source);
    let character = match rope_try_byte_to_char(source, position) {
        Some(character) => character,
        None => {
            proof {
                vstd::utf8::encode_utf8_valid_utf8(chars);
            }
            return Err(EditError::InvalidBoundary { offset: position });
        },
    };
    let back = rope_char_to_byte(source, character);
    if back != position {
        proof {
            if is_boundary(chars, position as int) {
                lemma_char_count_at(chars, position as int);
                let exact = char_count_at(chars, position as int);
                if exact < character {
                    lemma_prefix_bytes_monotone(chars, exact, character as int);
                } else {
                    lemma_prefix_bytes_monotone(chars, character as int + 1, exact);
                }
            }
        }
        return Err(EditError::InvalidBoundary { offset: position });
    }
    proof {
        lemma_prefix_is_boundary(chars, character as int);
        lemma_char_count_at(chars, position as int);
    }
    Ok(character)
}

/// Validates that both endpoints of `selection` are scalar boundaries of the
/// rope's source.
fn validate_selection_rope(
    selection: Selection,
    source: &Rope,
    state: SelectionState,
) -> (result: Result<(), EditError>)
    ensures
        result == match selection_failure(selection, utf8_bytes(rope_chars(*source)), state) {
            Some(error) => Err::<(), EditError>(error),
            None => Ok(()),
        },
{
    let length = rope_len_bytes(source);
    if selection.anchor > length {
        return Err(EditError::InvalidSelection { state, position: selection.anchor, source_len: length });
    }
    match exact_byte_to_char(source, selection.anchor) {
        Ok(_) => {},
        Err(error) => return Err(error),
    }
    if selection.active > length {
        return Err(EditError::InvalidSelection { state, position: selection.active, source_len: length });
    }
    match exact_byte_to_char(source, selection.active) {
        Ok(_) => {},
        Err(error) => return Err(error),
    }
    Ok(())
}

/// Validates one edit against the rope and the previous edit's end.
fn validate_edit(
    edit: &TextEdit,
    rope: &Rope,
    source_len: usize,
    previous: Option<usize>,
    index: usize,
) -> (result: Result<(), EditError>)
    requires
        source_len == utf8_bytes(rope_chars(*rope)).len(),
    ensures
        result == match edit_failure(utf8_bytes(rope_chars(*rope)), *edit, index as int, previous) {
            Some(error) => Err::<(), EditError>(error),
            None => Ok(()),
        },
{
    let ghost chars = rope_chars(*rope);
    if edit.range.start > edit.range.end || edit.range.end > source_len {
        return Err(
            EditError::InvalidRange {
                start: edit.range.start,
                end: edit.range.end,
                source_len,
            },
        );
    }
    match previous {
        Some(previous_end) => {
            if edit.range.start < previous_end {
                return Err(
                    EditError::EditsOverlapOrOutOfOrder {
                        index,
                        start: edit.range.start,
                        previous_end,
                    },
                );
            }
        },
        None => {},
    }
    let start_char = match exact_byte_to_char(rope, edit.range.start) {
        Ok(character) => character,
        Err(error) => return Err(error),
    };
    let end_char = match exact_byte_to_char(rope, edit.range.end) {
        Ok(character) => character,
        Err(error) => return Err(error),
    };
    if edit.inserted == edit.removed {
        return Err(EditError::NoOpEdit { index });
    }
    proof {
        lemma_char_count_at(chars, edit.range.start as int);
        lemma_char_count_at(chars, edit.range.end as int);
        if end_char < start_char {
            lemma_prefix_bytes_monotone(chars, end_char as int, start_char as int);
        }
        lemma_prefix_bytes_full(chars);
        lemma_prefix_bytes_monotone(chars, end_char as int, chars.len() as int);
        if end_char as int > chars.len() {
            assert(false);
        }
    }
    let matches = rope_slice_equals(rope, start_char, end_char, edit.removed.as_str());
    proof {
        lemma_encode_subrange(chars, start_char as int, end_char as int);
        let window = chars.subrange(start_char as int, end_char as int);
        if utf8_bytes(chars).subrange(edit.range.start as int, edit.range.end as int)
            == utf8_bytes(edit.removed@) {
            lemma_encode_injective(window, edit.removed@);
        }
    }
    if !matches {
        return Err(EditError::RemovedTextMismatch { index });
    }
    Ok(())
}

/// Edits that each validated are ordered, disjoint, and inside the source.
pub open spec fn edits_in_order(edits: Seq<TextEdit>, source_len: int) -> bool {
    &&& forall|index: int|
        #![trigger edits[index]]
        0 <= index < edits.len() ==> edits[index].spec_range().spec_start()
            <= edits[index].spec_range().spec_end() <= source_len
    &&& forall|earlier: int, later: int|
        #![trigger edits[earlier], edits[later]]
        0 <= earlier < later < edits.len() ==> edits[earlier].spec_range().spec_end()
            <= edits[later].spec_range().spec_start()
}

/// Edit `index` passes validation.
pub open spec fn edit_passes(source: Seq<u8>, edits: Seq<TextEdit>, index: int) -> bool {
    edit_failure(source, edits[index], index, previous_end(edits, index)) is None
}

/// Every edit passed validation.
pub open spec fn edits_valid(source: Seq<u8>, edits: Seq<TextEdit>) -> bool {
    forall|index: int| 0 <= index < edits.len() ==> #[trigger] edit_passes(source, edits, index)
}

/// A clean scan validates every edit and bounds every running length.
pub(crate) proof fn lemma_scan_passes(source: Seq<u8>, edits: Seq<TextEdit>, maximum: usize, index: int)
    requires
        0 <= index <= edits.len(),
        scan_failure(source, edits, maximum, index) is None,
    ensures
        forall|j: int|
            index <= j < edits.len() ==> #[trigger] edit_passes(source, edits, j) && source.len()
                + length_delta(edits, j + 1) <= usize::MAX,
    decreases edits.len() - index,
{
    if index < edits.len() {
        lemma_scan_passes(source, edits, maximum, index + 1);
    }
}

/// Valid edits are in order.
pub(crate) proof fn lemma_valid_edits_in_order(source: Seq<u8>, edits: Seq<TextEdit>)
    requires
        edits_valid(source, edits),
    ensures
        edits_in_order(edits, source.len() as int),
{
    assert forall|earlier: int, later: int|
        0 <= earlier < later < edits.len() implies #[trigger] edits[earlier].spec_range().spec_end()
        <= #[trigger] edits[later].spec_range().spec_start() by {
        lemma_valid_pair(source, edits, earlier, later);
    }
    assert forall|index: int| 0 <= index < edits.len() implies #[trigger] edits[index].spec_range().spec_start()
        <= edits[index].spec_range().spec_end() <= source.len() by {
        assert(edit_passes(source, edits, index));
    }
}

/// Validated edits end before any later edit starts.
proof fn lemma_valid_pair(source: Seq<u8>, edits: Seq<TextEdit>, earlier: int, later: int)
    requires
        edits_valid(source, edits),
        0 <= earlier < later < edits.len(),
    ensures
        edits[earlier].spec_range().spec_end() <= edits[later].spec_range().spec_start(),
    decreases later - earlier,
{
    assert(edit_passes(source, edits, later));
    if earlier < later - 1 {
        lemma_valid_pair(source, edits, earlier, later - 1);
        assert(edit_passes(source, edits, later - 1));
    }
}

/// The net length change never removes more than the source before the next
/// edit: the running length stays at least the bytes after the last edit.
pub(crate) proof fn lemma_delta_lower_bound(edits: Seq<TextEdit>, source_len: int, count: int)
    requires
        edits_in_order(edits, source_len),
        0 <= count <= edits.len(),
    ensures
        count == 0 ==> length_delta(edits, count) == 0,
        count > 0 ==> length_delta(edits, count) >= -(edits[count
            - 1].spec_range().spec_end() as int),
    decreases count,
{
    if count > 0 {
        lemma_delta_lower_bound(edits, source_len, count - 1);
        let e = edits[count - 1];
        if count > 1 {
            assert(edits[count - 2].spec_range().spec_end() <= e.spec_range().spec_start());
        }
    }
}

/// Dropping the first edit keeps the rest in order.
proof fn lemma_in_order_drop_first(edits: Seq<TextEdit>, source_len: int)
    requires
        edits.len() > 0,
        edits_in_order(edits, source_len),
    ensures
        edits_in_order(edits.drop_first(), source_len),
{
    let rest = edits.drop_first();
    assert forall|index: int| 0 <= index < rest.len() implies #[trigger] rest[index].spec_range().spec_start()
        <= rest[index].spec_range().spec_end() <= source_len by {
        assert(rest[index] == edits[index + 1]);
    }
    assert forall|earlier: int, later: int|
        0 <= earlier < later < rest.len() implies #[trigger] rest[earlier].spec_range().spec_end()
        <= #[trigger] rest[later].spec_range().spec_start() by {
        assert(rest[later] == edits[later + 1]);
        assert(rest[earlier] == edits[earlier + 1]);
    }
}

/// A splice at the last edit leaves the source before it unchanged.
proof fn lemma_splice_keeps_prefix(source: Seq<u8>, inserted: Seq<u8>, start: int, end: int, cursor: int, upto: int)
    requires
        0 <= cursor <= upto <= start <= end <= source.len(),
    ensures
        (source.take(start) + inserted + source.skip(end)).subrange(cursor, upto) == source.subrange(
            cursor,
            upto,
        ),
{
    assert((source.take(start) + inserted + source.skip(end)).subrange(cursor, upto) =~= source.subrange(
        cursor,
        upto,
    ));
}

/// Composing a single edit from `cursor` equals the tail of its splice.
proof fn lemma_compose_single(source: Seq<u8>, edits: Seq<TextEdit>, cursor: int)
    requires
        edits.len() == 1,
        edits_in_order(edits, source.len() as int),
        0 <= cursor <= edits[0].spec_range().spec_start(),
    ensures
        ({
            let last = edits.last();
            let spliced = source.take(last.spec_range().spec_start() as int) + utf8_bytes(
                last.spec_inserted(),
            ) + source.skip(last.spec_range().spec_end() as int);
            compose(source, edits, cursor) == compose(spliced, edits.drop_last(), cursor)
        }),
{
    let last = edits.last();
    let ls = last.spec_range().spec_start() as int;
    let le = last.spec_range().spec_end() as int;
    let ins = utf8_bytes(last.spec_inserted());
    let spliced = source.take(ls) + ins + source.skip(le);
    assert(edits.drop_first() =~= Seq::<TextEdit>::empty());
    assert(edits.drop_last() =~= Seq::<TextEdit>::empty());
    assert(spliced.subrange(cursor, spliced.len() as int) =~= source.subrange(cursor, ls) + ins
        + source.subrange(le, source.len() as int));
    assert(compose(source, edits.drop_first(), le) == source.subrange(le, source.len() as int));
    assert(compose(spliced, edits.drop_last(), cursor) == spliced.subrange(
        cursor,
        spliced.len() as int,
    ));
}

/// Replacing the last edit first leaves the earlier edits' composition
/// unchanged.
proof fn lemma_compose_splice(source: Seq<u8>, edits: Seq<TextEdit>, cursor: int)
    requires
        edits.len() > 0,
        edits_in_order(edits, source.len() as int),
        0 <= cursor <= edits[0].spec_range().spec_start(),
    ensures
        ({
            let last = edits.last();
            let spliced = source.take(last.spec_range().spec_start() as int) + utf8_bytes(
                last.spec_inserted(),
            ) + source.skip(last.spec_range().spec_end() as int);
            compose(source, edits, cursor) == compose(spliced, edits.drop_last(), cursor)
        }),
    decreases edits.len(),
{
    if edits.len() == 1 {
        lemma_compose_single(source, edits, cursor);
    } else {
        let last = edits.last();
        let ls = last.spec_range().spec_start() as int;
        let le = last.spec_range().spec_end() as int;
        let ins = utf8_bytes(last.spec_inserted());
        let spliced = source.take(ls) + ins + source.skip(le);
        let rest = edits.drop_first();
        let first = edits[0];
        lemma_in_order_drop_first(edits, source.len() as int);
        assert(edits[1] == rest[0]);
        assert(first.spec_range().spec_end() <= edits[1].spec_range().spec_start());
        lemma_compose_splice(source, rest, first.spec_range().spec_end() as int);
        assert(rest.last() == last);
        let shorter = edits.drop_last();
        assert(rest.drop_last() =~= shorter.drop_first());
        assert(shorter[0] == first);
        lemma_in_order_before_last(edits, source.len() as int);
        assert(first.spec_range().spec_start() <= first.spec_range().spec_end());
        lemma_splice_keeps_prefix(source, ins, ls, le, cursor, first.spec_range().spec_start() as int);
        assert(compose(source, edits, cursor) == source.subrange(cursor, first.spec_range().spec_start() as int) + utf8_bytes(
            first.spec_inserted(),
        ) + compose(source, rest, first.spec_range().spec_end() as int));
        assert(compose(spliced, shorter, cursor) == spliced.subrange(cursor, first.spec_range().spec_start() as int) + utf8_bytes(
            first.spec_inserted(),
        ) + compose(spliced, shorter.drop_first(), first.spec_range().spec_end() as int));
    }
}

/// In ordered edits, every edit ends before the last edit starts.
proof fn lemma_in_order_before_last(edits: Seq<TextEdit>, source_len: int)
    requires
        edits.len() > 1,
        edits_in_order(edits, source_len),
    ensures
        forall|index: int|
            #![trigger edits[index]]
            0 <= index < edits.len() - 1 ==> edits[index].spec_range().spec_end()
                <= edits.last().spec_range().spec_start(),
{
    assert forall|index: int| 0 <= index < edits.len() - 1 implies #[trigger] edits[index].spec_range().spec_end()
        <= edits.last().spec_range().spec_start() by {
        lemma_in_order_end_before_start(edits, source_len, index, edits.len() - 1);
    }
}

/// In ordered edits, an earlier edit ends before a later one starts.
pub(crate) proof fn lemma_in_order_end_before_start(
    edits: Seq<TextEdit>,
    source_len: int,
    earlier: int,
    later: int,
)
    requires
        edits_in_order(edits, source_len),
        0 <= earlier < later < edits.len(),
    ensures
        edits[earlier].spec_range().spec_end() <= edits[later].spec_range().spec_start(),
{
    assert(edits[earlier] == edits[earlier]);
    assert(edits[later] == edits[later]);
}

} // verus!

verus! {

impl EditTransaction {
    /// Validates every edit in order and returns the result length.
    fn validate_edits(
        &self,
        rope: &Rope,
        source_len: usize,
        maximum_result_bytes: usize,
    ) -> (result: Result<usize, EditError>)
        requires
            source_len == utf8_bytes(rope_chars(*rope)).len(),
        ensures
            match scan_failure(
                utf8_bytes(rope_chars(*rope)),
                self.spec_edits(),
                maximum_result_bytes,
                0,
            ) {
                Some(error) => result == Err::<usize, EditError>(error),
                None => result == Ok::<usize, EditError>(
                    (source_len + length_delta(self.spec_edits(), self.spec_edits().len() as int))
                        as usize,
                ),
            },
    {
        let ghost source = utf8_bytes(rope_chars(*rope));
        let ghost edits = self.edits@;
        let mut previous: Option<usize> = None;
        let mut result_len: usize = source_len;
        let mut index: usize = 0;
        while index < self.edits.len()
            invariant
                source == utf8_bytes(rope_chars(*rope)),
                edits == self.edits@,
                source_len == source.len(),
                index <= edits.len(),
                previous == previous_end(edits, index as int),
                result_len == source.len() + length_delta(edits, index as int),
                scan_failure(source, edits, maximum_result_bytes, 0) == scan_failure(
                    source,
                    edits,
                    maximum_result_bytes,
                    index as int,
                ),
                forall|j: int| 0 <= j < index ==> #[trigger] edit_passes(source, edits, j),
            decreases edits.len() - index,
        {
            let edit = &self.edits[index];
            match validate_edit(edit, rope, source_len, previous, index) {
                Ok(()) => {},
                Err(error) => return Err(error),
            }
            proof {
                lemma_running_covers_range(source, edits, index as int);
            }
            let removed_len = edit.range.len();
            let shrunk = match result_len.checked_sub(removed_len) {
                Some(length) => length,
                None => {
                    return Err(
                        EditError::ResultTooLarge {
                            projected: usize::MAX,
                            maximum: maximum_result_bytes,
                        },
                    );
                },
            };
            result_len = match shrunk.checked_add(str_len(edit.inserted.as_str())) {
                Some(length) => length,
                None => {
                    return Err(
                        EditError::ResultTooLarge {
                            projected: usize::MAX,
                            maximum: maximum_result_bytes,
                        },
                    );
                },
            };
            previous = Some(edit.range.end);
            index = index + 1;
        }
        Ok(result_len)
    }
}

/// The loop state before applying edit `index` (edits after it already
/// applied).
pub open spec fn apply_state(
    original: Seq<char>,
    edits: Seq<TextEdit>,
    index: int,
    current: Seq<char>,
) -> bool {
    &&& index == edits.len() ==> current == original
    &&& index < edits.len() ==> ({
        let shared = char_count_at(original, edits[index].spec_range().spec_start() as int);
        &&& 0 <= shared <= original.len()
        &&& shared <= current.len()
        &&& prefix_bytes(original, shared) == edits[index].spec_range().spec_start()
        &&& current.take(shared) == original.take(shared)
    })
}

/// The range of the next edit to apply lies on boundaries of the partially
/// edited text, at the same character counts as in the original.
proof fn lemma_step_boundaries(
    original: Seq<char>,
    source: Seq<u8>,
    edits: Seq<TextEdit>,
    index: int,
    current: Seq<char>,
)
    requires
        0 <= index < edits.len(),
        source == utf8_bytes(original),
        edits_valid(source, edits),
        edits_in_order(edits, source.len() as int),
        prefix_bytes(original, original.len() as int) == source.len(),
        apply_state(original, edits, index + 1, current),
    ensures
        ({
            let start = edits[index].spec_range().spec_start() as int;
            let end = edits[index].spec_range().spec_end() as int;
            &&& is_boundary(current, start)
            &&& is_boundary(current, end)
            &&& is_boundary(original, start)
            &&& is_boundary(original, end)
            &&& char_count_at(current, start) == char_count_at(original, start)
            &&& char_count_at(current, end) == char_count_at(original, end)
            &&& char_count_at(original, start) <= char_count_at(original, end)
            &&& char_count_at(current, end) <= current.len()
        }),
{
    let start = edits[index].spec_range().spec_start() as int;
    let end = edits[index].spec_range().spec_end() as int;
    let shared = if index + 1 < edits.len() {
        char_count_at(original, edits[index + 1].spec_range().spec_start() as int)
    } else {
        original.len() as int
    };
    assert(edit_passes(source, edits, index));
    if index + 1 < edits.len() {
        assert(end <= edits[index + 1].spec_range().spec_start());
    } else {
        assert(current.take(shared) =~= original.take(shared));
    }
    lemma_boundary_in_shared_prefix(original, current, shared, start);
    lemma_boundary_in_shared_prefix(original, current, shared, end);
    lemma_char_count_at(original, start);
    lemma_char_count_at(original, end);
    lemma_char_count_at(current, end);
    let cs = char_count_at(original, start);
    let ce = char_count_at(original, end);
    if ce < cs {
        lemma_prefix_bytes_monotone(original, ce, cs);
    }
}

/// The first `index + 1` ordered edits stay in order within any length that
/// covers edit `index`.
proof fn lemma_in_order_take(edits: Seq<TextEdit>, source_len: int, index: int, length: int)
    requires
        edits_in_order(edits, source_len),
        0 <= index < edits.len(),
        edits[index].spec_range().spec_end() <= length,
    ensures
        edits_in_order(edits.take(index + 1), length),
{
    let taken = edits.take(index + 1);
    assert forall|j: int| 0 <= j < taken.len() implies #[trigger] taken[j].spec_range().spec_start()
        <= taken[j].spec_range().spec_end() <= length by {
        assert(taken[j] == edits[j]);
        if j < index {
            lemma_in_order_end_before_start(edits, source_len, j, index);
            assert(edits[index].spec_range().spec_start() <= edits[index].spec_range().spec_end());
        }
    }
    assert forall|earlier: int, later: int|
        0 <= earlier < later < taken.len() implies #[trigger] taken[earlier].spec_range().spec_end()
        <= #[trigger] taken[later].spec_range().spec_start() by {
        assert(taken[later] == edits[later]);
        assert(taken[earlier] == edits[earlier]);
    }
}

/// Applying edit `index` to the partially edited text keeps the composition
/// of the remaining edits and re-establishes the loop state.
#[verifier::rlimit(60)]
proof fn lemma_step_applied(
    original: Seq<char>,
    source: Seq<u8>,
    edits: Seq<TextEdit>,
    index: int,
    current: Seq<char>,
    changed: Seq<char>,
    start_char: int,
    end_char: int,
)
    requires
        0 <= index < edits.len(),
        source == utf8_bytes(original),
        edits_valid(source, edits),
        edits_in_order(edits, source.len() as int),
        prefix_bytes(original, original.len() as int) == source.len(),
        apply_state(original, edits, index + 1, current),
        compose(source, edits, 0) == compose(utf8_bytes(current), edits.take(index + 1), 0),
        is_boundary(current, edits[index].spec_range().spec_start() as int),
        is_boundary(current, edits[index].spec_range().spec_end() as int),
        start_char == char_count_at(current, edits[index].spec_range().spec_start() as int),
        end_char == char_count_at(current, edits[index].spec_range().spec_end() as int),
        start_char == char_count_at(original, edits[index].spec_range().spec_start() as int),
        start_char <= end_char,
        changed == current.take(start_char) + edits[index].spec_inserted() + current.skip(end_char),
    ensures
        apply_state(original, edits, index, changed),
        compose(source, edits, 0) == compose(utf8_bytes(changed), edits.take(index), 0),
{
    let start = edits[index].spec_range().spec_start() as int;
    let end = edits[index].spec_range().spec_end() as int;
    let inserted = edits[index].spec_inserted();
    assert(edit_passes(source, edits, index));
    lemma_char_count_at(current, start);
    lemma_char_count_at(current, end);
    lemma_char_count_at(original, start);
    lemma_encode_split(current, start_char);
    lemma_encode_split(current, end_char);
    lemma_encode_concat(current.take(start_char) + inserted, current.skip(end_char));
    lemma_encode_concat(current.take(start_char), inserted);
    lemma_prefix_bytes_monotone(current, end_char, current.len() as int);
    lemma_prefix_bytes_full(current);
    let taken = edits.take(index + 1);
    assert(taken.last() == edits[index]);
    assert(taken.drop_last() =~= edits.take(index));
    lemma_in_order_take(edits, source.len() as int, index, utf8_bytes(current).len() as int);
    lemma_compose_splice(utf8_bytes(current), taken, 0);
    assert(utf8_bytes(changed) =~= utf8_bytes(current).take(start) + utf8_bytes(inserted)
        + utf8_bytes(current).skip(end));
    assert(changed.take(start_char) =~= current.take(start_char));
    if index + 1 < edits.len() {
        let shared = char_count_at(original, edits[index + 1].spec_range().spec_start() as int);
        assert(edits[index].spec_range().spec_end() <= edits[index + 1].spec_range().spec_start());
        lemma_boundary_in_shared_prefix(original, current, shared, start);
        assert(current.take(start_char) =~= current.take(shared).take(start_char));
        assert(original.take(start_char) =~= original.take(shared).take(start_char));
    }
}

/// Before a validated edit, the running length still covers its range.
proof fn lemma_running_covers_range(source: Seq<u8>, edits: Seq<TextEdit>, index: int)
    requires
        0 <= index < edits.len(),
        forall|j: int| 0 <= j <= index ==> #[trigger] edit_passes(source, edits, j),
    ensures
        source.len() + length_delta(edits, index) >= edits[index].spec_range().spec_end()
            - edits[index].spec_range().spec_start(),
{
    let taken = edits.take(index + 1);
    assert forall|j: int| 0 <= j < taken.len() implies #[trigger] edit_passes(source, taken, j) by {
        assert(taken[j] == edits[j]);
        if j > 0 {
            assert(taken[j - 1] == edits[j - 1]);
        }
        assert(edit_passes(source, edits, j));
    }
    lemma_valid_edits_in_order(source, taken);
    lemma_delta_lower_bound(taken, source.len() as int, index);
    lemma_delta_prefix(edits, index + 1, index);
    assert(taken[index] == edits[index]);
    assert(edit_passes(source, edits, index));
    if index > 0 {
        assert(taken[index - 1] == edits[index - 1]);
        assert(edit_passes(source, edits, index - 1));
    }
}

/// The net change of the first `count` edits depends only on those edits.
proof fn lemma_delta_prefix(edits: Seq<TextEdit>, taken: int, count: int)
    requires
        0 <= count <= taken <= edits.len(),
    ensures
        length_delta(edits.take(taken), count) == length_delta(edits, count),
    decreases count,
{
    if count > 0 {
        lemma_delta_prefix(edits, taken, count - 1);
        assert(edits.take(taken)[count - 1] == edits[count - 1]);
    }
}

} // verus!

verus! {

/// `Vec::try_reserve_exact`: asks the allocator for room for `additional`
/// more items. Whether it succeeds depends on the allocator, so only the
/// unchanged contents are stated.
#[verifier::external_body]
fn vec_try_reserve_exact<T>(vec: &mut Vec<T>, additional: usize) -> (reserved: bool)
    ensures
        final(vec)@ == old(vec)@,
{
    vec.try_reserve_exact(additional).is_ok()
}

impl EditTransaction {
    /// Applies the validated edits, last first, to a copy of the rope.
    fn apply_edits_to_copy(&self, rope: &Rope) -> (result: Result<Rope, EditError>)
        requires
            edits_valid(utf8_bytes(rope_chars(*rope)), self.spec_edits()),
        ensures
            result matches Ok(changed) && utf8_bytes(rope_chars(changed)) == compose(
                utf8_bytes(rope_chars(*rope)),
                self.spec_edits(),
                0,
            ),
    {
        let ghost original = rope_chars(*rope);
        let ghost source = utf8_bytes(original);
        let ghost edits = self.edits@;
        proof {
            lemma_valid_edits_in_order(source, edits);
            lemma_prefix_bytes_full(original);
        }
        let mut result = rope_clone(rope);
        let mut index = self.edits.len();
        proof {
            assert(edits.take(index as int) =~= edits);
        }
        while index > 0
            invariant
                index <= edits.len(),
                original == rope_chars(*rope),
                source == utf8_bytes(original),
                edits == self.edits@,
                edits_valid(source, edits),
                edits_in_order(edits, source.len() as int),
                prefix_bytes(original, original.len() as int) == source.len(),
                apply_state(original, edits, index as int, rope_chars(result)),
                compose(source, edits, 0) == compose(
                    utf8_bytes(rope_chars(result)),
                    edits.take(index as int),
                    0,
                ),
            decreases index,
        {
            index = index - 1;
            let ghost current = rope_chars(result);
            proof {
                lemma_step_boundaries(original, source, edits, index as int, current);
            }
            let edit = &self.edits[index];
            let start_char = match exact_byte_to_char(&result, edit.range.start) {
                Ok(character) => character,
                Err(error) => return Err(error),
            };
            let end_char = match exact_byte_to_char(&result, edit.range.end) {
                Ok(character) => character,
                Err(error) => return Err(error),
            };
            rope_remove(&mut result, start_char, end_char);
            let ghost removed = rope_chars(result);
            rope_insert(&mut result, start_char, edit.inserted.as_str());
            proof {
                assert(removed.take(start_char as int) =~= current.take(start_char as int));
                assert(removed.skip(start_char as int) =~= current.skip(end_char as int));
                assert(rope_chars(result) =~= current.take(start_char as int)
                    + edits[index as int].spec_inserted() + current.skip(end_char as int));
                lemma_step_applied(
                    original,
                    source,
                    edits,
                    index as int,
                    current,
                    rope_chars(result),
                    start_char as int,
                    end_char as int,
                );
            }
        }
        proof {
            let finished = utf8_bytes(rope_chars(result));
            assert(edits.take(0) =~= Seq::<TextEdit>::empty());
            assert(finished.subrange(0, finished.len() as int) =~= finished);
        }
        Ok(result)
    }
}

} // verus!

verus! {

/// The inverse replacements for the first `count` edits.
pub open spec fn inverse_prefix(edits: Seq<TextEdit>, reversed: Seq<TextEdit>, count: int) -> bool {
    &&& reversed.len() == count
    &&& forall|index: int|
        #![trigger reversed[index]]
        0 <= index < count ==> {
            &&& reversed[index].spec_range().spec_start() == inverse_start(edits, index)
            &&& reversed[index].spec_range().spec_end() == inverse_start(edits, index)
                + utf8_bytes(edits[index].spec_inserted()).len()
            &&& reversed[index].spec_inserted() == edits[index].spec_removed()
            &&& reversed[index].spec_removed() == edits[index].spec_inserted()
        }
}

/// Each inverse replacement lies inside the produced length.
proof fn lemma_inverse_fits(edits: Seq<TextEdit>, source_len: int, index: int)
    requires
        edits_in_order(edits, source_len),
        0 <= index < edits.len(),
        source_len + length_delta(edits, index + 1) <= usize::MAX,
    ensures
        0 <= inverse_start(edits, index),
        inverse_start(edits, index) + utf8_bytes(edits[index].spec_inserted()).len() <= usize::MAX,
        inverse_start(edits, index) + utf8_bytes(edits[index].spec_inserted()).len()
            == edits[index].spec_range().spec_end() + length_delta(edits, index + 1),
{
    lemma_delta_lower_bound(edits, source_len, index);
    if index > 0 {
        assert(edits[index - 1].spec_range().spec_end() <= edits[index].spec_range().spec_start());
    }
    assert(edits[index].spec_range().spec_start() <= edits[index].spec_range().spec_end()
        <= source_len);
}

impl EditTransaction {
    /// Builds the exact inverse replacements in produced-source coordinates,
    /// into `reserved`, an empty vector with room for them.
    fn fill_inverse(&self, reserved: Vec<TextEdit>, source_len: usize) -> (reversed: Vec<
        TextEdit,
    >)
        requires
            reserved@.len() == 0,
            edits_in_order(self.spec_edits(), source_len as int),
            forall|index: int|
                #![trigger self.spec_edits()[index]]
                0 <= index < self.spec_edits().len() ==> source_len + length_delta(
                    self.spec_edits(),
                    index + 1,
                ) <= usize::MAX,
        ensures
            inverse_prefix(self.spec_edits(), reversed@, self.spec_edits().len() as int),
    {
        let ghost edits = self.edits@;
        let mut reversed = reserved;
        let mut original_cursor: usize = 0;
        let mut result_cursor: usize = 0;
        let mut index: usize = 0;
        while index < self.edits.len()
            invariant
                edits == self.edits@,
                edits_in_order(edits, source_len as int),
                forall|j: int|
                    #![trigger edits[j]]
                    0 <= j < edits.len() ==> source_len + length_delta(edits, j + 1)
                        <= usize::MAX,
                index <= edits.len(),
                original_cursor == (if index == 0 {
                    0
                } else {
                    edits[index - 1].spec_range().spec_end() as int
                }),
                result_cursor == original_cursor + length_delta(edits, index as int),
                inverse_prefix(edits, reversed@, index as int),
            decreases edits.len() - index,
        {
            let edit = &self.edits[index];
            proof {
                assert(edits[index as int] == edits[index as int]);
                lemma_inverse_fits(edits, source_len as int, index as int);
                if index > 0 {
                    assert(edits[index - 1].spec_range().spec_end()
                        <= edits[index as int].spec_range().spec_start());
                }
                assert(length_delta(edits, index as int + 1) == length_delta(edits, index as int)
                    + utf8_bytes(edit.inserted@).len() - (edit.range.end - edit.range.start));
            }
            let unchanged_bytes = edit.range.start - original_cursor;
            result_cursor = result_cursor + unchanged_bytes;
            let inverse_end = result_cursor + str_len(edit.inserted.as_str());
            let inverse = TextEdit {
                range: TextRange::new(result_cursor, inverse_end),
                inserted: edit.removed.clone(),
                removed: edit.inserted.clone(),
            };
            reversed.push(inverse);
            result_cursor = inverse_end;
            original_cursor = edit.range.end;
            index = index + 1;
        }
        reversed
    }

    /// Runs every check that precedes building the result, in order, and
    /// returns the next revision and the source length.
    pub fn check_applicable(
        &self,
        rope: &Rope,
        actual_revision: Revision,
        maximum_result_bytes: usize,
    ) -> (result: Result<(Revision, usize), EditError>)
        ensures
            ({
                let source = utf8_bytes(rope_chars(*rope));
                match apply_failure(*self, source, actual_revision, maximum_result_bytes) {
                    Some(error) => result == Err::<(Revision, usize), EditError>(error),
                    None => result matches Ok((next, source_len)) && {
                        &&& next.spec_value() == actual_revision.spec_value() + 1
                        &&& source_len == source.len()
                        &&& edits_valid(source, self.spec_edits())
                        &&& edits_in_order(self.spec_edits(), source.len() as int)
                        &&& forall|index: int|
                            #![trigger self.spec_edits()[index]]
                            0 <= index < self.spec_edits().len() ==> source.len()
                                + length_delta(self.spec_edits(), index + 1) <= usize::MAX
                    },
                }
            }),
    {
        let ghost source = utf8_bytes(rope_chars(*rope));
        if self.base_revision != actual_revision {
            return Err(
                EditError::StaleRevision { expected: self.base_revision, actual: actual_revision },
            );
        }
        if self.edits.len() == 0 {
            return Err(EditError::EmptyTransaction);
        }
        match validate_selection_rope(self.selection_before, rope, SelectionState::Before) {
            Ok(()) => {},
            Err(error) => return Err(error),
        }
        let next_revision = match actual_revision.checked_next() {
            Some(next) => next,
            None => return Err(EditError::RevisionExhausted),
        };
        let source_len = rope_len_bytes(rope);
        let result_len = match self.validate_edits(rope, source_len, maximum_result_bytes) {
            Ok(length) => length,
            Err(error) => return Err(error),
        };
        proof {
            assert(scan_failure(source, self.edits@, maximum_result_bytes, 0) is None);
            lemma_scan_passes(source, self.edits@, maximum_result_bytes, 0);
            let last = self.edits@.len() - 1;
            assert(edit_passes(source, self.edits@, last));
            assert(source.len() + length_delta(self.edits@, last + 1) <= usize::MAX);
            assert(edits_valid(source, self.edits@));
            lemma_valid_edits_in_order(source, self.edits@);
            assert forall|index: int| 0 <= index < self.edits@.len() implies source.len()
                + length_delta(self.edits@, index + 1) <= usize::MAX && #[trigger] self.edits@[index]
                == self.edits@[index] by {
                assert(edit_passes(source, self.edits@, index));
            }
        }
        proof {
            let total = source.len() + length_delta(self.edits@, self.edits@.len() as int);
            lemma_delta_lower_bound(self.edits@, source.len() as int, self.edits@.len() as int);
            assert(self.edits@.last() == self.edits@[self.edits@.len() - 1]);
            assert(0 <= total <= usize::MAX);
            assert(result_len == total);
        }
        if result_len > maximum_result_bytes {
            return Err(
                EditError::ResultTooLarge { projected: result_len, maximum: maximum_result_bytes },
            );
        }
        Ok((next_revision, source_len))
    }

    /// Asks the allocator for room for this transaction's inverse edits:
    /// an empty vector with that room, or `None` when it is refused.
    pub fn reserve_inverse(&self) -> (reserved: Option<Vec<TextEdit>>)
        ensures
            reserved matches Some(vector) ==> vector@.len() == 0,
    {
        let mut reserved: Vec<TextEdit> = Vec::new();
        if vec_try_reserve_exact(&mut reserved, self.edits.len()) {
            Some(reserved)
        } else {
            None
        }
    }

    /// Applies this transaction to `rope` at `actual_revision`, building
    /// its inverse in `reserved`, an empty vector with room for it: the
    /// changed rope and the exact inverse, or the first rejection, without
    /// touching `rope`.
    ///
    /// The base revision, the before-selection, every edit's ordered UTF-8
    /// range and removed text, the result length against
    /// `maximum_result_bytes`, and the after-selection are all validated.
    pub fn apply_with_reserved(
        &self,
        rope: &Rope,
        actual_revision: Revision,
        maximum_result_bytes: usize,
        reserved: Vec<TextEdit>,
    ) -> (result: Result<(Rope, AppliedTransaction), EditError>)
        requires
            reserved@.len() == 0,
        ensures
            ({
                let source = utf8_bytes(rope_chars(*rope));
                match apply_failure(*self, source, actual_revision, maximum_result_bytes) {
                    Some(error) => result == Err::<(Rope, AppliedTransaction), EditError>(error),
                    None => match result_selection_failure(*self, source) {
                        Some(error) => result == Err::<(Rope, AppliedTransaction), EditError>(
                            error,
                        ),
                        None => result matches Ok((changed, applied)) && applied_as(
                            *self,
                            source,
                            actual_revision,
                            changed,
                            applied,
                        ),
                    },
                }
            }),
    {
        let ghost source = utf8_bytes(rope_chars(*rope));
        let (next_revision, source_len) = match self.check_applicable(
            rope,
            actual_revision,
            maximum_result_bytes,
        ) {
            Ok(checked) => checked,
            Err(error) => return Err(error),
        };
        let inverse_edits = self.fill_inverse(reserved, source_len);
        let result = match self.apply_edits_to_copy(rope) {
            Ok(changed) => changed,
            Err(error) => return Err(error),
        };
        match validate_selection_rope(self.selection_after, &result, SelectionState::After) {
            Ok(()) => {},
            Err(error) => return Err(error),
        }
        let inverse = Self::new_with_intent(
            next_revision,
            inverse_edits,
            self.selection_after,
            self.selection_before,
            self.origin,
            self.intent,
            self.observed_at,
        );
        Ok(
            (
                result,
                AppliedTransaction {
                    base_revision: actual_revision,
                    revision: next_revision,
                    selection: self.selection_after,
                    inverse,
                },
            ),
        )
    }

    /// Applies this transaction to `rope` at `actual_revision`, producing the
    /// changed rope and the exact inverse, or rejecting it without touching
    /// `rope`. Every check runs before the allocator is asked for the
    /// inverse's room, so a refused allocation never hides a rejection; with
    /// the room granted, `apply_with_reserved` does the rest.
    pub fn apply_to(
        &self,
        rope: &Rope,
        actual_revision: Revision,
        maximum_result_bytes: usize,
    ) -> (result: Result<(Rope, AppliedTransaction), EditError>)
        ensures
            ({
                let source = utf8_bytes(rope_chars(*rope));
                match apply_failure(*self, source, actual_revision, maximum_result_bytes) {
                    Some(error) => result == Err::<(Rope, AppliedTransaction), EditError>(error),
                    None => match result {
                        Ok((changed, applied)) => {
                            &&& result_selection_failure(*self, source) is None
                            &&& applied_as(*self, source, actual_revision, changed, applied)
                        },
                        Err(EditError::AllocationUnavailable { requested_edits }) => requested_edits
                            == self.spec_edits().len(),
                        Err(error) => result_selection_failure(*self, source) == Some(error),
                    },
                }
            }),
    {
        match self.check_applicable(rope, actual_revision, maximum_result_bytes) {
            Ok(_) => {},
            Err(error) => return Err(error),
        }
        let reserved = match self.reserve_inverse() {
            Some(reserved) => reserved,
            None => return Err(EditError::AllocationUnavailable { requested_edits: self.edits.len() }),
        };
        self.apply_with_reserved(rope, actual_revision, maximum_result_bytes, reserved)
    }
}

/// What a successful application gives: the produced bytes, the base and
/// next revision, the after-selection, and the exact inverse.
pub open spec fn applied_as(
    transaction: EditTransaction,
    source: Seq<u8>,
    actual_revision: Revision,
    changed: Rope,
    applied: AppliedTransaction,
) -> bool {
    &&& utf8_bytes(rope_chars(changed)) == applied_bytes(transaction, source)
    &&& applied.spec_base_revision() == actual_revision
    &&& applied.spec_revision().spec_value() == actual_revision.spec_value() + 1
    &&& applied.spec_selection() == transaction.spec_selection_after()
    &&& is_inverse_of(applied.spec_inverse(), transaction, applied.spec_revision())
}

} // verus!
