//! A text buffer over exact source text that an editor sees in canonical LF
//! form: every edit is made on display characters, mapped back to source
//! bytes, so a CRLF pair is removed or kept whole, inserted newlines are
//! written in the buffer's insertion convention, line endings outside an
//! edit keep their bytes, and the source never exceeds its byte ceiling.

use vstd::prelude::*;
use vstd::string::StringExecFns;

use crate::line_endings::{
    lemma_normalize_bounds, normalize_inserted_text, normalize_within, LineEnding,
};
use crate::edit::{common_prefix_len, common_suffix_len};
use crate::edit::Selection;
use crate::projection::{
    canonical_endpoint, contains_carriage_return, display_of, display_selection_to_source,
    first_unit_len,
    endpoints_displayable, lemma_without_carriage_return, source_offset,
    source_selection_to_display, source_to_display, DisplayRange, SourceDisplayProjection,
};
use crate::text_bounds::{
    common_prefix_characters, common_suffix_characters, lemma_logical_span_bounds,
    logical_prefix, logical_span, source_cut, truncate_source_to_byte_limit,
};
use crate::text_buffer::{insert_chars, lemma_insert_chars_bytes, lemma_removal_bytes, removed_between, splice};
use crate::utf8_text::{chars_of, lemma_encode_concat, prefix_bytes, str_len, utf8_bytes};

verus! {

broadcast use vstd::seq_lib::group_seq_properties;

/// The state of a projected buffer as values: its source text, its byte
/// ceiling, how it writes inserted newlines, whether any input was cut or
/// refused, and the last deletion of a selection (its display start, its
/// source start in characters, and the removed source text when it was one
/// to four bytes).
pub struct ProjectedState {
    /// The exact source text.
    pub source: Seq<char>,
    /// The byte ceiling of the source.
    pub maximum: usize,
    /// How inserted newlines are written.
    pub insertion: LineEnding,
    /// Whether any input was cut or refused.
    pub was_limited: bool,
    /// The last deletion of a selection.
    pub deletion: Option<(usize, usize, Option<Seq<char>>)>,
}

impl ProjectedState {
    /// The source fits the ceiling.
    pub open spec fn within_ceiling(self) -> bool {
        utf8_bytes(self.source).len() <= self.maximum
    }
}

/// How many source characters the first `index` display characters stand
/// for, when `index` is a display position of `source`.
pub open spec fn display_span(source: Seq<char>, index: int) -> Option<int> {
    if 0 <= index <= display_of(source).len() {
        Some(logical_span(source, index))
    } else {
        None
    }
}

/// The display characters an insertion ending after source character `end`
/// of `changed` added past display position `index`: none when that end is
/// no display boundary.
pub open spec fn inserted_display_count(changed: Seq<char>, end: int, index: int) -> int {
    match source_to_display(changed, prefix_bytes(changed, end) as int) {
        Some(shown) => if shown >= index {
            shown - index
        } else {
            0
        },
        None => 0,
    }
}

/// Inserting `text` at display position `index`: nothing changes at a
/// position past the display. Otherwise the longest prefix of `text`
/// whose written form fits the room left goes in, with its newlines in the
/// insertion convention, and the display characters it added are counted;
/// but when none of a nonempty `text` fits and the last deletion started
/// at `index`, the deleted source goes back instead. The deletion is
/// forgotten.
pub open spec fn projected_insert_step(state: ProjectedState, text: Seq<char>, index: int) -> (
    ProjectedState,
    int,
) {
    match display_span(state.source, index) {
        None => (state, 0),
        Some(at) => {
            let remaining = state.maximum - utf8_bytes(state.source).len();
            let (written, consumed) = normalize_within(text, state.insertion, remaining);
            let limited = state.was_limited || consumed < text.len();
            let restores = match state.deletion {
                Some((start, _, Some(_))) => text.len() > 0 && written.len() == 0 && start
                    == index,
                _ => false,
            };
            if restores {
                let (_, source_start, removed) = state.deletion->0;
                (
                    ProjectedState {
                        source: insert_chars(state.source, source_start as int, removed->0),
                        was_limited: limited,
                        deletion: None,
                        ..state
                    },
                    0,
                )
            } else {
                let changed = state.source.take(at) + written + state.source.skip(at);
                (
                    ProjectedState {
                        source: changed,
                        was_limited: limited,
                        deletion: None,
                        ..state
                    },
                    inserted_display_count(changed, at + written.len(), index),
                )
            }
        },
    }
}

/// Deleting the display characters between `first` and `second`, in either
/// order, removes exactly their source; a position past the display
/// changes nothing but forgetting the last deletion.
pub open spec fn projected_delete_range(state: ProjectedState, first: int, second: int) -> ProjectedState {
    let low = if first <= second {
        first
    } else {
        second
    };
    let high = if first <= second {
        second
    } else {
        first
    };
    match (display_span(state.source, low), display_span(state.source, high)) {
        (Some(start), Some(end)) => ProjectedState {
            source: state.source.take(start) + state.source.skip(end),
            deletion: None,
            ..state
        },
        _ => ProjectedState { deletion: None, ..state },
    }
}

/// Deleting a display selection: its source is removed and remembered,
/// with the removed text itself when it was one to four bytes, and the
/// selection's start is the new cursor. A position past the display
/// changes nothing.
pub open spec fn projected_delete_selected(state: ProjectedState, first: int, second: int) -> (
    ProjectedState,
    int,
) {
    let low = if first <= second {
        first
    } else {
        second
    };
    let high = if first <= second {
        second
    } else {
        first
    };
    match (display_span(state.source, low), display_span(state.source, high)) {
        (Some(start), Some(end)) => {
            let removed = state.source.subrange(start, end);
            let bytes = utf8_bytes(removed).len();
            (
                ProjectedState {
                    source: state.source.take(start) + state.source.skip(end),
                    deletion: Some(
                        (
                            low as usize,
                            start as usize,
                            if 1 <= bytes && bytes <= 4 {
                                Some(removed)
                            } else {
                                None
                            },
                        ),
                    ),
                    ..state
                },
                low,
            )
        },
        _ => (state, low),
    }
}

/// Source cut to fit a ceiling fits it.
proof fn lemma_cut_fits(chars: Seq<char>, maximum: int)
    requires
        maximum >= 0,
    ensures
        utf8_bytes(chars.take(source_cut(chars, maximum))).len() <= maximum,
{
    crate::text_bounds::lemma_fitting_count(chars, maximum);
    let count = crate::text_bounds::fitting_count(chars, maximum);
    crate::utf8_text::lemma_prefix_bytes_monotone(chars, source_cut(chars, maximum), count);
}

/// More display characters stand for at least as many source characters.
proof fn lemma_logical_span_monotone(chars: Seq<char>, low: int, high: int)
    requires
        low <= high,
    ensures
        logical_span(chars, low) <= logical_span(chars, high),
    decreases chars.len(),
{
    if low > 0 && chars.len() > 0 {
        if chars.len() > 1 && chars[0] == '\r' && chars[1] == '\n' {
            lemma_logical_span_monotone(chars.skip(2), low - 1, high - 1);
        } else {
            lemma_logical_span_monotone(chars.drop_first(), low - 1, high - 1);
        }
    } else {
        lemma_logical_span_bounds(chars, high);
    }
}

/// Replacing the whole display with `text`: the canonical display of
/// `text` is compared with the current display, and only the source of
/// the differing middle is replaced, by that middle written in the
/// insertion convention and cut to the room the rest leaves; line endings
/// in the shared prefix and suffix keep their source bytes.
pub open spec fn projected_replace_with(state: ProjectedState, text: Seq<char>) -> ProjectedState {
    let current = display_of(state.source);
    let replacement = display_of(text);
    let prefix = common_prefix_len(current, replacement) as int;
    let shorter = if current.len() <= replacement.len() {
        current.len() as int
    } else {
        replacement.len() as int
    };
    let room = if shorter > prefix {
        shorter - prefix
    } else {
        0
    };
    let suffix = if common_suffix_len(current, replacement) < room {
        common_suffix_len(current, replacement) as int
    } else {
        room
    };
    let current_end = current.len() - suffix;
    let replacement_end = replacement.len() - suffix;
    let start = logical_span(state.source, prefix);
    let end = logical_span(state.source, current_end);
    let kept = state.source.take(start) + state.source.skip(end);
    let middle = replacement.subrange(prefix, replacement_end);
    let (written, consumed) = normalize_within(
        middle,
        state.insertion,
        state.maximum - utf8_bytes(kept).len(),
    );
    ProjectedState {
        source: kept.take(start) + written + kept.skip(start),
        was_limited: state.was_limited || consumed < middle.len(),
        deletion: None,
        ..state
    }
}

/// A shared prefix is no longer than either text.
proof fn lemma_common_prefix_bounds(a: Seq<char>, b: Seq<char>)
    ensures
        common_prefix_len(a, b) <= a.len(),
        common_prefix_len(a, b) <= b.len(),
    decreases a.len(),
{
    if a.len() > 0 && b.len() > 0 && a[0] == b[0] {
        lemma_common_prefix_bounds(a.drop_first(), b.drop_first());
    }
}

/// Appending text never shortens the display of what came before: a CR
/// that meets an LF shows as one LF either way.
proof fn lemma_display_append_len(a: Seq<char>, b: Seq<char>)
    ensures
        display_of(a + b).len() >= display_of(a).len(),
    decreases a.len(),
{
    if a.len() > 0 {
        let joined = a + b;
        assert(joined[0] == a[0]);
        if a.len() > 1 {
            assert(joined[1] == a[1]);
        }
        if a.len() > 1 && a[0] == '\r' && a[1] == '\n' {
            assert(first_unit_len(joined) == 2);
            assert(first_unit_len(a) == 2);
            assert(joined.skip(2) =~= a.skip(2) + b);
            lemma_display_append_len(a.skip(2), b);
            assert(display_of(joined).len() == 1 + display_of(joined.skip(2)).len());
            assert(display_of(a).len() == 1 + display_of(a.skip(2)).len());
        } else if a.len() == 1 && a[0] == '\r' && b.len() > 0 && b[0] == '\n' {
            assert(joined[1] == b[0]);
            assert(first_unit_len(a) == 1);
            assert(a.skip(1) =~= Seq::<char>::empty());
            assert(display_of(a.skip(1)) =~= Seq::<char>::empty());
            assert(display_of(a).len() == 1 + display_of(a.skip(1)).len());
            assert(display_of(joined).len() == 1 + display_of(joined.skip(first_unit_len(joined))).len());
        } else {
            if a.len() == 1 && b.len() > 0 {
                assert(joined[1] == b[0]);
            }
            assert(first_unit_len(joined) == 1);
            assert(first_unit_len(a) == 1);
            assert(joined.skip(1) =~= a.skip(1) + b);
            lemma_display_append_len(a.skip(1), b);
            assert(display_of(joined).len() == 1 + display_of(joined.skip(1)).len());
            assert(display_of(a).len() == 1 + display_of(a.skip(1)).len());
        }
    }
}

/// A display is never longer than its source.
proof fn lemma_display_len_bound(chars: Seq<char>)
    ensures
        display_of(chars).len() <= chars.len(),
    decreases chars.len(),
{
    if chars.len() > 0 {
        lemma_display_len_bound(chars.skip(first_unit_len(chars)));
    }
}

/// The source standing for the first `count` display characters displays
/// as exactly `count` characters.
proof fn lemma_span_display_len(source: Seq<char>, count: int)
    requires
        0 <= count <= display_of(source).len(),
    ensures
        display_of(source.take(logical_span(source, count))).len() == count,
    decreases source.len(),
{
    lemma_logical_span_bounds(source, count);
    if count == 0 {
        assert(source.take(0) =~= Seq::<char>::empty());
    } else {
        let unit = first_unit_len(source);
        let rest = source.skip(unit);
        let span = logical_span(source, count);
        lemma_span_display_len(rest, count - 1);
        lemma_logical_span_bounds(rest, count - 1);
        let taken = source.take(span);
        assert(taken[0] == source[0]);
        if unit == 2 {
            assert(logical_span(source, count) == 2 + logical_span(source.skip(2), count - 1));
            assert(taken[1] == source[1]);
            assert(first_unit_len(taken) == 2);
        } else {
            assert(logical_span(source, count) == 1 + logical_span(source.drop_first(), count - 1));
            assert(source.drop_first() =~= rest);
            if span > 1 {
                assert(taken[1] == source[1]);
            }
            assert(first_unit_len(taken) == 1);
        }
        assert(taken.skip(unit) =~= rest.take(logical_span(rest, count - 1)));
    }
}

/// After a display selection's source is removed, its start is still a
/// display position.
proof fn lemma_cursor_stays_shown(source: Seq<char>, low: int, high: int)
    requires
        0 <= low <= high <= display_of(source).len(),
    ensures
        low <= display_of(
            source.take(logical_span(source, low)) + source.skip(logical_span(source, high)),
        ).len(),
{
    lemma_span_display_len(source, low);
    lemma_display_append_len(
        source.take(logical_span(source, low)),
        source.skip(logical_span(source, high)),
    );
}

/// A refused replacement gives back exactly the source the selection held.
///
/// Deleting a display selection (both ends display positions) whose source
/// is one to four bytes, then
/// inserting at the returned cursor a nonempty text of which nothing fits,
/// leaves the original source and counts nothing inserted.
#[verifier::rlimit(40)]
pub proof fn lemma_refused_projected_replacement_restores(
    state: ProjectedState,
    first: int,
    second: int,
    text: Seq<char>,
)
    requires
        utf8_bytes(state.source).len() <= state.maximum,
        0 <= first <= display_of(state.source).len(),
        0 <= second <= display_of(state.source).len(),
        projected_delete_selected(state, first, second).0.deletion matches Some((_, _, Some(_))),
        text.len() > 0,
        normalize_within(
            text,
            state.insertion,
            state.maximum - utf8_bytes(projected_delete_selected(state, first, second).0.source).len(),
        ).0.len() == 0,
    ensures
        projected_insert_step(
            projected_delete_selected(state, first, second).0,
            text,
            projected_delete_selected(state, first, second).1,
        ).0.source == state.source,
        projected_insert_step(
            projected_delete_selected(state, first, second).0,
            text,
            projected_delete_selected(state, first, second).1,
        ).1 == 0,
{
    let low = if first <= second {
        first
    } else {
        second
    };
    let high = if first <= second {
        second
    } else {
        first
    };
    let source = state.source;
    assert(display_span(source, low) is Some && display_span(source, high) is Some);
    let start = logical_span(source, low);
    let end = logical_span(source, high);
    let (deleted, cursor) = projected_delete_selected(state, first, second);
    lemma_logical_span_bounds(source, low);
    lemma_logical_span_bounds(source, high);
    lemma_logical_span_monotone(source, low, high);
    let shortened = source.take(start) + source.skip(end);
    assert(deleted.source == shortened);
    assert(cursor == low);
    assert(display_span(shortened, cursor) is Some) by {
        lemma_cursor_stays_shown(source, low, high);
    }
    lemma_display_len_bound(source);
    crate::text_bounds::lemma_count_le_bytes(source, source.len() as int);
    crate::utf8_text::lemma_prefix_bytes_full(source);
    let removed = source.subrange(start, end);
    assert(deleted.deletion == Some((low as usize, start as usize, Some(removed))));
    let remaining = state.maximum - utf8_bytes(shortened).len();
    let (written, consumed) = normalize_within(text, state.insertion, remaining);
    assert(written.len() == 0);
    assert(shortened.len() >= start);
    assert(crate::text_buffer::clamp_count(shortened, start) == start);
    assert(shortened.take(start) =~= source.take(start));
    assert(shortened.skip(start) =~= source.skip(end));
    assert(shortened.take(start) + removed + shortened.skip(start) =~= source);
    assert(insert_chars(shortened, start, removed) == source);
}

/// A removal that a refused replacement at the same place gives back.
struct ProjectedRecentDeletion {
    display_start: usize,
    source_start: usize,
    removed: Option<String>,
}

/// A bounded editor buffer over exact source text shown in canonical LF
/// form.
pub struct ProjectedTextBuffer {
    source: String,
    display: String,
    maximum: usize,
    insertion: LineEnding,
    was_limited: bool,
    recent_deletion: Option<ProjectedRecentDeletion>,
}

impl View for ProjectedTextBuffer {
    type V = ProjectedState;

    closed spec fn view(&self) -> ProjectedState {
        ProjectedState {
            source: self.source@,
            maximum: self.maximum,
            insertion: self.insertion,
            was_limited: self.was_limited,
            deletion: match self.recent_deletion {
                Some(deletion) => Some(
                    (
                        deletion.display_start,
                        deletion.source_start,
                        match deletion.removed {
                            Some(removed) => Some(removed@),
                            None => None,
                        },
                    ),
                ),
                None => None,
            },
        }
    }
}

/// Returns the canonical display of `source`.
fn display_text(source: &str) -> (display: String)
    ensures
        display@ == display_of(source@),
{
    let projection = SourceDisplayProjection::new(source);
    projection.display().to_owned()
}

impl ProjectedTextBuffer {
    /// The source fits the ceiling, the display is the source's, and a
    /// remembered deletion fits back where it came from.
    #[verifier::type_invariant]
    spec fn fits(self) -> bool {
        &&& utf8_bytes(self.source@).len() <= self.maximum
        &&& self.display@ == display_of(self.source@)
        &&& match self.recent_deletion {
            Some(deletion) => deletion.source_start <= self.source@.len() && match deletion.removed {
                Some(removed) => utf8_bytes(self.source@).len() + utf8_bytes(removed@).len()
                    <= self.maximum,
                None => true,
            },
            None => true,
        }
    }

    /// Wraps `source`, first cutting it to fit `maximum` bytes without
    /// splitting a scalar or a CRLF pair; the cut counts as limiting.
    pub fn new(source: String, maximum: usize, insertion: LineEnding) -> (buffer: Self)
        ensures
            buffer@.source == if utf8_bytes(source@).len() > maximum {
                source@.take(source_cut(source@, maximum as int))
            } else {
                source@
            },
            buffer@.maximum == maximum,
            buffer@.insertion == insertion,
            buffer@.was_limited == (utf8_bytes(source@).len() > maximum),
            buffer@.deletion is None,
            buffer@.within_ceiling(),
    {
        let ghost original = source@;
        let mut source = source;
        let was_limited = truncate_source_to_byte_limit(&mut source, maximum);
        proof {
            lemma_cut_fits(original, maximum as int);
        }
        let display = display_text(source.as_str());
        ProjectedTextBuffer {
            source,
            display,
            maximum,
            insertion,
            was_limited,
            recent_deletion: None,
        }
    }

    /// Whether any input was cut or refused.
    pub fn was_limited(&self) -> (limited: bool)
        ensures
            limited == self@.was_limited,
    {
        self.was_limited
    }

    /// Returns the exact source text.
    pub fn source(&self) -> (source: &str)
        ensures
            source@ == self@.source,
    {
        self.source.as_str()
    }

    /// Returns the canonical display for layout. Laying the text out ends
    /// any pairing of a deletion with the replacement that follows it.
    pub fn as_str(&mut self) -> (text: &str)
        ensures
            text@ == display_of(old(self)@.source),
            final(self)@ == (ProjectedState { deletion: None, ..old(self)@ }),
    {
        proof {
            use_type_invariant(&*self);
        }
        self.recent_deletion = None;
        self.display.as_str()
    }

    /// The source characters the first `index` display characters stand
    /// for, when `index` is a display position.
    fn span_of(&self, index: usize) -> (span: Option<usize>)
        ensures
            span == match display_span(self@.source, index as int) {
                Some(span) => Some(span as usize),
                None => None::<usize>,
            },
            span matches Some(span) ==> span <= self@.source.len() && span == logical_span(
                self@.source,
                index as int,
            ),
    {
        proof {
            use_type_invariant(self);
            lemma_logical_span_bounds(self.source@, index as int);
        }
        let shown = chars_of(self.display.as_str()).len();
        if index > shown {
            return None;
        }
        let prefix = logical_prefix(self.source.as_str(), index);
        Some(chars_of(prefix).len())
    }

    /// Removes the source of the display characters between `first` and
    /// `second`, in either order.
    pub fn delete_char_range(&mut self, first: usize, second: usize)
        ensures
            final(self)@ == projected_delete_range(old(self)@, first as int, second as int),
            final(self)@.within_ceiling(),
    {
        proof {
            use_type_invariant(&*self);
        }
        self.recent_deletion = None;
        let (low, high) = if first <= second {
            (first, second)
        } else {
            (second, first)
        };
        let start = match self.span_of(low) {
            Some(start) => start,
            None => return,
        };
        let end = match self.span_of(high) {
            Some(end) => end,
            None => return,
        };
        proof {
            lemma_logical_span_monotone(self.source@, low as int, high as int);
            lemma_removal_bytes(self.source@, start as int, end as int);
        }
        let shortened = splice(self.source.as_str(), start, end, "");
        proof {
            reveal_strlit("");
        }
        let display = display_text(shortened.as_str());
        *self = ProjectedTextBuffer {
            source: shortened,
            display,
            maximum: self.maximum,
            insertion: self.insertion,
            was_limited: self.was_limited,
            recent_deletion: None,
        };
    }

    /// Inserts at display position `display_index` the longest prefix of
    /// `text` whose written form fits, its newlines in the insertion
    /// convention, or gives back the last deletion when none of `text`
    /// fits there; returns the display characters added.
    pub fn insert_text(&mut self, text: &str, display_index: usize) -> (count: usize)
        ensures
            (final(self)@, count as int) == projected_insert_step(
                old(self)@,
                text@,
                display_index as int,
            ),
            final(self)@.within_ceiling(),
    {
        proof {
            use_type_invariant(&*self);
        }
        let at = match self.span_of(display_index) {
            Some(at) => at,
            None => return 0,
        };
        let ghost before = self.source@;
        let length = str_len(self.source.as_str());
        let remaining = self.maximum - length;
        let normalized = normalize_inserted_text(text, self.insertion, remaining);
        let limited = self.was_limited || normalized.was_limited;
        let mut recent: Option<ProjectedRecentDeletion> = None;
        core::mem::swap(&mut recent, &mut self.recent_deletion);
        if let Some(deletion) = recent {
            if !text.is_empty() && normalized.text.as_str().is_empty() && deletion.display_start
                == display_index {
                if let Some(removed) = deletion.removed {
                    let restored = splice(
                        self.source.as_str(),
                        deletion.source_start,
                        deletion.source_start,
                        removed.as_str(),
                    );
                    proof {
                        lemma_insert_chars_bytes(before, deletion.source_start as int, removed@);
                        assert(restored@ =~= insert_chars(
                            before,
                            deletion.source_start as int,
                            removed@,
                        ));
                    }
                    let display = display_text(restored.as_str());
                    *self = ProjectedTextBuffer {
                        source: restored,
                        display,
                        maximum: self.maximum,
                        insertion: self.insertion,
                        was_limited: limited,
                        recent_deletion: None,
                    };
                    return 0;
                }
            }
        }
        let changed = splice(self.source.as_str(), at, at, normalized.text.as_str());
        let ghost written = normalized.text@;
        proof {
            lemma_insert_chars_bytes(before, at as int, written);
            assert(changed@ =~= insert_chars(before, at as int, written));
            assert(changed@.take(at + written.len()) =~= before.take(at as int) + written);
            lemma_encode_concat(before.take(at as int), written);
        }
        let prefix_length = str_len(logical_prefix(self.source.as_str(), display_index));
        let end_byte = prefix_length + str_len(normalized.text.as_str());
        let projection = SourceDisplayProjection::new(changed.as_str());
        let shown = projection.source_byte_to_display_char(end_byte);
        let count = match shown {
            Some(shown) => if shown >= display_index {
                shown - display_index
            } else {
                0
            },
            None => 0,
        };
        let display = display_text(changed.as_str());
        *self = ProjectedTextBuffer {
            source: changed,
            display,
            maximum: self.maximum,
            insertion: self.insertion,
            was_limited: limited,
            recent_deletion: None,
        };
        count
    }

    /// Inserts at display cursor `cursor` what `char_limit` leaves room for
    /// of `text` (all of it when there is no limit, `usize::MAX`; else as
    /// many leading logical characters, a CRLF counting once, as the limit
    /// leaves beside the display), as `insert_text` does, and returns the
    /// cursor moved past what went in.
    pub fn insert_text_at(&mut self, cursor: usize, text: &str, char_limit: usize) -> (moved: usize)
        ensures
            ({
                let offered = if char_limit == usize::MAX {
                    text@
                } else {
                    let shown = display_of(old(self)@.source).len();
                    let available = if char_limit > shown {
                        char_limit - shown
                    } else {
                        0
                    };
                    text@.take(logical_span(text@, available))
                };
                let (state, count) = projected_insert_step(old(self)@, offered, cursor as int);
                &&& final(self)@ == state
                &&& moved == if cursor + count > usize::MAX {
                    usize::MAX as int
                } else {
                    cursor + count
                }
            }),
            final(self)@.within_ceiling(),
    {
        proof {
            use_type_invariant(&*self);
        }
        let offered = if char_limit == usize::MAX {
            text
        } else {
            let shown = chars_of(self.display.as_str()).len();
            let available = char_limit.saturating_sub(shown);
            logical_prefix(text, available)
        };
        let count = self.insert_text(offered, cursor);
        cursor.saturating_add(count)
    }

    /// Deletes the source of the display selection between `first` and
    /// `second`, in either order, remembering it for a refused replacement
    /// that follows; returns the selection's start as the new cursor.
    pub fn delete_selected(&mut self, first: usize, second: usize) -> (cursor: usize)
        ensures
            (final(self)@, cursor as int) == projected_delete_selected(
                old(self)@,
                first as int,
                second as int,
            ),
            final(self)@.within_ceiling(),
    {
        proof {
            use_type_invariant(&*self);
        }
        let (low, high) = if first <= second {
            (first, second)
        } else {
            (second, first)
        };
        let start = match self.span_of(low) {
            Some(start) => start,
            None => return low,
        };
        let end = match self.span_of(high) {
            Some(end) => end,
            None => return low,
        };
        proof {
            lemma_logical_span_monotone(self.source@, low as int, high as int);
            lemma_removal_bytes(self.source@, start as int, end as int);
        }
        let removed = removed_between(self.source.as_str(), start, end);
        let removed_length = str_len(removed.as_str());
        let shortened = splice(self.source.as_str(), start, end, "");
        proof {
            reveal_strlit("");
        }
        let kept = if 1 <= removed_length && removed_length <= 4 {
            Some(removed)
        } else {
            None
        };
        let display = display_text(shortened.as_str());
        *self = ProjectedTextBuffer {
            source: shortened,
            display,
            maximum: self.maximum,
            insertion: self.insertion,
            was_limited: self.was_limited,
            recent_deletion: Some(
                ProjectedRecentDeletion { display_start: low, source_start: start, removed: kept },
            ),
        };
        low
    }

    /// Replaces the whole display with `text` by one minimal edit of the
    /// source.
    #[verifier::rlimit(40)]
    pub fn replace_with(&mut self, text: &str)
        ensures
            final(self)@ == projected_replace_with(old(self)@, text@),
            final(self)@.within_ceiling(),
    {
        proof {
            use_type_invariant(&*self);
        }
        self.recent_deletion = None;
        let canonical = if contains_carriage_return(text) {
            display_text(text)
        } else {
            proof {
                lemma_without_carriage_return(text@, 0);
            }
            text.to_owned()
        };
        let ghost before = self.source@;
        let current = self.display.as_str();
        let prefix = common_prefix_characters(current, canonical.as_str());
        let current_count = chars_of(current).len();
        let replacement_count = chars_of(canonical.as_str()).len();
        proof {
            lemma_common_prefix_bounds(current@, canonical@);
        }
        let shorter = if current_count <= replacement_count {
            current_count
        } else {
            replacement_count
        };
        let maximum_suffix = shorter.saturating_sub(prefix);
        let suffix = common_suffix_characters(current, canonical.as_str(), maximum_suffix);
        let current_end = current_count - suffix;
        let replacement_end = replacement_count - suffix;
        let start = match self.span_of(prefix) {
            Some(start) => start,
            None => return,
        };
        let end = match self.span_of(current_end) {
            Some(end) => end,
            None => return,
        };
        proof {
            lemma_logical_span_monotone(before, prefix as int, current_end as int);
            lemma_removal_bytes(before, start as int, end as int);
        }
        let middle = removed_between(canonical.as_str(), prefix, replacement_end);
        let kept = splice(self.source.as_str(), start, end, "");
        proof {
            reveal_strlit("");
        }
        let retained = str_len(kept.as_str());
        let normalized = normalize_inserted_text(middle.as_str(), self.insertion, self.maximum - retained);
        let replaced = splice(kept.as_str(), start, start, normalized.text.as_str());
        proof {
            lemma_insert_chars_bytes(kept@, start as int, normalized.text@);
            assert(replaced@ =~= insert_chars(kept@, start as int, normalized.text@));
        }
        let display = display_text(replaced.as_str());
        *self = ProjectedTextBuffer {
            source: replaced,
            display,
            maximum: self.maximum,
            insertion: self.insertion,
            was_limited: self.was_limited || normalized.was_limited,
            recent_deletion: None,
        };
    }

    /// Maps a directional display selection to exact source bytes.
    pub fn selection_to_source(&self, range: DisplayRange) -> (selection: Option<Selection>)
        ensures
            selection == if range.secondary <= display_of(self@.source).len() && range.primary
                <= display_of(self@.source).len() {
                Some(
                    Selection::spec_new(
                        source_offset(self@.source, range.secondary as int) as usize,
                        source_offset(self@.source, range.primary as int) as usize,
                    ),
                )
            } else {
                None::<Selection>
            },
    {
        display_selection_to_source(self.source.as_str(), range)
    }

    /// Maps a directional source selection to display cursors: each end at
    /// its canonical display boundary, or `None` when an end cannot be
    /// shown.
    pub fn selection_to_display(&self, selection: Selection) -> (range: Option<DisplayRange>)
        ensures
            match range {
                Some(range) => match (
                    canonical_endpoint(self@.source, selection, selection.spec_anchor() as int),
                    canonical_endpoint(self@.source, selection, selection.spec_active() as int),
                ) {
                    (Some(anchor), Some(active)) => {
                        &&& range.secondary <= display_of(self@.source).len()
                        &&& range.primary <= display_of(self@.source).len()
                        &&& source_offset(self@.source, range.secondary as int) == anchor
                        &&& source_offset(self@.source, range.primary as int) == active
                    },
                    _ => false,
                },
                None => !endpoints_displayable(self@.source, selection),
            },
    {
        source_selection_to_display(self.source.as_str(), selection)
    }

    /// Empties the source.
    pub fn clear(&mut self)
        ensures
            final(self)@ == (ProjectedState {
                source: Seq::<char>::empty(),
                deletion: None,
                ..old(self)@
            }),
    {
        let source = String::new();
        let display = String::new();
        proof {
            assert(display_of(source@) =~= display@);
            assert(utf8_bytes(source@) =~= Seq::<u8>::empty());
        }
        *self = ProjectedTextBuffer {
            source,
            display,
            maximum: self.maximum,
            insertion: self.insertion,
            was_limited: self.was_limited,
            recent_deletion: None,
        };
    }

    /// Returns the canonical display and empties the source.
    pub fn take(&mut self) -> (taken: String)
        ensures
            taken@ == display_of(old(self)@.source),
            final(self)@ == (ProjectedState {
                source: Seq::<char>::empty(),
                deletion: None,
                ..old(self)@
            }),
    {
        proof {
            use_type_invariant(&*self);
        }
        let taken = self.display.clone();
        self.clear();
        taken
    }
}

} // verus!
