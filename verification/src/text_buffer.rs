//! A text buffer with an exact UTF-8 byte ceiling that every mutation
//! respects: insertions keep the longest prefix that fits, and a small
//! deletion that a refused replacement at the same place follows is given
//! back, so replacing a selection never loses text it could not replace.

use vstd::prelude::*;

use crate::text_bounds::{
    byte_index_at_char, fitting_count, lemma_fitting_count, truncate_to_utf8_byte_limit,
    utf8_prefix,
};
use crate::utf8_text::{
    char_count_at, chars_of, lemma_char_count_at, lemma_encode_concat, lemma_prefix_bytes_full,
    lemma_prefix_bytes_monotone, lemma_prefix_is_boundary, prefix_bytes, str_len, str_slice,
    utf8_bytes,
};

verus! {

/// A character count clamped to the end of `chars`.
pub open spec fn clamp_count(chars: Seq<char>, index: int) -> int {
    if index < chars.len() {
        index
    } else {
        chars.len() as int
    }
}

/// `text` inserted into `value` before character `index`, or at the end
/// when `index` is past it.
pub open spec fn insert_chars(value: Seq<char>, index: int, text: Seq<char>) -> Seq<char> {
    value.take(clamp_count(value, index)) + text + value.skip(clamp_count(value, index))
}

/// The lower end of a character range given in either order, clamped.
pub open spec fn range_low(value: Seq<char>, first: int, second: int) -> int {
    clamp_count(
        value,
        if first <= second {
            first
        } else {
            second
        },
    )
}

/// The upper end of a character range given in either order, clamped.
pub open spec fn range_high(value: Seq<char>, first: int, second: int) -> int {
    clamp_count(
        value,
        if first <= second {
            second
        } else {
            first
        },
    )
}

/// `value` without the characters between `first` and `second`.
pub open spec fn remove_chars(value: Seq<char>, first: int, second: int) -> Seq<char> {
    value.take(range_low(value, first, second)) + value.skip(range_high(value, first, second))
}

/// The state of a bounded buffer as values: its text, its ceiling, whether
/// any input was refused or cut, and the last small deletion that a refused
/// replacement would give back (where it started, what it removed).
pub struct BufferState {
    /// The text.
    pub value: Seq<char>,
    /// The byte ceiling.
    pub maximum: usize,
    /// Whether any input was cut or refused.
    pub was_limited: bool,
    /// The last small deletion: its start character and the removed text.
    pub deletion: Option<(usize, Seq<char>)>,
}

impl BufferState {
    /// The text fits the ceiling.
    pub open spec fn within_ceiling(self) -> bool {
        utf8_bytes(self.value).len() <= self.maximum
    }
}

/// Inserting `text` before character `index`: the longest prefix of `text`
/// that fits under the ceiling goes in, and its character count is
/// returned; but when none of a nonempty `text` fits and the last deletion
/// started at `index`, the deleted text goes back instead and nothing is
/// counted. Either way the deletion is forgotten.
pub open spec fn insert_step(state: BufferState, text: Seq<char>, index: int) -> (BufferState, int) {
    let remaining = state.maximum - utf8_bytes(state.value).len();
    let kept = text.take(fitting_count(text, remaining));
    let limited = state.was_limited || utf8_bytes(kept).len() != utf8_bytes(text).len();
    let restores = match state.deletion {
        Some((start, _)) => text.len() > 0 && kept.len() == 0 && start == index,
        None => false,
    };
    if restores {
        (
            BufferState {
                value: insert_chars(state.value, state.deletion.unwrap().0 as int, state.deletion.unwrap().1),
                maximum: state.maximum,
                was_limited: limited,
                deletion: None,
            },
            0,
        )
    } else {
        (
            BufferState {
                value: insert_chars(state.value, index, kept),
                maximum: state.maximum,
                was_limited: limited,
                deletion: None,
            },
            kept.len() as int,
        )
    }
}

/// Deleting the characters between `first` and `second` (in either order)
/// as a selection: a removal of one to three bytes is remembered with the
/// selection's start, and that start is returned as the new cursor.
pub open spec fn delete_step(state: BufferState, first: int, second: int) -> (BufferState, int) {
    let low = range_low(state.value, first, second);
    let high = range_high(state.value, first, second);
    let removed = state.value.subrange(low, high);
    let start = if first <= second {
        first
    } else {
        second
    };
    let bytes = utf8_bytes(removed).len();
    (
        BufferState {
            value: remove_chars(state.value, first, second),
            maximum: state.maximum,
            was_limited: state.was_limited,
            deletion: if 1 <= bytes && bytes < 4 {
                Some((start as usize, removed))
            } else {
                None
            },
        },
        start,
    )
}

/// What a cursor insertion offers under a character limit: all of `text`
/// when there is no limit (`usize::MAX`), else as many leading characters
/// as the limit leaves room for beside `value`.
pub open spec fn offered_text(value: Seq<char>, text: Seq<char>, char_limit: usize) -> Seq<char> {
    if char_limit == usize::MAX {
        text
    } else {
        let cutoff = if char_limit > value.len() {
            char_limit - value.len()
        } else {
            0
        };
        if cutoff < text.len() {
            text.take(cutoff)
        } else {
            text
        }
    }
}

/// The characters and bytes of an insertion add up.
pub proof fn lemma_insert_chars_bytes(value: Seq<char>, index: int, text: Seq<char>)
    requires
        0 <= index,
    ensures
        utf8_bytes(insert_chars(value, index, text)).len() == utf8_bytes(value).len() + utf8_bytes(
            text,
        ).len(),
        insert_chars(value, index, text).len() == value.len() + text.len(),
{
    lemma_encode_concat(value.take(clamp_count(value, index)) + text, value.skip(clamp_count(value, index)));
    lemma_encode_concat(value.take(clamp_count(value, index)), text);
    lemma_encode_concat(value.take(clamp_count(value, index)), value.skip(clamp_count(value, index)));
    assert(value.take(clamp_count(value, index)) + value.skip(clamp_count(value, index)) =~= value);
}

/// A refused replacement gives back exactly what the selection held.
///
/// Deleting a selection of one to three bytes from text within its
/// ceiling, then inserting a nonempty text of which nothing fits at the
/// returned cursor, leaves the original text and counts nothing inserted.
pub proof fn lemma_refused_replacement_restores(
    state: BufferState,
    first: usize,
    second: usize,
    text: Seq<char>,
)
    requires
        utf8_bytes(state.value).len() <= state.maximum,
        delete_step(state, first as int, second as int).0.deletion is Some,
        text.len() > 0,
        fitting_count(
            text,
            state.maximum - utf8_bytes(delete_step(state, first as int, second as int).0.value).len(),
        ) == 0,
    ensures
        insert_step(
            delete_step(state, first as int, second as int).0,
            text,
            delete_step(state, first as int, second as int).1,
        ).0.value == state.value,
        insert_step(
            delete_step(state, first as int, second as int).0,
            text,
            delete_step(state, first as int, second as int).1,
        ).1 == 0,
{
    let value = state.value;
    let low = range_low(value, first as int, second as int);
    let high = range_high(value, first as int, second as int);
    let (deleted, start) = delete_step(state, first as int, second as int);
    let removed = value.subrange(low, high);
    assert(removed.len() > 0) by {
        if removed.len() == 0 {
            assert(removed =~= Seq::<char>::empty());
            assert(utf8_bytes(removed).len() == 0);
        }
    }
    assert(low == start);
    assert(deleted.value.take(low) =~= value.take(low));
    assert(deleted.value.skip(low) =~= value.skip(high));
    assert(deleted.value.take(low) + removed + deleted.value.skip(low) =~= value);
}

/// A removal that a refused replacement at the same place gives back.
struct RecentDeletion {
    start: usize,
    removed: String,
}

/// A text editor buffer with an exact UTF-8 byte ceiling.
pub struct BoundedTextBuffer {
    value: String,
    maximum: usize,
    was_limited: bool,
    recent_deletion: Option<RecentDeletion>,
}

impl View for BoundedTextBuffer {
    type V = BufferState;

    closed spec fn view(&self) -> BufferState {
        BufferState {
            value: self.value@,
            maximum: self.maximum,
            was_limited: self.was_limited,
            deletion: match self.recent_deletion {
                Some(deletion) => Some((deletion.start, deletion.removed@)),
                None => None,
            },
        }
    }
}

/// Returns `value` with the characters from `start` to `end` replaced by
/// `insert`.
pub(crate) fn splice(value: &str, start: usize, end: usize, insert: &str) -> (spliced: String)
    requires
        start <= end <= value@.len(),
    ensures
        spliced@ == value@.take(start as int) + insert@ + value@.skip(end as int),
{
    let ghost chars = value@;
    let length = str_len(value);
    proof {
        lemma_prefix_bytes_full(chars);
        lemma_prefix_is_boundary(chars, 0);
        lemma_prefix_is_boundary(chars, start as int);
        lemma_prefix_is_boundary(chars, end as int);
        lemma_prefix_is_boundary(chars, chars.len() as int);
        lemma_prefix_bytes_monotone(chars, start as int, end as int);
        lemma_prefix_bytes_monotone(chars, end as int, chars.len() as int);
        assert(prefix_bytes(chars, 0) == 0);
        assert(chars.take(chars.len() as int) =~= chars);
    }
    let first = match byte_index_at_char(value, start) {
        Some(byte) => byte,
        None => 0,
    };
    let second = match byte_index_at_char(value, end) {
        Some(byte) => byte,
        None => length,
    };
    proof {
        lemma_char_count_at(chars, 0);
        lemma_char_count_at(chars, first as int);
        lemma_char_count_at(chars, second as int);
        lemma_char_count_at(chars, length as int);
        assert(chars.subrange(0, start as int) =~= chars.take(start as int));
        assert(chars.subrange(end as int, chars.len() as int) =~= chars.skip(end as int));
    }
    let mut spliced = str_slice(value, 0, first).to_owned();
    spliced.append(insert);
    spliced.append(str_slice(value, second, length));
    spliced
}

impl BoundedTextBuffer {
    /// The text never exceeds the ceiling, and a remembered deletion fits
    /// back where it came from.
    #[verifier::type_invariant]
    spec fn fits(self) -> bool {
        &&& utf8_bytes(self.value@).len() <= self.maximum
        &&& match self.recent_deletion {
            Some(deletion) => deletion.start <= self.value@.len() && utf8_bytes(self.value@).len()
                + utf8_bytes(deletion.removed@).len() <= self.maximum,
            None => true,
        }
    }

    /// Wraps `value`, first cutting it to the longest prefix that fits in
    /// `maximum` bytes; the cut counts as limiting.
    pub fn new(value: String, maximum: usize) -> (buffer: Self)
        ensures
            buffer@.value == value@.take(fitting_count(value@, maximum as int)),
            buffer@.maximum == maximum,
            buffer@.was_limited == (utf8_bytes(value@).len() > maximum),
            buffer@.deletion is None,
            buffer@.within_ceiling(),
    {
        let mut value = value;
        let ghost original = value@;
        let was_limited = truncate_to_utf8_byte_limit(&mut value, maximum);
        proof {
            lemma_fitting_count(original, maximum as int);
        }
        BoundedTextBuffer { value, maximum, was_limited, recent_deletion: None }
    }

    /// The buffer accepts edits.
    pub fn is_mutable(&self) -> (mutable: bool)
        ensures
            mutable,
    {
        true
    }

    /// Whether any input was cut or refused.
    pub fn was_limited(&self) -> (limited: bool)
        ensures
            limited == self@.was_limited,
    {
        self.was_limited
    }

    /// Returns the text for layout. Laying the text out ends any pairing of
    /// a deletion with the replacement that follows it.
    pub fn as_str(&mut self) -> (text: &str)
        ensures
            text@ == old(self)@.value,
            final(self)@ == (BufferState { deletion: None, ..old(self)@ }),
            final(self)@.within_ceiling(),
    {
        proof {
            use_type_invariant(&*self);
        }
        self.recent_deletion = None;
        self.value.as_str()
    }

    /// Inserts the longest prefix of `text` that fits before character
    /// `char_index`, or gives back the last deletion when none of `text`
    /// fits there; returns the number of characters inserted.
    pub fn insert_text(&mut self, text: &str, char_index: usize) -> (count: usize)
        ensures
            (final(self)@, count as int) == insert_step(old(self)@, text@, char_index as int),
            final(self)@.within_ceiling(),
    {
        proof {
            use_type_invariant(&*self);
        }
        let length = str_len(self.value.as_str());
        let remaining = self.maximum - length;
        let bounded = utf8_prefix(text, remaining);
        let bounded_length = str_len(bounded);
        let text_length = str_len(text);
        self.was_limited = self.was_limited || bounded_length != text_length;
        let mut recent: Option<RecentDeletion> = None;
        core::mem::swap(&mut recent, &mut self.recent_deletion);
        proof {
            lemma_fitting_count(text@, remaining as int);
            lemma_prefix_bytes_full(bounded@);
            assert(bounded@.take(bounded@.len() as int) =~= bounded@);
        }
        if let Some(deletion) = recent {
            if !text.is_empty() && bounded.is_empty() && deletion.start == char_index {
                let count = chars_of(self.value.as_str()).len();
                let at = if deletion.start < count {
                    deletion.start
                } else {
                    count
                };
                let restored = splice(self.value.as_str(), at, at, deletion.removed.as_str());
                proof {
                    lemma_insert_chars_bytes(self.value@, deletion.start as int, deletion.removed@);
                }
                self.value = restored;
                return 0;
            }
        }
        let count = chars_of(self.value.as_str()).len();
        let at = if char_index < count {
            char_index
        } else {
            count
        };
        let inserted = splice(self.value.as_str(), at, at, bounded);
        proof {
            lemma_insert_chars_bytes(self.value@, char_index as int, bounded@);
        }
        self.value = inserted;
        chars_of(bounded).len()
    }

    /// Inserts at `cursor` what `char_limit` leaves room for of `text`, as
    /// `insert_text` does, and returns the cursor moved past what went in.
    pub fn insert_text_at(&mut self, cursor: usize, text: &str, char_limit: usize) -> (moved: usize)
        requires
            cursor + old(self)@.value.len() + text@.len() <= usize::MAX,
        ensures
            ({
                let (state, count) = insert_step(
                    old(self)@,
                    offered_text(old(self)@.value, text@, char_limit),
                    cursor as int,
                );
                &&& final(self)@ == state
                &&& moved == cursor + count
            }),
            final(self)@.within_ceiling(),
    {
        let offered = if char_limit == usize::MAX {
            text
        } else {
            let present = chars_of(self.value.as_str()).len();
            let cutoff = char_limit.saturating_sub(present);
            let _length = str_len(text);
            match byte_index_at_char(text, cutoff) {
                Some(byte) => {
                    proof {
                        lemma_prefix_is_boundary(text@, 0);
                        lemma_prefix_is_boundary(text@, cutoff as int);
                        lemma_prefix_bytes_full(text@);
                        lemma_prefix_bytes_monotone(text@, cutoff as int, text@.len() as int);
                        lemma_char_count_at(text@, 0);
                        lemma_char_count_at(text@, byte as int);
                        assert(prefix_bytes(text@, 0) == 0);
                        assert(text@.subrange(0, cutoff as int) =~= text@.take(cutoff as int));
                        assert(text@.take(text@.len() as int) =~= text@);
                    }
                    str_slice(text, 0, byte)
                },
                None => text,
            }
        };
        let ghost before = self@;
        proof {
            use_type_invariant(&*self);
            lemma_fitting_count(
                offered@,
                before.maximum - utf8_bytes(before.value).len(),
            );
        }
        let count = self.insert_text(offered, cursor);
        cursor + count
    }

    /// Removes the characters between `first` and `second`, in either
    /// order, clamped to the text.
    pub fn delete_char_range(&mut self, first: usize, second: usize)
        ensures
            final(self)@ == (BufferState {
                value: remove_chars(old(self)@.value, first as int, second as int),
                deletion: None,
                ..old(self)@
            }),
            final(self)@.within_ceiling(),
    {
        proof {
            use_type_invariant(&*self);
        }
        self.recent_deletion = None;
        let count = chars_of(self.value.as_str()).len();
        let (low, high) = clamped_range(count, first, second);
        let shortened = splice(self.value.as_str(), low, high, "");
        proof {
            reveal_strlit("");
            lemma_removal_bytes(self.value@, low as int, high as int);
        }
        self.value = shortened;
    }

    /// Deletes the selection between `first` and `second`, in either order,
    /// remembering a removal of one to three bytes; returns the cursor at
    /// the selection's start.
    pub fn delete_selected(&mut self, first: usize, second: usize) -> (cursor: usize)
        ensures
            (final(self)@, cursor as int) == delete_step(old(self)@, first as int, second as int),
            final(self)@.within_ceiling(),
    {
        proof {
            use_type_invariant(&*self);
        }
        self.recent_deletion = None;
        let count = chars_of(self.value.as_str()).len();
        let (low, high) = clamped_range(count, first, second);
        let ghost before = self.value@;
        let removed = removed_between(self.value.as_str(), low, high);
        let shortened = splice(self.value.as_str(), low, high, "");
        proof {
            reveal_strlit("");
            lemma_removal_bytes(before, low as int, high as int);
        }
        let removed_length = str_len(removed.as_str());
        self.value = shortened;
        let start = if first <= second {
            first
        } else {
            second
        };
        if 1 <= removed_length && removed_length < 4 {
            proof {
                assert(start as int == low);
            }
            self.recent_deletion = Some(RecentDeletion { start, removed });
        }
        start
    }

    /// Empties the text.
    pub fn clear(&mut self)
        ensures
            final(self)@ == (BufferState { value: Seq::empty(), deletion: None, ..old(self)@ }),
            final(self)@.within_ceiling(),
    {
        proof {
            use_type_invariant(&*self);
        }
        self.recent_deletion = None;
        self.value = String::new();
        proof {
            assert(utf8_bytes(Seq::<char>::empty()) =~= Seq::<u8>::empty());
        }
    }

    /// Replaces the whole text with the longest prefix of `text` that fits.
    pub fn replace_with(&mut self, text: &str)
        ensures
            final(self)@ == insert_step(
                BufferState { value: Seq::empty(), deletion: None, ..old(self)@ },
                text@,
                0,
            ).0,
            final(self)@.within_ceiling(),
    {
        self.clear();
        self.insert_text(text, 0);
    }

    /// Takes the text out, leaving the buffer empty.
    pub fn take(&mut self) -> (taken: String)
        ensures
            taken@ == old(self)@.value,
            final(self)@ == (BufferState { value: Seq::empty(), deletion: None, ..old(self)@ }),
            final(self)@.within_ceiling(),
    {
        proof {
            use_type_invariant(&*self);
            assert(utf8_bytes(Seq::<char>::empty()) =~= Seq::<u8>::empty());
        }
        self.recent_deletion = None;
        let mut taken = String::new();
        core::mem::swap(&mut taken, &mut self.value);
        taken
    }

    /// Gives the text back.
    pub fn into_value(self) -> (value: String)
        ensures
            value@ == self@.value,
    {
        self.value
    }
}

/// The characters between `low` and `high`.
pub(crate) fn removed_between(value: &str, low: usize, high: usize) -> (removed: String)
    requires
        low <= high <= value@.len(),
    ensures
        removed@ == value@.subrange(low as int, high as int),
{
    let ghost chars = value@;
    let _length = str_len(value);
    proof {
        lemma_prefix_bytes_full(chars);
        lemma_prefix_bytes_monotone(chars, high as int, chars.len() as int);
        lemma_prefix_is_boundary(chars, low as int);
        lemma_prefix_is_boundary(chars, high as int);
        lemma_prefix_bytes_monotone(chars, low as int, high as int);
    }
    let first = match byte_index_at_char(value, low) {
        Some(byte) => byte,
        None => 0,
    };
    let second = match byte_index_at_char(value, high) {
        Some(byte) => byte,
        None => 0,
    };
    proof {
        lemma_char_count_at(chars, first as int);
        lemma_char_count_at(chars, second as int);
    }
    str_slice(value, first, second).to_owned()
}

/// A character range given in either order, clamped to `count`.
fn clamped_range(count: usize, first: usize, second: usize) -> (range: (usize, usize))
    ensures
        forall|value: Seq<char>|
            value.len() == count ==> range.0 == range_low(value, first as int, second as int)
                && range.1 == range_high(value, first as int, second as int),
        range.0 <= range.1 <= count,
{
    let low = if first <= second {
        first
    } else {
        second
    };
    let high = if first <= second {
        second
    } else {
        first
    };
    (
        if low < count {
            low
        } else {
            count
        },
        if high < count {
            high
        } else {
            count
        },
    )
}

/// Removing characters removes their bytes.
pub(crate) proof fn lemma_removal_bytes(value: Seq<char>, low: int, high: int)
    requires
        0 <= low <= high <= value.len(),
    ensures
        utf8_bytes(value.take(low) + value.skip(high)).len() + utf8_bytes(value.subrange(low, high)).len()
            == utf8_bytes(value).len(),
        (value.take(low) + value.skip(high)).len() >= low,
{
    lemma_encode_concat(value.take(low), value.skip(high));
    lemma_encode_concat(value.take(low), value.subrange(low, high));
    lemma_encode_concat(value.take(low) + value.subrange(low, high), value.skip(high));
    assert(value.take(low) + value.subrange(low, high) + value.skip(high) =~= value);
}

} // verus!
