//! Exact UTF-8 byte ceilings for edited text: the longest prefix that fits,
//! truncation that never splits a scalar (or a CRLF pair in source text),
//! and character-to-byte position mapping.

use vstd::prelude::*;
use vstd::string::StringSliceAdditionalSpecFns;
use vstd::utf8::*;

use crate::edit::{
    common_prefix_len, common_suffix_len, from_end, lemma_common_prefix, lemma_common_suffix,
    width_of_range,
};
use crate::utf8_text::{
    char_count_at, is_boundary, lemma_char_count_at, lemma_encode_concat, lemma_encode_single,
    lemma_prefix_bytes_full, lemma_prefix_bytes_monotone, lemma_prefix_bytes_step,
    lemma_prefix_is_boundary, prefix_bytes, str_len, str_slice, chars_of, utf8_bytes,
};

verus! {

broadcast use vstd::seq_lib::group_seq_properties;

/// How many leading characters of `chars` fit, together, in `maximum`
/// bytes.
pub open spec fn fitting_count(chars: Seq<char>, maximum: int) -> int
    decreases chars.len(),
{
    if chars.len() == 0 || encode_scalar(chars[0] as u32).len() > maximum {
        0
    } else {
        1 + fitting_count(chars.drop_first(), maximum - encode_scalar(chars[0] as u32).len())
    }
}

/// `count` characters fit in `maximum` bytes and one more would not.
pub open spec fn is_fitting_prefix(chars: Seq<char>, count: int, maximum: int) -> bool {
    &&& 0 <= count <= chars.len()
    &&& prefix_bytes(chars, count) <= maximum
    &&& (count == chars.len() || prefix_bytes(chars, count + 1) > maximum)
}

/// The prefix byte count of a sequence steps over its first character.
pub proof fn lemma_prefix_bytes_first(chars: Seq<char>, count: int)
    requires
        0 <= count < chars.len(),
    ensures
        prefix_bytes(chars, count + 1) == encode_scalar(chars[0] as u32).len() + prefix_bytes(
            chars.drop_first(),
            count,
        ),
{
    assert(chars.take(count + 1) =~= seq![chars[0]] + chars.drop_first().take(count));
    lemma_encode_concat(seq![chars[0]], chars.drop_first().take(count));
    lemma_encode_single(chars[0]);
}

/// The fitting count is the longest prefix that fits.
pub proof fn lemma_fitting_count(chars: Seq<char>, maximum: int)
    requires
        maximum >= 0,
    ensures
        is_fitting_prefix(chars, fitting_count(chars, maximum), maximum),
    decreases chars.len(),
{
    lemma_prefix_bytes_full(chars);
    if chars.len() == 0 {
    } else {
        let width = encode_scalar(chars[0] as u32).len() as int;
        if width > maximum {
            lemma_prefix_bytes_first(chars, 0);
            lemma_prefix_bytes_full(chars.drop_first());
        } else {
            let rest = chars.drop_first();
            lemma_fitting_count(rest, maximum - width);
            let count = fitting_count(rest, maximum - width);
            lemma_prefix_bytes_first(chars, count);
            if count < rest.len() {
                lemma_prefix_bytes_first(chars, count + 1);
            }
        }
    }
}

/// Only one prefix length is the longest that fits.
pub proof fn lemma_fitting_prefix_unique(chars: Seq<char>, a: int, b: int, maximum: int)
    requires
        is_fitting_prefix(chars, a, maximum),
        is_fitting_prefix(chars, b, maximum),
    ensures
        a == b,
{
    if a < b {
        lemma_prefix_bytes_monotone(chars, a + 1, b);
    } else if b < a {
        lemma_prefix_bytes_monotone(chars, b + 1, a);
    }
}

/// Returns the longest prefix of `value` whose UTF-8 encoding fits in
/// `maximum` bytes, never splitting a scalar.
pub fn utf8_prefix(value: &str, maximum: usize) -> (prefix: &str)
    ensures
        prefix@ == value@.take(fitting_count(value@, maximum as int)),
{
    let ghost chars = value@;
    proof {
        lemma_fitting_count(chars, maximum as int);
        lemma_prefix_bytes_full(chars);
        encode_utf8_valid_utf8(chars);
    }
    if str_len(value) <= maximum {
        proof {
            assert(is_fitting_prefix(chars, chars.len() as int, maximum as int));
            lemma_fitting_prefix_unique(
                chars,
                chars.len() as int,
                fitting_count(chars, maximum as int),
                maximum as int,
            );
            assert(chars.take(chars.len() as int) =~= chars);
        }
        return value;
    }
    let mut candidate = maximum;
    proof {
        is_char_boundary_start_end_of_seq(value.spec_bytes());
    }
    while !value.is_char_boundary(candidate)
        invariant
            chars == value@,
            candidate <= maximum < value.spec_bytes().len(),
            valid_utf8(value.spec_bytes()),
            is_char_boundary(value.spec_bytes(), 0),
            forall|later: int|
                candidate < later <= maximum ==> !is_char_boundary(value.spec_bytes(), later),
        decreases candidate,
    {
        candidate = candidate - 1;
    }
    proof {
        lemma_char_count_at(chars, candidate as int);
        lemma_char_count_at(chars, 0);
        let count = char_count_at(chars, candidate as int);
        if count == chars.len() {
            assert(false);
        }
        lemma_prefix_bytes_step(chars, count);
        lemma_prefix_is_boundary(chars, count + 1);
        assert(is_fitting_prefix(chars, count, maximum as int));
        lemma_fitting_prefix_unique(chars, count, fitting_count(chars, maximum as int), maximum as int);
        assert(prefix_bytes(chars, 0) == 0);
        assert(char_count_at(chars, 0) == 0);
        assert(chars.subrange(0, count) =~= chars.take(count));
    }
    str_slice(value, 0, candidate)
}

/// Truncates `value` to the longest prefix whose UTF-8 encoding fits in
/// `maximum` bytes, never splitting a scalar; returns whether it was longer.
pub fn truncate_to_utf8_byte_limit(value: &mut String, maximum: usize) -> (truncated: bool)
    ensures
        truncated == (utf8_bytes(old(value)@).len() > maximum),
        final(value)@ == old(value)@.take(fitting_count(old(value)@, maximum as int)),
{
    let ghost original = value@;
    proof {
        lemma_fitting_count(original, maximum as int);
        lemma_prefix_bytes_full(original);
    }
    if str_len(value.as_str()) <= maximum {
        proof {
            assert(is_fitting_prefix(original, original.len() as int, maximum as int));
            lemma_fitting_prefix_unique(
                original,
                original.len() as int,
                fitting_count(original, maximum as int),
                maximum as int,
            );
            assert(original.take(original.len() as int) =~= original);
        }
        return false;
    }
    let shortened = utf8_prefix(value.as_str(), maximum).to_owned();
    *value = shortened;
    true
}

/// The number of source characters that make up the first `count` logical
/// characters, where a CRLF pair is one logical character.
pub open spec fn logical_span(chars: Seq<char>, count: int) -> int
    decreases chars.len(),
{
    if count <= 0 || chars.len() == 0 {
        0
    } else if chars.len() > 1 && chars[0] == '\r' && chars[1] == '\n' {
        2 + logical_span(chars.skip(2), count - 1)
    } else {
        1 + logical_span(chars.drop_first(), count - 1)
    }
}

/// A logical span never exceeds the characters, and covers them all once the
/// count reaches their number.
pub proof fn lemma_logical_span_bounds(chars: Seq<char>, count: int)
    ensures
        0 <= logical_span(chars, count) <= chars.len(),
        count >= chars.len() ==> logical_span(chars, count) == chars.len(),
    decreases chars.len(),
{
    if count > 0 && chars.len() > 0 {
        if chars.len() > 1 && chars[0] == '\r' && chars[1] == '\n' {
            lemma_logical_span_bounds(chars.skip(2), count - 1);
        } else {
            lemma_logical_span_bounds(chars.drop_first(), count - 1);
        }
    }
}

/// Steps the logical span by one logical character at a split point.
proof fn lemma_logical_span_step(chars: Seq<char>, taken: int, count: int, index: int)
    requires
        0 <= index < chars.len(),
        0 <= taken,
        logical_span(chars, count) == index + logical_span(chars.skip(index), count - taken),
        taken < count,
    ensures
        chars.len() - index > 1 && chars[index] == '\r' && chars[index + 1] == '\n'
            ==> logical_span(chars, count) == index + 2 + logical_span(
            chars.skip(index + 2),
            count - taken - 1,
        ),
        !(chars.len() - index > 1 && chars[index] == '\r' && chars[index + 1] == '\n')
            ==> logical_span(chars, count) == index + 1 + logical_span(
            chars.skip(index + 1),
            count - taken - 1,
        ),
{
    let rest = chars.skip(index);
    assert(rest[0] == chars[index]);
    if rest.len() > 1 {
        assert(rest[1] == chars[index + 1]);
        assert(rest.skip(2) =~= chars.skip(index + 2));
    }
    assert(rest.drop_first() =~= chars.skip(index + 1));
}

/// Returns the prefix of `source` holding at most `maximum_characters`
/// logical characters, a CRLF pair counting as one.
pub fn logical_prefix(source: &str, maximum_characters: usize) -> (prefix: &str)
    ensures
        prefix@ == source@.take(logical_span(source@, maximum_characters as int)),
{
    let ghost all = source@;
    proof {
        lemma_logical_span_bounds(all, maximum_characters as int);
    }
    let length = str_len(source);
    if maximum_characters == usize::MAX {
        proof {
            lemma_prefix_bytes_full(all);
            lemma_prefix_bytes_monotone(all, 0, all.len() as int);
            assert(all.len() <= prefix_bytes(all, all.len() as int)) by {
                lemma_count_le_bytes(all, all.len() as int);
            }
            assert(all.take(all.len() as int) =~= all);
        }
        return source;
    }
    let chars = chars_of(source);
    let mut index: usize = 0;
    let mut characters: usize = 0;
    proof {
        assert(all.skip(0) =~= all);
        lemma_prefix_bytes_full(all);
    }
    while index < chars.len() && characters < maximum_characters
        invariant
            chars@ == all,
            index <= all.len(),
            characters <= maximum_characters,
            logical_span(all, maximum_characters as int) == index + logical_span(
                all.skip(index as int),
                maximum_characters - characters,
            ),
        decreases all.len() - index,
    {
        proof {
            lemma_logical_span_step(all, characters as int, maximum_characters as int, index as int);
        }
        if index + 1 < chars.len() && chars[index] == '\r' && chars[index + 1] == '\n' {
            index = index + 2;
        } else {
            index = index + 1;
        }
        characters = characters + 1;
    }
    proof {
        if characters == maximum_characters {
            assert(logical_span(all.skip(index as int), 0) == 0);
        } else {
            assert(all.skip(index as int).len() == 0);
        }
        lemma_prefix_bytes_monotone(all, index as int, all.len() as int);
    }
    let end = width_of_range(&chars, 0, index);
    proof {
        lemma_prefix_is_boundary(all, index as int);
        lemma_prefix_is_boundary(all, 0);
        lemma_char_count_at(all, end as int);
        lemma_char_count_at(all, 0);
        assert(prefix_bytes(all, 0) == 0);
        lemma_prefix_bytes_monotone(all, 0, index as int);
        assert(all.subrange(0, index as int) =~= all.take(index as int));
    }
    str_slice(source, 0, end)
}

/// A character count never exceeds its UTF-8 byte count.
pub proof fn lemma_count_le_bytes(chars: Seq<char>, count: int)
    requires
        0 <= count <= chars.len(),
    ensures
        count <= prefix_bytes(chars, count),
    decreases count,
{
    if count > 0 {
        lemma_count_le_bytes(chars, count - 1);
        lemma_prefix_bytes_step(chars, count - 1);
    } else {
        lemma_prefix_bytes_full(chars);
    }
}

/// Returns how many leading characters `left` and `right` share.
pub fn common_prefix_characters(left: &str, right: &str) -> (count: usize)
    ensures
        count == common_prefix_len(left@, right@),
{
    let a = chars_of(left);
    let b = chars_of(right);
    let mut count: usize = 0;
    while count < a.len() && count < b.len() && a[count] == b[count]
        invariant
            count <= a@.len(),
            count <= b@.len(),
            forall|i: int| 0 <= i < count ==> a@[i] == b@[i],
        decreases a@.len() - count,
    {
        count = count + 1;
    }
    proof {
        lemma_common_prefix(a@, b@, count as int);
    }
    count
}

/// Returns how many trailing characters `left` and `right` share, counting
/// at most `maximum`.
pub fn common_suffix_characters(left: &str, right: &str, maximum: usize) -> (count: usize)
    ensures
        count == if common_suffix_len(left@, right@) < maximum {
            common_suffix_len(left@, right@) as int
        } else {
            maximum as int
        },
{
    let a = chars_of(left);
    let b = chars_of(right);
    let mut count: usize = 0;
    while count < maximum && count < a.len() && count < b.len() && a[a.len() - 1 - count]
        == b[b.len() - 1 - count]
        invariant
            count <= maximum,
            count <= a@.len(),
            count <= b@.len(),
            forall|i: int| 0 <= i < count ==> #[trigger] from_end(a@, i) == from_end(b@, i),
        decreases maximum - count,
    {
        proof {
            assert(from_end(a@, count as int) == from_end(b@, count as int));
        }
        count = count + 1;
    }
    proof {
        if count < maximum {
            lemma_common_suffix(a@, b@, count as int);
        } else {
            lemma_common_suffix_at_least(a@, b@, count as int);
        }
    }
    count
}

/// A shared suffix of `q` characters means the common suffix is at least `q`.
proof fn lemma_common_suffix_at_least(a: Seq<char>, b: Seq<char>, q: int)
    requires
        0 <= q <= a.len(),
        q <= b.len(),
        forall|i: int| 0 <= i < q ==> #[trigger] from_end(a, i) == from_end(b, i),
    ensures
        common_suffix_len(a, b) >= q,
    decreases q,
{
    if q > 0 {
        assert(from_end(a, 0) == from_end(b, 0));
        assert forall|i: int| 0 <= i < q - 1 implies #[trigger] from_end(a.drop_last(), i)
            == from_end(b.drop_last(), i) by {
            assert(from_end(a, i + 1) == from_end(b, i + 1));
        }
        lemma_common_suffix_at_least(a.drop_last(), b.drop_last(), q - 1);
    }
}

/// Whether `text` is exactly one newline: LF, CR, or CRLF.
pub open spec fn is_newline_text(text: Seq<char>) -> bool {
    text == seq!['\n'] || text == seq!['\r'] || text == seq!['\r', '\n']
}

/// Returns whether `text` is exactly one logical newline.
pub fn is_single_logical_newline(text: &str) -> (newline: bool)
    ensures
        newline == is_newline_text(text@),
{
    let chars = chars_of(text);
    let newline = if chars.len() == 1 {
        chars[0] == '\n' || chars[0] == '\r'
    } else if chars.len() == 2 {
        chars[0] == '\r' && chars[1] == '\n'
    } else {
        false
    };
    proof {
        if chars@.len() == 1 {
            assert(chars@ =~= seq![chars@[0]]);
        } else if chars@.len() == 2 {
            assert(chars@ =~= seq![chars@[0], chars@[1]]);
        }
    }
    newline
}

/// The byte offset of character `count`, or the end for any count past it.
pub open spec fn clamped_char_byte(chars: Seq<char>, count: int) -> int {
    if count < chars.len() {
        prefix_bytes(chars, count) as int
    } else {
        prefix_bytes(chars, chars.len() as int) as int
    }
}

/// Returns the byte offset of character `character`, or `None` past the end.
pub fn byte_index_at_char(source: &str, character: usize) -> (byte: Option<usize>)
    ensures
        byte == if character <= source@.len() {
            Some(prefix_bytes(source@, character as int) as usize)
        } else {
            None::<usize>
        },
{
    let _length = str_len(source);
    let chars = chars_of(source);
    if character > chars.len() {
        return None;
    }
    proof {
        lemma_prefix_bytes_full(source@);
    }
    Some(width_of_range(&chars, 0, character))
}

/// Returns the ordered byte range of a character range given in either
/// order; a character position past the end maps to the end.
pub fn byte_range_from_char_range(source: &str, first: usize, second: usize) -> (range: (
    usize,
    usize,
))
    ensures
        range.0 == clamped_char_byte(
            source@,
            if first <= second {
                first as int
            } else {
                second as int
            },
        ),
        range.1 == clamped_char_byte(
            source@,
            if first <= second {
                second as int
            } else {
                first as int
            },
        ),
{
    let _length = str_len(source);
    let chars = chars_of(source);
    let start = if first <= second {
        first
    } else {
        second
    };
    let end = if first <= second {
        second
    } else {
        first
    };
    proof {
        lemma_prefix_bytes_full(source@);
    }
    let start_at = if start < chars.len() {
        start
    } else {
        chars.len()
    };
    let end_at = if end < chars.len() {
        end
    } else {
        chars.len()
    };
    (width_of_range(&chars, 0, start_at), width_of_range(&chars, 0, end_at))
}

/// Where source text is cut to fit `maximum` bytes: the longest fitting
/// prefix, stepped back one character rather than end between a CR and its LF.
pub open spec fn source_cut(chars: Seq<char>, maximum: int) -> int {
    let count = fitting_count(chars, maximum);
    if 0 < count < chars.len() && chars[count - 1] == '\r' && chars[count] == '\n' {
        count - 1
    } else {
        count
    }
}

/// Truncates source text to fit `maximum` UTF-8 bytes without splitting a
/// scalar or a CRLF pair; returns whether it was longer.
pub fn truncate_source_to_byte_limit(source: &mut String, maximum: usize) -> (truncated: bool)
    ensures
        truncated == (utf8_bytes(old(source)@).len() > maximum),
        final(source)@ == if truncated {
            old(source)@.take(source_cut(old(source)@, maximum as int))
        } else {
            old(source)@
        },
{
    let ghost original = source@;
    if str_len(source.as_str()) <= maximum {
        return false;
    }
    let chars = chars_of(source.as_str());
    let count = chars_of(utf8_prefix(source.as_str(), maximum)).len();
    proof {
        lemma_fitting_count(original, maximum as int);
    }
    let cut = if count > 0 && count < chars.len() && chars[count - 1] == '\r' && chars[count]
        == '\n' {
        count - 1
    } else {
        count
    };
    proof {
        lemma_prefix_bytes_full(original);
        lemma_prefix_bytes_monotone(original, cut as int, original.len() as int);
        lemma_prefix_bytes_monotone(original, 0, cut as int);
    }
    let end = width_of_range(&chars, 0, cut);
    proof {
        lemma_prefix_is_boundary(original, cut as int);
        lemma_prefix_is_boundary(original, 0);
        lemma_char_count_at(original, end as int);
        lemma_char_count_at(original, 0);
        assert(original.subrange(0, cut as int) =~= original.take(cut as int));
    }
    let shortened = str_slice(source.as_str(), 0, end).to_owned();
    *source = shortened;
    true
}

} // verus!
