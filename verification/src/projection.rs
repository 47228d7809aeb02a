//! A canonical LF display of source text that keeps exact source byte
//! mappings: CRLF shows as one LF and a bare CR shows as LF, while every
//! other character is shown as it is.

use vstd::prelude::*;
use vstd::string::StringExecFns;
use vstd::string::StringSliceAdditionalSpecFns;
use vstd::utf8::*;

use crate::edit::Selection;
use crate::text_bounds::{
    byte_index_at_char, lemma_logical_span_bounds, lemma_prefix_bytes_first, logical_span,
};
use crate::utf8_text::{
    char_count_at, chars_of, is_boundary, lemma_char_count_at, lemma_prefix_bytes_full,
    lemma_prefix_bytes_monotone, lemma_prefix_bytes_step, lemma_prefix_is_boundary, prefix_bytes,
    str_len, str_slice, utf8_bytes, utf8_width,
};

verus! {

broadcast use vstd::seq_lib::group_seq_properties;

/// Whether the text starts with a CRLF pair.
pub open spec fn starts_with_crlf(chars: Seq<char>) -> bool {
    chars.len() > 1 && chars[0] == '\r' && chars[1] == '\n'
}

/// How many source characters the first displayed character stands for.
pub open spec fn first_unit_len(chars: Seq<char>) -> int {
    if starts_with_crlf(chars) {
        2
    } else {
        1
    }
}

/// The canonical display of source characters: CRLF and a bare CR each
/// become one LF; every other character stays.
pub open spec fn display_of(chars: Seq<char>) -> Seq<char>
    decreases chars.len(),
{
    if chars.len() == 0 {
        Seq::empty()
    } else {
        seq![
            if chars[0] == '\r' {
                '\n'
            } else {
                chars[0]
            },
        ] + display_of(chars.skip(first_unit_len(chars)))
    }
}

/// The UTF-8 width of one character.
pub open spec fn char_width(c: char) -> int {
    encode_scalar(c as u32).len() as int
}

/// The source byte offsets just after each CRLF pair, for source starting at
/// byte `base`.
pub open spec fn crlf_ends(chars: Seq<char>, base: int) -> Seq<int>
    decreases chars.len(),
{
    if chars.len() == 0 {
        Seq::empty()
    } else if starts_with_crlf(chars) {
        seq![base + 2] + crlf_ends(chars.skip(2), base + 2)
    } else {
        crlf_ends(chars.drop_first(), base + char_width(chars[0]))
    }
}

/// The values of a vector of offsets.
pub open spec fn offsets(values: Seq<usize>) -> Seq<int> {
    values.map_values(|value: usize| value as int)
}

/// The key of the `index`-th CRLF end: where its LF ends in the display.
pub open spec fn display_key(ends: Seq<int>, base: int, index: int) -> int {
    ends[index] - base - (index + 1)
}

/// CRLF ends lie inside the source, at least two bytes apart, the first at
/// least two bytes in.
pub proof fn lemma_crlf_ends_spacing(chars: Seq<char>, base: int)
    ensures
        ({
            let ends = crlf_ends(chars, base);
            &&& forall|j: int| 0 <= j < ends.len() ==> #[trigger] ends[j] >= base + 2 * (j + 1)
            &&& forall|j: int| 0 <= j < ends.len() ==> #[trigger] ends[j] <= base + utf8_bytes(
                chars,
            ).len()
            &&& forall|i: int, j: int|
                0 <= i < j < ends.len() ==> #[trigger] ends[j] - #[trigger] ends[i] >= 2 * (j - i)
        }),
    decreases chars.len(),
{
    if chars.len() > 0 {
        lemma_prefix_bytes_full(chars);
        if starts_with_crlf(chars) {
            let rest = chars.skip(2);
            lemma_crlf_ends_spacing(rest, base + 2);
            lemma_two_unit_bytes(chars);
            let ends = crlf_ends(chars, base);
            let tail = crlf_ends(rest, base + 2);
            assert(ends =~= seq![base + 2] + tail);
            assert forall|j: int| 0 <= j < ends.len() implies #[trigger] ends[j] >= base + 2 * (j
                + 1) && ends[j] <= base + utf8_bytes(chars).len() by {
                if j > 0 {
                    assert(ends[j] == tail[j - 1]);
                }
            }
            assert forall|i: int, j: int|
                0 <= i < j < ends.len() implies #[trigger] ends[j] - #[trigger] ends[i] >= 2 * (j
                - i) by {
                assert(ends[j] == tail[j - 1]);
                if i > 0 {
                    assert(ends[i] == tail[i - 1]);
                }
            }
        } else {
            lemma_crlf_ends_spacing(chars.drop_first(), base + char_width(chars[0]));
            lemma_one_unit_bytes(chars);
            assert(crlf_ends(chars, base) == crlf_ends(chars.drop_first(), base + char_width(
                chars[0],
            )));
        }
    }
}

/// The encoding splits after the first character.
pub proof fn lemma_one_unit_bytes(chars: Seq<char>)
    requires
        chars.len() > 0,
    ensures
        utf8_bytes(chars).len() == char_width(chars[0]) + utf8_bytes(chars.drop_first()).len(),
        char_width(chars[0]) >= 1,
{
    crate::utf8_text::lemma_scalar_width(chars[0]);
}

/// A leading CRLF pair occupies two bytes.
pub proof fn lemma_two_unit_bytes(chars: Seq<char>)
    requires
        starts_with_crlf(chars),
    ensures
        utf8_bytes(chars).len() == 2 + utf8_bytes(chars.skip(2)).len(),
        char_width(chars[0]) == 1,
        char_width(chars[1]) == 1,
{
    lemma_one_unit_bytes(chars);
    lemma_one_unit_bytes(chars.drop_first());
    assert(chars.drop_first()[0] == chars[1]);
    assert(chars.drop_first().drop_first() =~= chars.skip(2));
}

/// Unfolds the display and the CRLF ends once at source character `index`.
proof fn lemma_unit_step(all: Seq<char>, index: int, offset: int)
    requires
        0 <= index < all.len(),
    ensures
        index + 1 < all.len() && all[index] == '\r' && all[index + 1] == '\n' ==> {
            &&& display_of(all.skip(index)) == seq!['\n'] + display_of(all.skip(index + 2))
            &&& crlf_ends(all.skip(index), offset) == seq![offset + 2] + crlf_ends(
                all.skip(index + 2),
                offset + 2,
            )
        },
        !(index + 1 < all.len() && all[index] == '\r' && all[index + 1] == '\n') ==> {
            &&& display_of(all.skip(index)) == seq![
                if all[index] == '\r' {
                    '\n'
                } else {
                    all[index]
                },
            ] + display_of(all.skip(index + 1))
            &&& crlf_ends(all.skip(index), offset) == crlf_ends(
                all.skip(index + 1),
                offset + char_width(all[index]),
            )
        },
{
    let rest = all.skip(index);
    assert(rest[0] == all[index]);
    assert(rest.drop_first() =~= all.skip(index + 1));
    assert(rest.skip(1) =~= all.skip(index + 1));
    if index + 1 < all.len() {
        assert(rest[1] == all[index + 1]);
        assert(rest.skip(2) =~= all.skip(index + 2));
    }
}

/// The source byte offset where the first `count` displayed characters'
/// source ends.
pub open spec fn source_offset(chars: Seq<char>, count: int) -> int {
    prefix_bytes(chars, logical_span(chars, count)) as int
}

/// The display byte offset after `count` displayed characters.
pub open spec fn display_offset(chars: Seq<char>, count: int) -> int {
    prefix_bytes(display_of(chars), count) as int
}

/// Line feeds and carriage returns are one byte wide.
proof fn lemma_newline_widths()
    ensures
        char_width('\n') == 1,
        char_width('\r') == 1,
{
    assert(('\n' as u32) == 10);
    assert(('\r' as u32) == 13);
}

/// The offsets after the first displayed character and after the rest.
proof fn lemma_offsets_step(chars: Seq<char>, count: int)
    requires
        chars.len() > 0,
        1 <= count <= display_of(chars).len(),
    ensures
        ({
            let tail = chars.skip(first_unit_len(chars));
            &&& display_of(chars).len() == 1 + display_of(tail).len()
            &&& display_offset(chars, count) == (if chars[0] == '\r' {
                1
            } else {
                char_width(chars[0])
            }) + display_offset(tail, count - 1)
            &&& source_offset(chars, count) == (if starts_with_crlf(chars) {
                2
            } else {
                char_width(chars[0])
            }) + source_offset(tail, count - 1)
        }),
{
    lemma_newline_widths();
    let tail = chars.skip(first_unit_len(chars));
    let display = display_of(chars);
    assert(display.drop_first() =~= display_of(tail));
    lemma_prefix_bytes_first(display, count - 1);
    lemma_logical_span_bounds(tail, count - 1);
    let span = logical_span(tail, count - 1);
    if starts_with_crlf(chars) {
        let rest = chars.drop_first();
        assert(rest[0] == chars[1]);
        assert(rest.drop_first() =~= tail);
        lemma_prefix_bytes_first(chars, span + 1);
        lemma_prefix_bytes_first(rest, span);
    } else {
        assert(chars.drop_first() =~= tail);
        lemma_prefix_bytes_first(chars, span);
    }
}

/// After `count` displayed characters, exactly the CRLF pairs among them
/// have display keys at most the display offset.
pub proof fn lemma_keys_partition(chars: Seq<char>, base: int, count: int)
    requires
        0 <= count <= display_of(chars).len(),
    ensures
        ({
            let ends = crlf_ends(chars, base);
            let collapsed = source_offset(chars, count) - display_offset(chars, count);
            let offset = display_offset(chars, count);
            &&& 0 <= collapsed <= ends.len()
            &&& forall|j: int| 0 <= j < collapsed ==> display_key(ends, base, j) <= offset
            &&& forall|j: int| collapsed <= j < ends.len() ==> display_key(ends, base, j) > offset
        }),
    decreases chars.len(),
{
    lemma_crlf_ends_spacing(chars, base);
    let ends = crlf_ends(chars, base);
    if count == 0 {
        assert(logical_span(chars, 0) == 0);
        lemma_prefix_bytes_full(chars);
        lemma_prefix_bytes_full(display_of(chars));
        assert forall|j: int| 0 <= j < ends.len() implies display_key(ends, base, j) > 0 by {
            assert(ends[j] >= base + 2 * (j + 1));
        }
    } else {
        lemma_offsets_step(chars, count);
        lemma_newline_widths();
        if starts_with_crlf(chars) {
            let tail = chars.skip(2);
            lemma_keys_partition(tail, base + 2, count - 1);
            let inner = crlf_ends(tail, base + 2);
            assert(ends =~= seq![base + 2] + inner);
            assert forall|j: int| 1 <= j < ends.len() implies display_key(ends, base, j)
                == display_key(inner, base + 2, j - 1) + 1 by {
                assert(ends[j] == inner[j - 1]);
            }
            assert(display_key(ends, base, 0) == 1);
            let collapsed = source_offset(chars, count) - display_offset(chars, count);
            let inner_collapsed = source_offset(tail, count - 1) - display_offset(tail, count - 1);
            assert(collapsed == inner_collapsed + 1);
            assert(display_offset(tail, count - 1) >= 0);
            assert forall|j: int| 0 <= j < collapsed implies display_key(ends, base, j)
                <= display_offset(chars, count) by {
                if j > 0 {
                    assert(display_key(ends, base, j) == display_key(inner, base + 2, j - 1) + 1);
                }
            }
            assert forall|j: int| collapsed <= j < ends.len() implies display_key(ends, base, j)
                > display_offset(chars, count) by {
                assert(display_key(ends, base, j) == display_key(inner, base + 2, j - 1) + 1);
            }
        } else {
            let width = char_width(chars[0]);
            let tail = chars.drop_first();
            assert(chars.skip(1) =~= tail);
            lemma_keys_partition(tail, base + width, count - 1);
            assert(ends == crlf_ends(tail, base + width));
            assert((if chars[0] == '\r' {
                1
            } else {
                width
            }) == width);
            assert forall|j: int| 0 <= j < ends.len() implies display_key(ends, base, j)
                == display_key(ends, base + width, j) + width by {}
        }
    }
}

/// The display is the source with each CRLF pair collapsed to one byte.
pub proof fn lemma_collapsed_length(chars: Seq<char>, base: int)
    ensures
        utf8_bytes(display_of(chars)).len() + crlf_ends(chars, base).len() == utf8_bytes(
            chars,
        ).len(),
    decreases chars.len(),
{
    if chars.len() > 0 {
        lemma_newline_widths();
        let tail = chars.skip(first_unit_len(chars));
        let display = display_of(chars);
        assert(display.drop_first() =~= display_of(tail));
        lemma_one_unit_bytes(display);
        if starts_with_crlf(chars) {
            lemma_two_unit_bytes(chars);
            lemma_collapsed_length(tail, base + 2);
        } else {
            lemma_one_unit_bytes(chars);
            assert(chars.drop_first() =~= tail);
            lemma_collapsed_length(tail, base + char_width(chars[0]));
        }
    }
}

/// How many offsets are at most `limit`.
pub open spec fn ends_at_most(ends: Seq<int>, limit: int) -> int
    decreases ends.len(),
{
    if ends.len() == 0 {
        0
    } else {
        (if ends[0] <= limit {
            1int
        } else {
            0int
        }) + ends_at_most(ends.drop_first(), limit)
    }
}

/// Whether `byte` lies between the CR and the LF of a pair.
pub open spec fn is_pair_midpoint(ends: Seq<int>, byte: int) -> bool {
    exists|j: int| 0 <= j < ends.len() && ends[j] == byte + 1
}

/// A partition point of offsets is how many are at most the limit.
proof fn lemma_partition_count(ends: Seq<int>, limit: int, count: int)
    requires
        0 <= count <= ends.len(),
        forall|j: int| 0 <= j < count ==> ends[j] <= limit,
        forall|j: int| count <= j < ends.len() ==> ends[j] > limit,
    ensures
        ends_at_most(ends, limit) == count,
    decreases ends.len(),
{
    if ends.len() > 0 {
        let rest = ends.drop_first();
        if count > 0 {
            assert forall|j: int| 0 <= j < count - 1 implies rest[j] <= limit by {
                assert(rest[j] == ends[j + 1]);
            }
            assert forall|j: int| count - 1 <= j < rest.len() implies rest[j] > limit by {
                assert(rest[j] == ends[j + 1]);
            }
            lemma_partition_count(rest, limit, count - 1);
        } else {
            assert forall|j: int| 0 <= j < rest.len() implies rest[j] > limit by {
                assert(rest[j] == ends[j + 1]);
            }
            lemma_partition_count(rest, limit, 0);
        }
    }
}

/// Source offsets of displayed characters never exceed the source length.
pub proof fn lemma_source_offset_bound(chars: Seq<char>, count: int)
    requires
        0 <= count,
    ensures
        0 <= source_offset(chars, count) <= utf8_bytes(chars).len(),
{
    lemma_logical_span_bounds(chars, count);
    lemma_prefix_bytes_monotone(chars, logical_span(chars, count), chars.len() as int);
    lemma_prefix_bytes_full(chars);
}

/// At the source offset of a displayed character boundary, the CRLF ends at
/// or before it are exactly the collapsed pairs, and it is no pair midpoint.
proof fn lemma_boundary_ends(chars: Seq<char>, base: int, count: int)
    requires
        0 <= count <= display_of(chars).len(),
    ensures
        ends_at_most(crlf_ends(chars, base), base + source_offset(chars, count))
            == source_offset(chars, count) - display_offset(chars, count),
        !is_pair_midpoint(crlf_ends(chars, base), base + source_offset(chars, count)),
    decreases chars.len(),
{
    lemma_crlf_ends_spacing(chars, base);
    let ends = crlf_ends(chars, base);
    if count == 0 {
        assert(logical_span(chars, 0) == 0);
        lemma_prefix_bytes_full(chars);
        lemma_prefix_bytes_full(display_of(chars));
        assert forall|j: int| 0 <= j < ends.len() implies ends[j] > base by {
            assert(ends[j] >= base + 2 * (j + 1));
        }
        lemma_partition_count(ends, base, 0);
    } else {
        lemma_offsets_step(chars, count);
        lemma_newline_widths();
        if starts_with_crlf(chars) {
            let tail = chars.skip(2);
            lemma_boundary_ends(tail, base + 2, count - 1);
            let inner = crlf_ends(tail, base + 2);
            assert(ends.drop_first() =~= inner);
            assert(ends[0] == base + 2);
            assert forall|j: int| 0 <= j < ends.len() implies ends[j] != base + source_offset(
                chars,
                count,
            ) + 1 by {
                if j > 0 {
                    assert(ends[j] == inner[j - 1]);
                }
            }
        } else {
            let width = char_width(chars[0]);
            let tail = chars.drop_first();
            assert(chars.skip(1) =~= tail);
            lemma_boundary_ends(tail, base + width, count - 1);
            assert(ends == crlf_ends(tail, base + width));
        }
    }
}

/// Every displayed character boundary sits at a scalar boundary of the
/// source, and never between a CR and its LF.
pub proof fn lemma_display_boundaries_are_scalar_boundaries(chars: Seq<char>, count: int)
    requires
        0 <= count <= display_of(chars).len(),
    ensures
        is_boundary(chars, source_offset(chars, count)),
        !is_pair_midpoint(crlf_ends(chars, 0), source_offset(chars, count)),
{
    lemma_logical_span_bounds(chars, count);
    lemma_prefix_is_boundary(chars, logical_span(chars, count));
    lemma_boundary_ends(chars, 0, count);
}

/// A source byte inside a scalar, or between a CR and its LF, is no
/// displayed character boundary.
pub proof fn lemma_unshown_source_bytes(chars: Seq<char>, byte: int)
    requires
        !is_boundary(chars, byte) || is_pair_midpoint(crlf_ends(chars, 0), byte),
    ensures
        forall|count: int|
            0 <= count <= display_of(chars).len() ==> #[trigger] source_offset(chars, count) != byte,
{
    assert forall|count: int| 0 <= count <= display_of(chars).len() implies #[trigger] source_offset(
        chars,
        count,
    ) != byte by {
        lemma_display_boundaries_are_scalar_boundaries(chars, count);
    }
}

/// `value` lies strictly inside displayed character `count`.
pub open spec fn strictly_inside(chars: Seq<char>, count: int, value: int) -> bool {
    display_offset(chars, count) < value && value < display_offset(chars, count + 1)
}

/// A source byte that is no displayed character boundary and no pair
/// midpoint falls strictly inside one displayed character, after removing
/// the collapsed pairs before it.
proof fn lemma_inside_display_char(chars: Seq<char>, base: int, byte: int)
    requires
        0 <= byte <= utf8_bytes(chars).len(),
        !is_pair_midpoint(crlf_ends(chars, base), base + byte),
        forall|count: int|
            0 <= count <= display_of(chars).len() ==> #[trigger] source_offset(chars, count)
                != byte,
    ensures
        exists|count: int|
            0 <= count < display_of(chars).len() && #[trigger] strictly_inside(
                chars,
                count,
                byte - ends_at_most(crlf_ends(chars, base), base + byte),
            ),
    decreases chars.len(),
{
    lemma_crlf_ends_spacing(chars, base);
    lemma_newline_widths();
    let ends = crlf_ends(chars, base);
    assert(logical_span(chars, 0) == 0);
    lemma_prefix_bytes_full(chars);
    lemma_prefix_bytes_full(display_of(chars));
    assert(source_offset(chars, 0) == 0);
    if chars.len() == 0 {
        assert(false);
    }
    lemma_offsets_step(chars, 1);
    assert(logical_span(chars.skip(first_unit_len(chars)), 0) == 0);
    lemma_prefix_bytes_full(chars.skip(first_unit_len(chars)));
    lemma_prefix_bytes_full(display_of(chars.skip(first_unit_len(chars))));
    if starts_with_crlf(chars) {
        let tail = chars.skip(2);
        let inner = crlf_ends(tail, base + 2);
        assert(ends.drop_first() =~= inner);
        assert(ends[0] == base + 2);
        if byte == 1 {
            assert(is_pair_midpoint(ends, base + byte));
        }
        lemma_two_unit_bytes(chars);
        assert forall|j: int| 0 <= j < inner.len() implies inner[j] != (base + 2) + (byte - 2) + 1 by {
            assert(ends[j + 1] == inner[j]);
        }
        assert forall|count: int| 0 <= count <= display_of(tail).len() implies #[trigger] source_offset(
            tail,
            count,
        ) != byte - 2 by {
            lemma_offsets_step(chars, count + 1);
            assert(source_offset(chars, count + 1) != byte);
        }
        lemma_inside_display_char(tail, base + 2, byte - 2);
        let inner_count = choose|count: int|
            0 <= count < display_of(tail).len() && #[trigger] strictly_inside(
                tail,
                count,
                (byte - 2) - ends_at_most(inner, base + 2 + (byte - 2)),
            );
        lemma_offsets_step(chars, inner_count + 1);
        lemma_offsets_step(chars, inner_count + 2);
        assert(strictly_inside(chars, inner_count + 1, byte - ends_at_most(ends, base + byte)));
    } else {
        let width = char_width(chars[0]);
        let tail = chars.drop_first();
        assert(chars.skip(1) =~= tail);
        assert(ends == crlf_ends(tail, base + width));
        lemma_one_unit_bytes(chars);
        lemma_crlf_ends_spacing(tail, base + width);
        if byte < width {
            assert forall|j: int| 0 <= j < ends.len() implies ends[j] > base + byte by {
                assert(ends[j] >= base + width + 2 * (j + 1));
            }
            lemma_partition_count(ends, base + byte, 0);
            assert(strictly_inside(chars, 0, byte - ends_at_most(ends, base + byte)));
        } else {
            assert forall|count: int| 0 <= count <= display_of(tail).len() implies #[trigger] source_offset(
                tail,
                count,
            ) != byte - width by {
                lemma_offsets_step(chars, count + 1);
                assert(source_offset(chars, count + 1) != byte);
            }
            lemma_inside_display_char(tail, base + width, byte - width);
            let inner_count = choose|count: int|
                0 <= count < display_of(tail).len() && #[trigger] strictly_inside(
                    tail,
                    count,
                    (byte - width) - ends_at_most(ends, base + width + (byte - width)),
                );
            lemma_offsets_step(chars, inner_count + 1);
            lemma_offsets_step(chars, inner_count + 2);
            assert(strictly_inside(chars, inner_count + 1, byte - ends_at_most(ends, base + byte)));
        }
    }
}

/// A canonical LF display of source that retains exact source byte
/// mappings.
#[derive(PartialEq, Eq, Debug)]
pub struct SourceDisplayProjection {
    display: String,
    source_length: usize,
    collapsed_source_ends: Vec<usize>,
}

impl SourceDisplayProjection {
    /// The displayed characters.
    pub closed spec fn spec_display(&self) -> Seq<char> {
        self.display@
    }

    /// The source length in bytes.
    pub closed spec fn spec_source_length(&self) -> usize {
        self.source_length
    }

    /// The source byte offsets just after each CRLF pair.
    pub closed spec fn spec_ends(&self) -> Seq<int> {
        offsets(self.collapsed_source_ends@)
    }

    /// The CRLF ends are spaced as pairs are, and the display is the source
    /// with each pair collapsed to one byte.
    #[verifier::type_invariant]
    spec fn ends_are_pairs(self) -> bool {
        let ends = offsets(self.collapsed_source_ends@);
        &&& forall|j: int| 0 <= j < ends.len() ==> #[trigger] ends[j] >= 2 * (j + 1)
        &&& forall|i: int, j: int|
            0 <= i < j < ends.len() ==> #[trigger] ends[j] - #[trigger] ends[i] >= 2 * (j - i)
        &&& forall|j: int| 0 <= j < ends.len() ==> #[trigger] ends[j] <= self.source_length
        &&& utf8_bytes(self.display@).len() + ends.len() == self.source_length
        &&& self.source_length <= isize::MAX
    }

    /// The projection of `source`.
    pub open spec fn projects(&self, source: Seq<char>) -> bool {
        &&& self.spec_display() == display_of(source)
        &&& self.spec_source_length() == utf8_bytes(source).len()
        &&& self.spec_ends() == crlf_ends(source, 0)
    }

    /// Builds the canonical display and its exact boundary mapping.
    #[verifier::rlimit(40)]
    pub fn new(source: &str) -> (projection: Self)
        ensures
            projection.projects(source@),
    {
        let ghost all = source@;
        let chars = chars_of(source);
        let length = str_len(source);
        let mut display = String::new();
        let mut ends: Vec<usize> = Vec::new();
        let mut index: usize = 0;
        let mut offset: usize = 0;
        proof {
            lemma_prefix_bytes_full(all);
            assert(all.skip(0) =~= all);
            assert(offsets(ends@) =~= Seq::<int>::empty());
            reveal_strlit("\n");
        }
        while index < chars.len()
            invariant
                chars@ == all,
                source@ == all,
                index <= all.len(),
                length == utf8_bytes(all).len(),
                length <= isize::MAX,
                offset == prefix_bytes(all, index as int),
                display_of(all) == display@ + display_of(all.skip(index as int)),
                crlf_ends(all, 0) == offsets(ends@) + crlf_ends(all.skip(index as int), offset as int),
                "\n"@ == seq!['\n'],
            decreases all.len() - index,
        {
            proof {
                lemma_unit_step(all, index as int, offset as int);
                lemma_prefix_bytes_step(all, index as int);
                lemma_prefix_bytes_monotone(all, index + 1, all.len() as int);
            }
            if chars[index] == '\r' {
                let ghost before = display@;
                display.append("\n");
                if index + 1 < chars.len() && chars[index + 1] == '\n' {
                    proof {
                        lemma_prefix_bytes_step(all, index + 1);
                        lemma_prefix_bytes_monotone(all, index + 2, all.len() as int);
                    }
                    offset = offset + 2;
                    index = index + 2;
                    let ghost previous = ends@;
                    ends.push(offset);
                    proof {
                        assert(offsets(ends@) =~= offsets(previous) + seq![offset as int]);
                    }
                } else {
                    offset = offset + 1;
                    index = index + 1;
                }
            } else {
                let width = utf8_width(chars[index]);
                proof {
                    lemma_prefix_is_boundary(all, index as int);
                    lemma_prefix_is_boundary(all, index + 1);
                    lemma_char_count_at(all, offset as int);
                    lemma_char_count_at(all, offset + width);
                    assert(all.subrange(index as int, index + 1) =~= seq![all[index as int]]);
                }
                let piece = str_slice(source, offset, offset + width);
                display.append(piece);
                offset = offset + width;
                index = index + 1;
            }
        }
        proof {
            assert(all.skip(index as int) =~= Seq::<char>::empty());
            assert(display@ =~= display_of(all));
        }
        proof {
            lemma_crlf_ends_spacing(all, 0);
            lemma_collapsed_length(all, 0);
            assert(offsets(ends@).len() == ends@.len());
        }
        SourceDisplayProjection { display, source_length: length, collapsed_source_ends: ends }
    }

    /// Returns the canonical LF text.
    pub fn display(&self) -> (display: &str)
        ensures
            display@ == self.spec_display(),
    {
        self.display.as_str()
    }

    /// Returns how many CRLF pairs end at or before display byte
    /// `display_byte`: the CRLF ends whose display keys are at most it.
    pub fn collapsed_count_at_display_byte(&self, display_byte: usize) -> (count: usize)
        ensures
            count <= self.spec_ends().len(),
            forall|j: int| 0 <= j < count ==> display_key(self.spec_ends(), 0, j) <= display_byte,
            forall|j: int|
                count <= j < self.spec_ends().len() ==> display_key(self.spec_ends(), 0, j)
                    > display_byte,
    {
        proof {
            use_type_invariant(self);
        }
        let ghost ends = self.spec_ends();
        let mut start: usize = 0;
        let mut end = self.collapsed_source_ends.len();
        while start < end
            invariant
                ends == offsets(self.collapsed_source_ends@),
                ends.len() == self.collapsed_source_ends@.len(),
                start <= end <= ends.len(),
                forall|j: int| 0 <= j < ends.len() ==> #[trigger] ends[j] >= 2 * (j + 1),
                forall|i: int, j: int|
                    0 <= i < j < ends.len() ==> #[trigger] ends[j] - #[trigger] ends[i] >= 2 * (j
                        - i),
                forall|j: int| 0 <= j < start ==> display_key(ends, 0, j) <= display_byte,
                forall|j: int| end <= j < ends.len() ==> display_key(ends, 0, j) > display_byte,
            decreases end - start,
        {
            let middle = start + (end - start) / 2;
            proof {
                assert(ends[middle as int] == self.collapsed_source_ends@[middle as int]);
                assert(ends[middle as int] >= 2 * (middle + 1));
            }
            let key = self.collapsed_source_ends[middle] - (middle + 1);
            proof {
                assert(display_key(ends, 0, middle as int) == key);
            }
            if key <= display_byte {
                proof {
                    assert forall|j: int| 0 <= j <= middle implies display_key(ends, 0, j)
                        <= display_byte by {
                        if j < middle {
                            assert(ends[middle as int] - ends[j] >= 2 * (middle - j));
                        }
                    }
                }
                start = middle + 1;
            } else {
                proof {
                    assert forall|j: int| middle <= j < ends.len() implies display_key(ends, 0, j)
                        > display_byte by {
                        if j > middle {
                            assert(ends[j] - ends[middle as int] >= 2 * (j - middle));
                        }
                    }
                }
                end = middle;
            }
        }
        start
    }

    /// Maps display character boundary `display_index` to the exact source
    /// byte boundary, or `None` past the end of the display.
    pub fn display_char_to_source_byte(&self, display_index: usize) -> (byte: Option<usize>)
        ensures
            forall|source: Seq<char>|
                self.projects(source) ==> byte == if display_index <= display_of(source).len() {
                    Some(source_offset(source, display_index as int) as usize)
                } else {
                    None::<usize>
                },
    {
        let display_byte = match byte_index_at_char(self.display.as_str(), display_index) {
            Some(byte) => byte,
            None => return None,
        };
        let collapsed = self.collapsed_count_at_display_byte(display_byte);
        proof {
            use_type_invariant(self);
            lemma_prefix_bytes_monotone(self.display@, display_index as int, self.display@.len() as int);
            lemma_prefix_bytes_full(self.display@);
            assert forall|source: Seq<char>| self.projects(source) implies display_byte + collapsed
                == source_offset(source, display_index as int) by {
                lemma_keys_partition(source, 0, display_index as int);
                assert(self.spec_ends() == crlf_ends(source, 0));
                assert(display_byte == display_offset(source, display_index as int));
                let expected = source_offset(source, display_index as int) - display_offset(
                    source,
                    display_index as int,
                );
                if collapsed < expected {
                    assert(display_key(self.spec_ends(), 0, collapsed as int) <= display_byte);
                } else if collapsed > expected {
                    assert(display_key(self.spec_ends(), 0, expected) > display_byte);
                }
            }
        }
        Some(display_byte + collapsed)
    }

    /// Returns whether `source_byte` lies between the CR and LF of a pair.
    pub fn is_crlf_midpoint(&self, source_byte: usize) -> (midpoint: bool)
        ensures
            midpoint == is_pair_midpoint(self.spec_ends(), source_byte as int),
    {
        proof {
            use_type_invariant(self);
        }
        let ghost ends = self.spec_ends();
        let target = source_byte.saturating_add(1);
        let mut low: usize = 0;
        let mut high = self.collapsed_source_ends.len();
        while low < high
            invariant
                ends == offsets(self.collapsed_source_ends@),
                ends.len() == self.collapsed_source_ends@.len(),
                low <= high <= ends.len(),
                target == if source_byte < usize::MAX {
                    source_byte + 1
                } else {
                    usize::MAX as int
                },
                forall|i: int, j: int|
                    0 <= i < j < ends.len() ==> #[trigger] ends[j] - #[trigger] ends[i] >= 2 * (j
                        - i),
                forall|j: int| 0 <= j < low ==> ends[j] < target,
                forall|j: int| high <= j < ends.len() ==> ends[j] > target,
            decreases high - low,
        {
            let middle = low + (high - low) / 2;
            let value = self.collapsed_source_ends[middle];
            proof {
                assert(ends[middle as int] == value);
            }
            if value == target {
                proof {
                    use_type_invariant(self);
                    assert(value <= self.source_length);
                    assert(ends[middle as int] == source_byte + 1);
                }
                return true;
            }
            if value < target {
                proof {
                    assert forall|j: int| 0 <= j <= middle implies ends[j] < target by {
                        if j < middle {
                            assert(ends[middle as int] - ends[j] >= 2 * (middle - j));
                        }
                    }
                }
                low = middle + 1;
            } else {
                proof {
                    assert forall|j: int| middle <= j < ends.len() implies ends[j] > target by {
                        if j > middle {
                            assert(ends[j] - ends[middle as int] >= 2 * (j - middle));
                        }
                    }
                }
                high = middle;
            }
        }
        proof {
            if is_pair_midpoint(ends, source_byte as int) {
                let j = choose|j: int| 0 <= j < ends.len() && ends[j] == source_byte + 1;
                assert(ends[j] == target);
            }
        }
        false
    }

    /// Returns how many CRLF pairs end at or before `source_byte`.
    fn ends_at_or_before(&self, source_byte: usize) -> (count: usize)
        ensures
            count == ends_at_most(self.spec_ends(), source_byte as int),
            count <= self.spec_ends().len(),
    {
        proof {
            use_type_invariant(self);
        }
        let ghost ends = self.spec_ends();
        let mut low: usize = 0;
        let mut high = self.collapsed_source_ends.len();
        while low < high
            invariant
                ends == offsets(self.collapsed_source_ends@),
                ends.len() == self.collapsed_source_ends@.len(),
                low <= high <= ends.len(),
                forall|i: int, j: int|
                    0 <= i < j < ends.len() ==> #[trigger] ends[j] - #[trigger] ends[i] >= 2 * (j
                        - i),
                forall|j: int| 0 <= j < low ==> ends[j] <= source_byte,
                forall|j: int| high <= j < ends.len() ==> ends[j] > source_byte,
            decreases high - low,
        {
            let middle = low + (high - low) / 2;
            let value = self.collapsed_source_ends[middle];
            proof {
                assert(ends[middle as int] == value);
            }
            if value <= source_byte {
                proof {
                    assert forall|j: int| 0 <= j <= middle implies ends[j] <= source_byte by {
                        if j < middle {
                            assert(ends[middle as int] - ends[j] >= 2 * (middle - j));
                        }
                    }
                }
                low = middle + 1;
            } else {
                proof {
                    assert forall|j: int| middle <= j < ends.len() implies ends[j] > source_byte by {
                        if j > middle {
                            assert(ends[j] - ends[middle as int] >= 2 * (j - middle));
                        }
                    }
                }
                high = middle;
            }
        }
        proof {
            lemma_partition_count(ends, source_byte as int, low as int);
        }
        low
    }

    /// Maps exact source byte boundary `source_byte` to its display
    /// character boundary; a byte that is no displayed character boundary,
    /// such as one between CR and LF or inside a character, gives `None`.
    /// This is the inverse of `display_char_to_source_byte`.
    pub fn source_byte_to_display_char(&self, source_byte: usize) -> (index: Option<usize>)
        ensures
            forall|source: Seq<char>|
                self.projects(source) ==> match index {
                    Some(index) => index <= display_of(source).len() && source_offset(
                        source,
                        index as int,
                    ) == source_byte,
                    None => forall|count: int|
                        0 <= count <= display_of(source).len() ==> source_offset(source, count)
                            != source_byte,
                },
            forall|source: Seq<char>|
                self.projects(source) && (!is_boundary(source, source_byte as int)
                    || is_pair_midpoint(crlf_ends(source, 0), source_byte as int)) ==> index is None,
            forall|source: Seq<char>|
                self.projects(source) ==> source_to_display(source, source_byte as int) == match index {
                    Some(index) => Some(index as int),
                    None => None::<int>,
                },
    {
        let index = self.find_display_char(source_byte);
        proof {
            assert forall|source: Seq<char>| self.projects(source) implies source_to_display(
                source,
                source_byte as int,
            ) == match index {
                Some(index) => Some(index as int),
                None => None::<int>,
            } by {
                lemma_mappings_invert(source);
                if let Some(found) = index {
                    assert(source_to_display(source, source_offset(source, found as int)) == Some(
                        found as int,
                    ));
                }
            }
        }
        index
    }

    fn find_display_char(&self, source_byte: usize) -> (index: Option<usize>)
        ensures
            forall|source: Seq<char>|
                self.projects(source) ==> match index {
                    Some(index) => index <= display_of(source).len() && source_offset(
                        source,
                        index as int,
                    ) == source_byte,
                    None => forall|count: int|
                        0 <= count <= display_of(source).len() ==> source_offset(source, count)
                            != source_byte,
                },
            forall|source: Seq<char>|
                self.projects(source) && (!is_boundary(source, source_byte as int)
                    || is_pair_midpoint(crlf_ends(source, 0), source_byte as int)) ==> index is None,
    {
        if source_byte > self.source_length {
            proof {
                assert forall|source: Seq<char>, count: int|
                    self.projects(source) && 0 <= count <= display_of(source).len() implies source_offset(
                    source,
                    count,
                ) != source_byte by {
                    lemma_source_offset_bound(source, count);
                }
            }
            return None;
        }
        if self.is_crlf_midpoint(source_byte) {
            proof {
                assert forall|source: Seq<char>, count: int|
                    self.projects(source) && 0 <= count <= display_of(source).len() implies source_offset(
                    source,
                    count,
                ) != source_byte by {
                    lemma_boundary_ends(source, 0, count);
                }
            }
            return None;
        }
        let collapsed = self.ends_at_or_before(source_byte);
        proof {
            use_type_invariant(self);
        }
        let display_byte = match source_byte.checked_sub(collapsed) {
            Some(byte) => byte,
            None => {
                proof {
                    assert forall|source: Seq<char>, count: int|
                        self.projects(source) && 0 <= count <= display_of(source).len() implies source_offset(
                        source,
                        count,
                    ) != source_byte by {
                        if source_offset(source, count) == source_byte {
                            lemma_boundary_ends(source, 0, count);
                        }
                    }
                }
                return None;
            },
        };
        if self.display.as_str().is_char_boundary(display_byte) {
            proof {
                lemma_char_count_at(self.display@, display_byte as int);
                lemma_prefix_bytes_full(self.display@);
                lemma_prefix_is_boundary(self.display@, 0);
                lemma_char_count_at(self.display@, 0);
            }
            let prefix = str_slice(self.display.as_str(), 0, display_byte);
            let characters = chars_of(prefix).len();
            proof {
                let count = char_count_at(self.display@, display_byte as int);
                assert(characters == count);
                assert forall|source: Seq<char>| self.projects(source) implies source_offset(
                    source,
                    count,
                ) == source_byte by {
                    if forall|k: int|
                        0 <= k <= display_of(source).len() ==> #[trigger] source_offset(source, k)
                            != source_byte {
                        lemma_inside_display_char(source, 0, source_byte as int);
                        let k = choose|k: int|
                            0 <= k < display_of(source).len() && #[trigger] strictly_inside(
                                source,
                                k,
                                source_byte - ends_at_most(crlf_ends(source, 0), source_byte as int),
                            );
                        lemma_strictly_inside_not_boundary(self.display@, k, display_byte as int);
                    } else {
                        let k = choose|k: int|
                            0 <= k <= display_of(source).len() && #[trigger] source_offset(source, k)
                                == source_byte;
                        lemma_boundary_ends(source, 0, k);
                        lemma_prefix_bytes_monotone(self.display@, k, self.display@.len() as int);
                        lemma_prefix_is_boundary(self.display@, k);
                        assert(display_byte == display_offset(source, k));
                    }
                }
            }
            proof {
                assert forall|source: Seq<char>|
                    self.projects(source) && (!is_boundary(source, source_byte as int)
                        || is_pair_midpoint(
                        crlf_ends(source, 0),
                        source_byte as int,
                    )) implies false by {
                    let count = char_count_at(self.display@, display_byte as int);
                    lemma_unshown_source_bytes(source, source_byte as int);
                    assert(source_offset(source, count) == source_byte);
                }
            }
            Some(characters)
        } else {
            proof {
                assert forall|source: Seq<char>, count: int|
                    self.projects(source) && 0 <= count <= display_of(source).len() implies source_offset(
                    source,
                    count,
                ) != source_byte by {
                    if source_offset(source, count) == source_byte {
                        lemma_boundary_ends(source, 0, count);
                        lemma_prefix_bytes_monotone(
                            self.display@,
                            count,
                            self.display@.len() as int,
                        );
                        lemma_prefix_is_boundary(self.display@, count);
                    }
                }
            }
            None
        }
    }

    /// Converts a directional display selection to exact source byte
    /// offsets, anchor from the secondary cursor and active end from the
    /// primary one.
    pub fn selection_to_source(&self, range: DisplayRange) -> (selection: Option<Selection>)
        ensures
            forall|source: Seq<char>|
                self.projects(source) ==> selection == if range.secondary <= display_of(
                    source,
                ).len() && range.primary <= display_of(source).len() {
                    Some(
                        Selection::spec_new(
                            source_offset(source, range.secondary as int) as usize,
                            source_offset(source, range.primary as int) as usize,
                        ),
                    )
                } else {
                    None::<Selection>
                },
    {
        let anchor = match self.display_char_to_source_byte(range.secondary) {
            Some(anchor) => anchor,
            None => return None,
        };
        let active = match self.display_char_to_source_byte(range.primary) {
            Some(active) => active,
            None => return None,
        };
        Some(Selection::new(anchor, active))
    }

    /// The source byte a selection endpoint is shown at: a byte between CR
    /// and LF moves before the pair for a caret or the selection's start,
    /// and after it otherwise; any other byte stays when it is a displayed
    /// character boundary.
    fn canonical_source_endpoint(
        &self,
        selection: Selection,
        endpoint: usize,
    ) -> (canonical: Option<usize>)
        ensures
            forall|source: Seq<char>|
                self.projects(source) ==> canonical == canonical_endpoint(
                    source,
                    selection,
                    endpoint as int,
                ),
    {
        if endpoint > self.source_length {
            return None;
        }
        if self.is_crlf_midpoint(endpoint) {
            proof {
                use_type_invariant(self);
                let j = choose|j: int|
                    0 <= j < self.spec_ends().len() && self.spec_ends()[j] == endpoint + 1;
                assert(self.spec_ends()[j] >= 2 * (j + 1));
            }
            if selection.anchor() == selection.active() || endpoint == selection.ordered_range().start() {
                return Some(endpoint - 1);
            } else {
                return Some(endpoint + 1);
            }
        }
        match self.source_byte_to_display_char(endpoint) {
            Some(_) => Some(endpoint),
            None => None,
        }
    }

    /// Converts a directional source selection to display cursors: the
    /// primary cursor at the active end and the secondary at the anchor. A
    /// caret between CR and LF snaps before the pair; a nonempty selection
    /// expands outward so selecting either byte selects the newline.
    pub fn selection_to_display(&self, selection: Selection) -> (range: Option<DisplayRange>)
        ensures
            forall|source: Seq<char>|
                self.projects(source) ==> match range {
                    Some(range) => match (
                        canonical_endpoint(source, selection, selection.spec_anchor() as int),
                        canonical_endpoint(source, selection, selection.spec_active() as int),
                    ) {
                        (Some(anchor), Some(active)) => {
                            &&& range.secondary <= display_of(source).len()
                            &&& range.primary <= display_of(source).len()
                            &&& source_offset(source, range.secondary as int) == anchor
                            &&& source_offset(source, range.primary as int) == active
                        },
                        _ => false,
                    },
                    None => !endpoints_displayable(source, selection),
                },
    {
        let anchor = match self.canonical_source_endpoint(selection, selection.anchor()) {
            Some(anchor) => anchor,
            None => return None,
        };
        let active = match self.canonical_source_endpoint(selection, selection.active()) {
            Some(active) => active,
            None => return None,
        };
        let primary = match self.source_byte_to_display_char(active) {
            Some(primary) => primary,
            None => return None,
        };
        let secondary = match self.source_byte_to_display_char(anchor) {
            Some(secondary) => secondary,
            None => return None,
        };
        Some(DisplayRange { primary, secondary })
    }
}

/// A byte strictly inside a displayed character is no boundary of the
/// display.
proof fn lemma_strictly_inside_not_boundary(display: Seq<char>, count: int, byte: int)
    requires
        0 <= count < display.len(),
        prefix_bytes(display, count) < byte < prefix_bytes(display, count + 1),
    ensures
        !is_boundary(display, byte),
{
    if is_boundary(display, byte) {
        lemma_char_count_at(display, byte);
        let at = char_count_at(display, byte);
        if at <= count {
            lemma_prefix_bytes_monotone(display, at, count);
        } else {
            lemma_prefix_bytes_monotone(display, count + 1, at);
        }
    }
}
/// Both endpoints of `selection` have a canonical position that is a
/// displayed character boundary.
pub open spec fn endpoints_displayable(chars: Seq<char>, selection: Selection) -> bool {
    match (
        canonical_endpoint(chars, selection, selection.spec_anchor() as int),
        canonical_endpoint(chars, selection, selection.spec_active() as int),
    ) {
        (Some(anchor), Some(active)) => is_display_boundary(chars, anchor as int)
            && is_display_boundary(chars, active as int),
        _ => false,
    }
}

/// Directional display cursors, as character indices into the display:
/// `primary` is the moving end and `secondary` the fixed one.
#[derive(Clone, Copy, PartialEq, Eq, Structural, Debug)]
pub struct DisplayRange {
    /// The moving cursor.
    pub primary: usize,
    /// The fixed cursor.
    pub secondary: usize,
}

/// Whether `byte` is where some displayed character boundary's source ends.
pub open spec fn is_display_boundary(chars: Seq<char>, byte: int) -> bool {
    exists|count: int|
        0 <= count <= display_of(chars).len() && #[trigger] source_offset(chars, count) == byte
}

/// Where a selection endpoint is shown in source: outside the source,
/// nowhere; between CR and LF, before the pair for a caret or the
/// selection's start and after it otherwise; elsewhere, the endpoint itself
/// when it is a displayed character boundary.
pub open spec fn canonical_endpoint(chars: Seq<char>, selection: Selection, endpoint: int) -> Option<
    usize,
> {
    let start = if selection.spec_anchor() <= selection.spec_active() {
        selection.spec_anchor()
    } else {
        selection.spec_active()
    };
    if endpoint > utf8_bytes(chars).len() {
        None
    } else if is_pair_midpoint(crlf_ends(chars, 0), endpoint) {
        if selection.spec_anchor() == selection.spec_active() || endpoint == start {
            Some((endpoint - 1) as usize)
        } else {
            Some((endpoint + 1) as usize)
        }
    } else if is_display_boundary(chars, endpoint) {
        Some(endpoint as usize)
    } else {
        None
    }
}

/// Whether the text holds a carriage return.
pub fn contains_carriage_return(source: &str) -> (found: bool)
    ensures
        found == source@.contains('\r'),
{
    let chars = chars_of(source);
    let mut index: usize = 0;
    while index < chars.len()
        invariant
            chars@ == source@,
            index <= chars@.len(),
            forall|i: int| 0 <= i < index ==> chars@[i] != '\r',
        decreases chars@.len() - index,
    {
        if chars[index] == '\r' {
            proof {
                assert(source@[index as int] == '\r');
            }
            return true;
        }
        index = index + 1;
    }
    false
}

/// Text without carriage returns displays as itself: no pairs collapse and
/// each displayed character stands for one source character.
pub proof fn lemma_without_carriage_return(chars: Seq<char>, base: int)
    requires
        !chars.contains('\r'),
    ensures
        display_of(chars) == chars,
        crlf_ends(chars, base) == Seq::<int>::empty(),
        forall|count: int| 0 <= count <= chars.len() ==> #[trigger] logical_span(chars, count) == count,
    decreases chars.len(),
{
    if chars.len() > 0 {
        let tail = chars.drop_first();
        assert(chars[0] != '\r') by {
            if chars[0] == '\r' {
                assert(chars.contains('\r'));
            }
        }
        assert(!tail.contains('\r')) by {
            if tail.contains('\r') {
                let i = choose|i: int| 0 <= i < tail.len() && tail[i] == '\r';
                assert(chars[i + 1] == '\r');
            }
        }
        lemma_without_carriage_return(tail, base + char_width(chars[0]));
        assert(chars.skip(1) =~= tail);
        assert(display_of(chars) =~= chars);
        assert forall|count: int| 0 <= count <= chars.len() implies #[trigger] logical_span(
            chars,
            count,
        ) == count by {
            if count > 0 {
                assert(logical_span(tail, count - 1) == count - 1);
            }
        }
    }
}

/// Returns the projection of source that holds a carriage return, and
/// `None` for LF-only source, which displays as itself.
pub fn projection_for_source(source: &str) -> (projection: Option<SourceDisplayProjection>)
    ensures
        match projection {
            Some(projection) => source@.contains('\r') && projection.projects(source@),
            None => !source@.contains('\r'),
        },
{
    if contains_carriage_return(source) {
        Some(SourceDisplayProjection::new(source))
    } else {
        None
    }
}

/// Maps a canonical display selection of `source` to exact source bytes
/// without building a projection for LF-only text.
pub fn display_selection_to_source(
    source: &str,
    range: DisplayRange,
) -> (selection: Option<Selection>)
    ensures
        selection == if range.secondary <= display_of(source@).len() && range.primary
            <= display_of(source@).len() {
            Some(
                Selection::spec_new(
                    source_offset(source@, range.secondary as int) as usize,
                    source_offset(source@, range.primary as int) as usize,
                ),
            )
        } else {
            None::<Selection>
        },
{
    if contains_carriage_return(source) {
        SourceDisplayProjection::new(source).selection_to_source(range)
    } else {
        proof {
            lemma_without_carriage_return(source@, 0);
        }
        let anchor = match byte_index_at_char(source, range.secondary) {
            Some(anchor) => anchor,
            None => return None,
        };
        let active = match byte_index_at_char(source, range.primary) {
            Some(active) => active,
            None => return None,
        };
        Some(Selection::new(anchor, active))
    }
}

/// The display character index of source byte `byte` in LF-only text, when
/// it is a scalar boundary inside the text.
fn lf_only_cursor(source: &str, byte: usize) -> (index: Option<usize>)
    requires
        !source@.contains('\r'),
    ensures
        match index {
            Some(index) => index <= display_of(source@).len() && source_offset(
                source@,
                index as int,
            ) == byte,
            None => !is_display_boundary(source@, byte as int),
        },
{
    proof {
        lemma_without_carriage_return(source@, 0);
        encode_utf8_valid_utf8(source@);
        lemma_prefix_bytes_full(source@);
    }
    let length = str_len(source);
    if byte > length || !source.is_char_boundary(byte) {
        proof {
            if is_display_boundary(source@, byte as int) {
                let k = choose|k: int|
                    0 <= k <= display_of(source@).len() && #[trigger] source_offset(source@, k)
                        == byte;
                lemma_prefix_is_boundary(source@, k);
                lemma_prefix_bytes_monotone(source@, k, source@.len() as int);
            }
        }
        return None;
    }
    proof {
        lemma_char_count_at(source@, byte as int);
        lemma_prefix_is_boundary(source@, 0);
        lemma_char_count_at(source@, 0);
    }
    let prefix = str_slice(source, 0, byte);
    let characters = chars_of(prefix).len();
    Some(characters)
}

/// Maps an exact source selection of `source` to display cursors without
/// building a projection for LF-only text.
pub fn source_selection_to_display(
    source: &str,
    selection: Selection,
) -> (range: Option<DisplayRange>)
    ensures
        match range {
            Some(range) => match (
                canonical_endpoint(source@, selection, selection.spec_anchor() as int),
                canonical_endpoint(source@, selection, selection.spec_active() as int),
            ) {
                (Some(anchor), Some(active)) => {
                    &&& range.secondary <= display_of(source@).len()
                    &&& range.primary <= display_of(source@).len()
                    &&& source_offset(source@, range.secondary as int) == anchor
                    &&& source_offset(source@, range.primary as int) == active
                },
                _ => false,
            },
            None => !endpoints_displayable(source@, selection),
        },
{
    if contains_carriage_return(source) {
        SourceDisplayProjection::new(source).selection_to_display(selection)
    } else {
        proof {
            lemma_without_carriage_return(source@, 0);
            lemma_prefix_bytes_full(source@);
            assert forall|byte: int| byte > utf8_bytes(source@).len() implies !is_display_boundary(
                source@,
                byte,
            ) by {
                if is_display_boundary(source@, byte) {
                    let k = choose|k: int|
                        0 <= k <= display_of(source@).len() && #[trigger] source_offset(source@, k)
                            == byte;
                    lemma_prefix_bytes_monotone(source@, k, source@.len() as int);
                }
            }
        }
        let primary = match lf_only_cursor(source, selection.active()) {
            Some(primary) => primary,
            None => {
                proof {
                    assert(canonical_endpoint(source@, selection, selection.spec_active() as int)
                        is None);
                }
                return None;
            },
        };
        let secondary = match lf_only_cursor(source, selection.anchor()) {
            Some(secondary) => secondary,
            None => {
                proof {
                    assert(canonical_endpoint(source@, selection, selection.spec_anchor() as int)
                        is None);
                }
                return None;
            },
        };
        proof {
            lemma_source_offset_bound(source@, primary as int);
            lemma_source_offset_bound(source@, secondary as int);
            assert(is_display_boundary(source@, selection.spec_active() as int));
            assert(is_display_boundary(source@, selection.spec_anchor() as int));
            assert(!is_pair_midpoint(crlf_ends(source@, 0), selection.spec_active() as int));
            assert(!is_pair_midpoint(crlf_ends(source@, 0), selection.spec_anchor() as int));
        }
        Some(DisplayRange { primary, secondary })
    }
}

/// Displayed character boundaries map to strictly increasing source bytes.
pub proof fn lemma_source_offsets_increase(chars: Seq<char>, first: int, second: int)
    requires
        0 <= first < second <= display_of(chars).len(),
    ensures
        source_offset(chars, first) < source_offset(chars, second),
    decreases chars.len(),
{
    lemma_offsets_step(chars, second);
    let tail = chars.skip(first_unit_len(chars));
    crate::utf8_text::lemma_scalar_width(chars[0]);
    if first == 0 {
        assert(logical_span(chars, 0) == 0);
        lemma_prefix_bytes_full(chars);
        lemma_source_offset_bound(tail, second - 1);
    } else {
        lemma_offsets_step(chars, first);
        lemma_source_offsets_increase(tail, first - 1, second - 1);
    }
}

/// Mapping a displayed character boundary to its source byte and back
/// gives the same boundary: no two boundaries share a source byte.
pub proof fn lemma_display_round_trip(chars: Seq<char>, count: int, other: int)
    requires
        0 <= count <= display_of(chars).len(),
        0 <= other <= display_of(chars).len(),
        source_offset(chars, other) == source_offset(chars, count),
    ensures
        other == count,
{
    if other < count {
        lemma_source_offsets_increase(chars, other, count);
    } else if count < other {
        lemma_source_offsets_increase(chars, count, other);
    }
}

/// The displayed character boundary whose source byte is `byte`, if any.
pub open spec fn source_to_display(chars: Seq<char>, byte: int) -> Option<int> {
    if is_display_boundary(chars, byte) {
        Some(
            choose|count: int|
                0 <= count <= display_of(chars).len() && #[trigger] source_offset(chars, count)
                    == byte,
        )
    } else {
        None
    }
}

/// The two mappings invert each other: every displayed character boundary
/// maps to a source byte that maps back to it, and every source byte that
/// maps to a displayed boundary is that boundary's source byte.
pub proof fn lemma_mappings_invert(chars: Seq<char>)
    ensures
        forall|count: int|
            0 <= count <= display_of(chars).len() ==> source_to_display(
                chars,
                #[trigger] source_offset(chars, count),
            ) == Some(count),
        forall|byte: int|
            #[trigger] source_to_display(chars, byte) matches Some(count) ==> 0 <= count
                <= display_of(chars).len() && source_offset(chars, count) == byte,
{
    assert forall|count: int| 0 <= count <= display_of(chars).len() implies source_to_display(
        chars,
        #[trigger] source_offset(chars, count),
    ) == Some(count) by {
        let byte = source_offset(chars, count);
        assert(is_display_boundary(chars, byte));
        let other = choose|other: int|
            0 <= other <= display_of(chars).len() && #[trigger] source_offset(chars, other) == byte;
        lemma_display_round_trip(chars, count, other);
    }
}

/// Reusable canonical display storage for an unchanged source generation.
///
/// A cache is valid only while the caller knows the source has not changed
/// outside the projected buffer; without one the projection is rebuilt.
#[derive(Debug)]
pub struct ProjectedTextCache {
    projection: Option<SourceDisplayProjection>,
}

impl ProjectedTextCache {
    /// The cached projection, if any.
    pub closed spec fn spec_projection(&self) -> Option<SourceDisplayProjection> {
        self.projection
    }

    /// Keeps `projection` for reuse.
    pub fn new(projection: Option<SourceDisplayProjection>) -> (cache: Self)
        ensures
            cache.spec_projection() == projection,
    {
        ProjectedTextCache { projection }
    }

    /// Returns the cached projection.
    pub fn into_projection(self) -> (projection: Option<SourceDisplayProjection>)
        ensures
            projection == self.spec_projection(),
    {
        self.projection
    }
}

} // verus!
