//! Line endings for inserted text: every newline a user inserts (LF, CR, or
//! a CRLF pair) is written with the document's insertion convention, and an
//! insertion keeps its longest prefix whose written bytes fit the room left.

use vstd::prelude::*;
use vstd::string::StringExecFns;

use crate::projection::first_unit_len;
use crate::utf8_text::{
    char_count_at, chars_of, is_boundary, lemma_char_count_at, lemma_encode_concat,
    lemma_encode_single, lemma_prefix_bytes_full, lemma_prefix_bytes_monotone,
    lemma_prefix_bytes_step, lemma_prefix_is_boundary, prefix_bytes, str_len, str_slice,
    utf8_bytes, utf8_width,
};

verus! {

broadcast use vstd::seq_lib::group_seq_properties;

/// How a newline is written.
#[derive(Clone, Copy, PartialEq, Eq, Structural, Debug)]
pub enum LineEnding {
    /// A line feed.
    Lf,
    /// A carriage return followed by a line feed.
    CrLf,
    /// A carriage return.
    Cr,
}

/// The characters of a line ending.
pub open spec fn ending_chars(ending: LineEnding) -> Seq<char> {
    match ending {
        LineEnding::Lf => seq!['\n'],
        LineEnding::CrLf => seq!['\r', '\n'],
        LineEnding::Cr => seq!['\r'],
    }
}

impl LineEnding {
    /// Returns the text of this line ending.
    pub fn as_str(self) -> (text: &'static str)
        ensures
            text@ == ending_chars(self),
    {
        proof {
            reveal_strlit("\n");
            reveal_strlit("\r\n");
            reveal_strlit("\r");
        }
        match self {
            LineEnding::Lf => "\n",
            LineEnding::CrLf => "\r\n",
            LineEnding::Cr => "\r",
        }
    }

    /// Returns the byte length of this line ending.
    pub fn byte_len(self) -> (length: usize)
        ensures
            length == utf8_bytes(ending_chars(self)).len(),
    {
        proof {
            lemma_encode_single('\n');
            lemma_encode_single('\r');
            lemma_encode_concat(seq!['\r'], seq!['\n']);
            assert(seq!['\r'] + seq!['\n'] =~= seq!['\r', '\n']);
        }
        match self {
            LineEnding::CrLf => 2,
            _ => 1,
        }
    }
}

/// Whether a character starts a newline: LF or CR.
pub open spec fn is_newline_char(c: char) -> bool {
    c == '\n' || c == '\r'
}

/// What the first unit of non-empty `chars` is written as: a newline (a
/// CRLF pair, a CR or an LF) as `ending`, any other character as itself.
pub open spec fn unit_output(chars: Seq<char>, ending: LineEnding) -> Seq<char> {
    if is_newline_char(chars[0]) {
        ending_chars(ending)
    } else {
        seq![chars[0]]
    }
}

/// The longest prefix of `chars`, in whole units, whose written form takes
/// at most `remaining` bytes: that written form, and how many characters
/// of `chars` it consumed.
pub open spec fn normalize_within(chars: Seq<char>, ending: LineEnding, remaining: int) -> (
    Seq<char>,
    int,
)
    decreases chars.len(),
{
    if chars.len() == 0 {
        (Seq::empty(), 0)
    } else {
        let piece = unit_output(chars, ending);
        let width = utf8_bytes(piece).len() as int;
        if width > remaining {
            (Seq::empty(), 0)
        } else {
            let (rest, count) = normalize_within(
                chars.skip(first_unit_len(chars)),
                ending,
                remaining - width,
            );
            (piece + rest, first_unit_len(chars) + count)
        }
    }
}

/// Text prepared for insertion: its written form, how many input bytes it
/// consumed, and whether the input was cut short.
#[derive(Debug)]
pub struct NormalizedInsertion {
    /// The text to insert.
    pub text: String,
    /// How many bytes of the input it stands for.
    pub consumed_input_bytes: usize,
    /// Whether part of the input did not fit.
    pub was_limited: bool,
}

/// A normalized prefix consumes at most the whole text and writes at most
/// the room it was given.
pub proof fn lemma_normalize_bounds(chars: Seq<char>, ending: LineEnding, remaining: int)
    requires
        remaining >= 0,
    ensures
        0 <= normalize_within(chars, ending, remaining).1 <= chars.len(),
        utf8_bytes(normalize_within(chars, ending, remaining).0).len() <= remaining,
    decreases chars.len(),
{
    if chars.len() > 0 {
        let piece = unit_output(chars, ending);
        let width = utf8_bytes(piece).len() as int;
        if width <= remaining {
            let tail = chars.skip(first_unit_len(chars));
            lemma_normalize_bounds(tail, ending, remaining - width);
            lemma_encode_concat(piece, normalize_within(tail, ending, remaining - width).0);
        }
    }
}

/// Normalizing the rest of a text from one unit onward.
proof fn lemma_normalize_step(all: Seq<char>, index: int, ending: LineEnding, left: int)
    requires
        0 <= index < all.len(),
    ensures
        ({
            let tail = all.skip(index);
            let unit = first_unit_len(tail);
            let piece = unit_output(tail, ending);
            let width = utf8_bytes(piece).len() as int;
            &&& unit == if all[index] == '\r' && index + 1 < all.len() && all[index + 1] == '\n' {
                2int
            } else {
                1int
            }
            &&& tail.skip(unit) == all.skip(index + unit)
            &&& piece == if is_newline_char(all[index]) {
                ending_chars(ending)
            } else {
                seq![all[index]]
            }
            &&& normalize_within(tail, ending, left) == if width > left {
                (Seq::<char>::empty(), 0int)
            } else {
                let (rest, count) = normalize_within(all.skip(index + unit), ending, left - width);
                (piece + rest, unit + count)
            }
        }),
{
    let tail = all.skip(index);
    assert(tail[0] == all[index]);
    if index + 1 < all.len() {
        assert(tail[1] == all[index + 1]);
    }
    assert(tail.skip(first_unit_len(tail)) =~= all.skip(index + first_unit_len(tail)));
}

/// Writes every newline of `text` as `ending` and keeps the longest prefix,
/// in whole characters and never splitting a CRLF pair, whose written form
/// fits `remaining` bytes.
#[verifier::rlimit(40)]
pub fn normalize_inserted_text(text: &str, ending: LineEnding, remaining: usize) -> (normalized:
    NormalizedInsertion)
    ensures
        normalized.text@ == normalize_within(text@, ending, remaining as int).0,
        normalized.consumed_input_bytes == prefix_bytes(
            text@,
            normalize_within(text@, ending, remaining as int).1,
        ),
        normalized.was_limited == (normalize_within(text@, ending, remaining as int).1
            < text@.len()),
        0 <= normalize_within(text@, ending, remaining as int).1 <= text@.len(),
        utf8_bytes(normalized.text@).len() <= remaining,
{
    let ghost all = text@;
    let chars = chars_of(text);
    let length = str_len(text);
    let newline = ending.as_str();
    let newline_bytes = ending.byte_len();
    let mut written = String::new();
    let mut index: usize = 0;
    let mut offset: usize = 0;
    let mut left = remaining;
    proof {
        lemma_prefix_bytes_full(all);
        assert(all.skip(0) =~= all);
        assert(written@ =~= Seq::<char>::empty());
        assert(written@ + normalize_within(all, ending, remaining as int).0 =~= normalize_within(
            all,
            ending,
            remaining as int,
        ).0);
    }
    while index < chars.len()
        invariant
            chars@ == all,
            text@ == all,
            newline@ == ending_chars(ending),
            newline_bytes == utf8_bytes(ending_chars(ending)).len(),
            index <= all.len(),
            length == utf8_bytes(all).len(),
            length <= isize::MAX,
            offset == prefix_bytes(all, index as int),
            left <= remaining,
            utf8_bytes(written@).len() + left == remaining,
            ({
                let (rest, count) = normalize_within(all.skip(index as int), ending, left as int);
                &&& normalize_within(all, ending, remaining as int).0 == written@ + rest
                &&& normalize_within(all, ending, remaining as int).1 == index + count
            }),
        ensures
            normalize_within(all.skip(index as int), ending, left as int) == (
                Seq::<char>::empty(),
                0int,
            ),
        decreases all.len() - index,
    {
        proof {
            lemma_normalize_step(all, index as int, ending, left as int);
            lemma_prefix_bytes_step(all, index as int);
            lemma_prefix_bytes_monotone(all, index + 1, all.len() as int);
        }
        let ghost before = written@;
        if chars[index] == '\r' || chars[index] == '\n' {
            if newline_bytes > left {
                break;
            }
            written.append(newline);
            left = left - newline_bytes;
            if chars[index] == '\r' && index + 1 < chars.len() && chars[index + 1] == '\n' {
                proof {
                    lemma_prefix_bytes_step(all, index + 1);
                    lemma_prefix_bytes_monotone(all, index + 2, all.len() as int);
                }
                offset = offset + 2;
                index = index + 2;
            } else {
                offset = offset + 1;
                index = index + 1;
            }
            proof {
                lemma_encode_concat(before, ending_chars(ending));
            }
        } else {
            let width = utf8_width(chars[index]);
            proof {
                lemma_encode_single(all[index as int]);
            }
            if width > left {
                break;
            }
            proof {
                lemma_prefix_is_boundary(all, index as int);
                lemma_prefix_is_boundary(all, index + 1);
                lemma_char_count_at(all, offset as int);
                lemma_char_count_at(all, offset + width);
                assert(all.subrange(index as int, index + 1) =~= seq![all[index as int]]);
                lemma_encode_concat(before, seq![all[index as int]]);
            }
            let piece = str_slice(text, offset, offset + width);
            written.append(piece);
            left = left - width;
            offset = offset + width;
            index = index + 1;
        }
    }
    proof {
        assert(written@ + Seq::<char>::empty() =~= written@);
        lemma_normalize_bounds(all, ending, remaining as int);
    }
    NormalizedInsertion {
        text: written,
        consumed_input_bytes: offset,
        was_limited: index < chars.len(),
    }
}

/// `chars` with every newline (a CRLF pair, a CR or an LF) written as
/// `ending`.
pub open spec fn written_form(chars: Seq<char>, ending: LineEnding) -> Seq<char>
    decreases chars.len(),
{
    if chars.len() == 0 {
        Seq::empty()
    } else {
        unit_output(chars, ending) + written_form(chars.skip(first_unit_len(chars)), ending)
    }
}

/// What a budgeted normalization writes is the written form of the prefix
/// it consumed.
pub proof fn lemma_normalized_is_written_prefix(
    chars: Seq<char>,
    ending: LineEnding,
    remaining: int,
)
    ensures
        normalize_within(chars, ending, remaining).0 == written_form(
            chars.take(normalize_within(chars, ending, remaining).1),
            ending,
        ),
    decreases chars.len(),
{
    if chars.len() > 0 {
        let unit = first_unit_len(chars);
        let piece = unit_output(chars, ending);
        let width = utf8_bytes(piece).len() as int;
        if width > remaining {
            assert(chars.take(0) =~= Seq::<char>::empty());
        } else {
            let tail = chars.skip(unit);
            lemma_normalize_bounds_any(tail, ending, remaining - width);
            lemma_normalized_is_written_prefix(tail, ending, remaining - width);
            let rest_count = normalize_within(tail, ending, remaining - width).1;
            let consumed = unit + rest_count;
            let prefix = chars.take(consumed);
            assert(prefix[0] == chars[0]);
            if consumed > 1 {
                assert(prefix[1] == chars[1]);
            }
            assert(first_unit_len(prefix) == unit);
            assert(unit_output(prefix, ending) == piece);
            assert(prefix.skip(unit) =~= tail.take(rest_count));
            assert(written_form(prefix, ending) == piece + written_form(prefix.skip(unit), ending));
        }
    }
}

/// A normalization consumes at most the whole text.
proof fn lemma_normalize_bounds_any(chars: Seq<char>, ending: LineEnding, remaining: int)
    ensures
        0 <= normalize_within(chars, ending, remaining).1 <= chars.len(),
    decreases chars.len(),
{
    if chars.len() > 0 {
        let piece = unit_output(chars, ending);
        let width = utf8_bytes(piece).len() as int;
        if width <= remaining {
            lemma_normalize_bounds_any(chars.skip(first_unit_len(chars)), ending, remaining - width);
        }
    }
}

/// Writing the canonical display of a text gives what writing the text
/// gives: both turn each newline into one `ending`.
pub proof fn lemma_written_form_of_display(chars: Seq<char>, ending: LineEnding)
    ensures
        written_form(crate::projection::display_of(chars), ending) == written_form(chars, ending),
    decreases chars.len(),
{
    if chars.len() > 0 {
        let unit = first_unit_len(chars);
        let tail = chars.skip(unit);
        let shown = crate::projection::display_of(chars);
        lemma_written_form_of_display(tail, ending);
        let first = if chars[0] == '\r' {
            '\n'
        } else {
            chars[0]
        };
        assert(shown == seq![first] + crate::projection::display_of(tail));
        assert(shown[0] == first);
        assert(first_unit_len(shown) == 1);
        assert(shown.skip(1) =~= crate::projection::display_of(tail));
    }
}

/// How many of each line ending a text holds.
#[derive(Clone, Copy, PartialEq, Eq, Structural, Debug)]
pub struct LineEndingCounts {
    /// Line feeds not preceded by a carriage return.
    pub lf: usize,
    /// Carriage return and line feed pairs.
    pub crlf: usize,
    /// Carriage returns not followed by a line feed.
    pub cr: usize,
}

/// The line endings a text uses, counted without changing any of them.
#[derive(Clone, Copy, PartialEq, Eq, Structural, Debug)]
pub enum LineEndingProfile {
    /// The text has no line ending.
    Empty,
    /// Every line ending is the same.
    Uniform {
        /// The one ending used.
        ending: LineEnding,
        /// How many there are.
        count: usize,
    },
    /// More than one kind of line ending is used.
    Mixed {
        /// How many of each there are.
        counts: LineEndingCounts,
        /// The ending new lines are written with: the most frequent one,
        /// CRLF before LF before CR on a tie.
        insertion: LineEnding,
    },
}

/// The number of LF, CRLF and CR line endings in `chars`, a CRLF pair
/// counting once.
pub open spec fn ending_counts(chars: Seq<char>) -> (nat, nat, nat)
    decreases chars.len(),
{
    if chars.len() == 0 {
        (0, 0, 0)
    } else {
        let (lf, crlf, cr) = ending_counts(chars.skip(first_unit_len(chars)));
        if first_unit_len(chars) == 2 {
            (lf, crlf + 1, cr)
        } else if chars[0] == '\r' {
            (lf, crlf, cr + 1)
        } else if chars[0] == '\n' {
            (lf + 1, crlf, cr)
        } else {
            (lf, crlf, cr)
        }
    }
}

/// The profile of a text with these counts.
pub open spec fn profile_of(lf: nat, crlf: nat, cr: nat) -> LineEndingProfile {
    if lf == 0 && crlf == 0 && cr == 0 {
        LineEndingProfile::Empty
    } else if crlf == 0 && cr == 0 {
        LineEndingProfile::Uniform { ending: LineEnding::Lf, count: lf as usize }
    } else if lf == 0 && cr == 0 {
        LineEndingProfile::Uniform { ending: LineEnding::CrLf, count: crlf as usize }
    } else if lf == 0 && crlf == 0 {
        LineEndingProfile::Uniform { ending: LineEnding::Cr, count: cr as usize }
    } else {
        LineEndingProfile::Mixed {
            counts: LineEndingCounts { lf: lf as usize, crlf: crlf as usize, cr: cr as usize },
            insertion: if crlf >= lf && crlf >= cr {
                LineEnding::CrLf
            } else if lf >= cr {
                LineEnding::Lf
            } else {
                LineEnding::Cr
            },
        }
    }
}

/// The line-ending profile of `chars`.
pub open spec fn detect_profile(chars: Seq<char>) -> LineEndingProfile {
    let (lf, crlf, cr) = ending_counts(chars);
    profile_of(lf, crlf, cr)
}

/// Counting from one unit onward.
proof fn lemma_count_step(all: Seq<char>, index: int)
    requires
        0 <= index < all.len(),
    ensures
        ({
            let tail = all.skip(index);
            let unit = if all[index] == '\r' && index + 1 < all.len() && all[index + 1] == '\n' {
                2int
            } else {
                1int
            };
            let (lf, crlf, cr) = ending_counts(all.skip(index + unit));
            ending_counts(tail) == if unit == 2 {
                (lf, crlf + 1, cr)
            } else if all[index] == '\r' {
                (lf, crlf, cr + 1)
            } else if all[index] == '\n' {
                (lf + 1, crlf, cr)
            } else {
                (lf, crlf, cr)
            }
        }),
{
    let tail = all.skip(index);
    assert(tail[0] == all[index]);
    if index + 1 < all.len() {
        assert(tail[1] == all[index + 1]);
    }
    assert(tail.skip(first_unit_len(tail)) =~= all.skip(index + first_unit_len(tail)));
}

impl LineEndingProfile {
    /// Counts the line endings of `text` and classifies them.
    pub fn detect(text: &str) -> (profile: Self)
        ensures
            profile == detect_profile(text@),
    {
        let ghost all = text@;
        let chars = chars_of(text);
        let mut lf: usize = 0;
        let mut crlf: usize = 0;
        let mut cr: usize = 0;
        let mut index: usize = 0;
        proof {
            assert(all.skip(0) =~= all);
        }
        while index < chars.len()
            invariant
                chars@ == all,
                index <= all.len(),
                lf + crlf + cr <= index,
                ({
                    let (rest_lf, rest_crlf, rest_cr) = ending_counts(all.skip(index as int));
                    &&& ending_counts(all).0 == lf + rest_lf
                    &&& ending_counts(all).1 == crlf + rest_crlf
                    &&& ending_counts(all).2 == cr + rest_cr
                }),
            decreases all.len() - index,
        {
            proof {
                lemma_count_step(all, index as int);
            }
            if chars[index] == '\r' && index + 1 < chars.len() && chars[index + 1] == '\n' {
                crlf = crlf + 1;
                index = index + 2;
            } else {
                if chars[index] == '\r' {
                    cr = cr + 1;
                } else if chars[index] == '\n' {
                    lf = lf + 1;
                }
                index = index + 1;
            }
        }
        proof {
            assert(all.skip(index as int) =~= Seq::<char>::empty());
        }
        if lf == 0 && crlf == 0 && cr == 0 {
            LineEndingProfile::Empty
        } else if crlf == 0 && cr == 0 {
            LineEndingProfile::Uniform { ending: LineEnding::Lf, count: lf }
        } else if lf == 0 && cr == 0 {
            LineEndingProfile::Uniform { ending: LineEnding::CrLf, count: crlf }
        } else if lf == 0 && crlf == 0 {
            LineEndingProfile::Uniform { ending: LineEnding::Cr, count: cr }
        } else {
            let insertion = if crlf >= lf && crlf >= cr {
                LineEnding::CrLf
            } else if lf >= cr {
                LineEnding::Lf
            } else {
                LineEnding::Cr
            };
            LineEndingProfile::Mixed { counts: LineEndingCounts { lf, crlf, cr }, insertion }
        }
    }
}

/// How many times `c` occurs in `chars`.
pub open spec fn occurrences(chars: Seq<char>, c: char) -> nat
    decreases chars.len(),
{
    if chars.len() == 0 {
        0
    } else {
        (if chars[0] == c {
            1nat
        } else {
            0nat
        }) + occurrences(chars.drop_first(), c)
    }
}

/// The count of one ending in `counts`.
pub open spec fn count_of(counts: LineEndingCounts, ending: LineEnding) -> usize {
    match ending {
        LineEnding::Lf => counts.lf,
        LineEnding::CrLf => counts.crlf,
        LineEnding::Cr => counts.cr,
    }
}

/// Every LF ends a line alone or closes a CRLF pair, and every CR ends a
/// line alone or opens one; no ending is counted twice.
proof fn lemma_counts_cover_newlines(chars: Seq<char>)
    ensures
        ending_counts(chars).0 + ending_counts(chars).1 == occurrences(chars, '\n'),
        ending_counts(chars).2 + ending_counts(chars).1 == occurrences(chars, '\r'),
        ending_counts(chars).0 + ending_counts(chars).1 + ending_counts(chars).2 <= chars.len(),
    decreases chars.len(),
{
    if chars.len() > 0 {
        let unit = first_unit_len(chars);
        lemma_counts_cover_newlines(chars.skip(unit));
        if unit == 2 {
            let second = chars.drop_first();
            assert(second[0] == chars[1]);
            assert(second.drop_first() =~= chars.skip(2));
            assert(occurrences(chars, '\n') == occurrences(second, '\n'));
            assert(occurrences(second, '\n') == 1 + occurrences(chars.skip(2), '\n'));
            assert(occurrences(chars, '\r') == 1 + occurrences(second, '\r'));
            assert(occurrences(second, '\r') == occurrences(chars.skip(2), '\r'));
        } else {
            assert(chars.skip(1) =~= chars.drop_first());
        }
    }
}

/// The profile counts the text's line endings exactly: the LFs and CRLF
/// pairs together are the text's LF characters, the CRs and CRLF pairs its
/// CR characters. A text without them has the empty profile; a uniform
/// profile counts every line ending and uses no other kind; a mixed one
/// writes new lines with an ending used most often (on a tie CRLF before
/// LF before CR).
pub proof fn lemma_profile_counts_line_endings(chars: Seq<char>)
    requires
        chars.len() <= usize::MAX,
    ensures
        match detect_profile(chars) {
            LineEndingProfile::Empty => occurrences(chars, '\n') == 0 && occurrences(chars, '\r')
                == 0,
            LineEndingProfile::Uniform { ending, count } => count > 0 && match ending {
                LineEnding::Lf => count == occurrences(chars, '\n') && occurrences(chars, '\r')
                    == 0,
                LineEnding::Cr => count == occurrences(chars, '\r') && occurrences(chars, '\n')
                    == 0,
                LineEnding::CrLf => count == occurrences(chars, '\n') && count == occurrences(
                    chars,
                    '\r',
                ),
            },
            LineEndingProfile::Mixed { counts, insertion } => {
                &&& counts.lf + counts.crlf == occurrences(chars, '\n')
                &&& counts.cr + counts.crlf == occurrences(chars, '\r')
                &&& (counts.lf > 0) as int + (counts.crlf > 0) as int + (counts.cr > 0) as int >= 2
                &&& count_of(counts, insertion) >= counts.lf
                &&& count_of(counts, insertion) >= counts.crlf
                &&& count_of(counts, insertion) >= counts.cr
                &&& insertion == LineEnding::Lf ==> counts.lf > counts.crlf
                &&& insertion == LineEnding::Cr ==> counts.cr > counts.crlf && counts.cr > counts.lf
            },
        },
{
    lemma_counts_cover_newlines(chars);
}

/// A mixed profile writes new lines with an ending used at least as often
/// as any other, and with the one used strictly most often when there is
/// one.
pub proof fn lemma_mixed_insertion_is_most_frequent(chars: Seq<char>)
    requires
        chars.len() <= usize::MAX,
    ensures
        detect_profile(chars) matches LineEndingProfile::Mixed { counts, insertion } ==> {
            &&& count_of(counts, insertion) >= counts.lf
            &&& count_of(counts, insertion) >= counts.crlf
            &&& count_of(counts, insertion) >= counts.cr
            &&& counts.cr > counts.lf && counts.cr > counts.crlf ==> insertion == LineEnding::Cr
            &&& counts.lf > counts.cr && counts.lf > counts.crlf ==> insertion == LineEnding::Lf
            &&& counts.crlf > counts.cr && counts.crlf > counts.lf ==> insertion
                == LineEnding::CrLf
        },
{
    lemma_counts_cover_newlines(chars);
}

} // verus!
