//! UTF-8 byte-level facts about character sequences, and the small string
//! operations the editor core performs on exact byte boundaries.

use vstd::prelude::*;
use vstd::string::StringSliceAdditionalSpecFns;
use vstd::utf8::*;

verus! {

broadcast use vstd::seq_lib::group_seq_properties;

/// The exact UTF-8 source bytes of a character sequence.
pub open spec fn utf8_bytes(chars: Seq<char>) -> Seq<u8> {
    encode_utf8(chars)
}

/// The number of UTF-8 bytes occupied by the first `count` characters.
pub open spec fn prefix_bytes(chars: Seq<char>, count: int) -> nat {
    encode_utf8(chars.take(count)).len()
}

/// Whether `offset` is a scalar boundary of the UTF-8 encoding of `chars`.
pub open spec fn is_boundary(chars: Seq<char>, offset: int) -> bool {
    is_char_boundary(encode_utf8(chars), offset)
}

/// UTF-8 encoding distributes over concatenation.
pub proof fn lemma_encode_concat(a: Seq<char>, b: Seq<char>)
    ensures
        encode_utf8(a + b) == encode_utf8(a) + encode_utf8(b),
    decreases a.len(),
{
    if a.len() == 0 {
        assert(a + b =~= b);
        assert(encode_utf8(a) =~= Seq::<u8>::empty());
        assert(encode_utf8(a) + encode_utf8(b) =~= encode_utf8(b));
    } else {
        assert((a + b).drop_first() =~= a.drop_first() + b);
        assert((a + b)[0] == a[0]);
        lemma_encode_concat(a.drop_first(), b);
        assert(encode_utf8(a + b) =~= encode_scalar(a[0] as u32) + encode_utf8(a.drop_first() + b));
        assert(encode_utf8(a) + encode_utf8(b) =~= encode_scalar(a[0] as u32) + (encode_utf8(
            a.drop_first(),
        ) + encode_utf8(b)));
    }
}

/// A single character encodes as its scalar encoding.
pub proof fn lemma_encode_single(c: char)
    ensures
        encode_utf8(seq![c]) == encode_scalar(c as u32),
{
    reveal_with_fuel(encode_utf8, 2);
    assert(seq![c].drop_first() =~= Seq::<char>::empty());
    assert(encode_scalar(c as u32) + Seq::<u8>::empty() =~= encode_scalar(c as u32));
}

/// Every character occupies between one and four bytes.
pub proof fn lemma_scalar_width(c: char)
    ensures
        1 <= encode_scalar(c as u32).len() <= 4,
{
}

/// The encoding of one more character is strictly longer.
pub proof fn lemma_prefix_bytes_step(chars: Seq<char>, count: int)
    requires
        0 <= count < chars.len(),
    ensures
        prefix_bytes(chars, count + 1) == prefix_bytes(chars, count) + encode_scalar(
            chars[count] as u32,
        ).len(),
        prefix_bytes(chars, count) < prefix_bytes(chars, count + 1),
{
    assert(chars.take(count + 1) =~= chars.take(count) + seq![chars[count]]);
    lemma_encode_concat(chars.take(count), seq![chars[count]]);
    lemma_encode_single(chars[count]);
}

/// Prefix byte counts grow strictly with the character count.
pub proof fn lemma_prefix_bytes_monotone(chars: Seq<char>, i: int, j: int)
    requires
        0 <= i <= j <= chars.len(),
    ensures
        prefix_bytes(chars, i) <= prefix_bytes(chars, j),
        i < j ==> prefix_bytes(chars, i) < prefix_bytes(chars, j),
    decreases j - i,
{
    if i < j {
        lemma_prefix_bytes_monotone(chars, i, j - 1);
        lemma_prefix_bytes_step(chars, j - 1);
    }
}

/// The whole sequence's prefix byte count is the full encoding length.
pub proof fn lemma_prefix_bytes_full(chars: Seq<char>)
    ensures
        prefix_bytes(chars, chars.len() as int) == encode_utf8(chars).len(),
        prefix_bytes(chars, 0) == 0,
{
    assert(chars.take(chars.len() as int) =~= chars);
    assert(chars.take(0) =~= Seq::<char>::empty());
}

/// Splitting the characters splits the encoding at the prefix byte count.
pub proof fn lemma_encode_split(chars: Seq<char>, count: int)
    requires
        0 <= count <= chars.len(),
    ensures
        encode_utf8(chars) == encode_utf8(chars.take(count)) + encode_utf8(chars.skip(count)),
        encode_utf8(chars).take(prefix_bytes(chars, count) as int) == encode_utf8(
            chars.take(count),
        ),
        encode_utf8(chars).skip(prefix_bytes(chars, count) as int) == encode_utf8(
            chars.skip(count),
        ),
{
    assert(chars =~= chars.take(count) + chars.skip(count));
    lemma_encode_concat(chars.take(count), chars.skip(count));
    let a = encode_utf8(chars.take(count));
    let b = encode_utf8(chars.skip(count));
    assert((a + b).take(a.len() as int) =~= a);
    assert((a + b).skip(a.len() as int) =~= b);
}

/// Equal encodings come from equal character sequences.
pub proof fn lemma_encode_injective(a: Seq<char>, b: Seq<char>)
    requires
        encode_utf8(a) == encode_utf8(b),
    ensures
        a == b,
{
    encode_utf8_decode_utf8(a);
    encode_utf8_decode_utf8(b);
}

/// Every prefix byte count is a scalar boundary.
pub proof fn lemma_prefix_is_boundary(chars: Seq<char>, count: int)
    requires
        0 <= count <= chars.len(),
    ensures
        is_boundary(chars, prefix_bytes(chars, count) as int),
    decreases count,
{
    broadcast use encode_utf8_valid_utf8;

    if count == 0 {
        assert(chars.take(0) =~= Seq::<char>::empty());
    } else {
        let bytes = encode_utf8(chars);
        let rest = chars.drop_first();
        encode_utf8_first_scalar(chars);
        assert(pop_first_scalar(bytes) =~= encode_utf8(rest));
        lemma_prefix_is_boundary(rest, count - 1);
        assert(chars.take(count) =~= seq![chars[0]] + rest.take(count - 1));
        lemma_encode_concat(seq![chars[0]], rest.take(count - 1));
        lemma_encode_single(chars[0]);
        lemma_prefix_bytes_monotone(chars, count, chars.len() as int);
        lemma_prefix_bytes_full(chars);
    }
}

/// Every scalar boundary is the byte count of some character prefix.
pub proof fn lemma_boundary_has_prefix(chars: Seq<char>, offset: int)
    requires
        is_boundary(chars, offset),
    ensures
        exists|count: int| 0 <= count <= chars.len() && prefix_bytes(chars, count) == offset,
    decreases chars.len(),
{
    broadcast use encode_utf8_valid_utf8;

    if offset == 0 {
        lemma_prefix_bytes_full(chars);
        assert(prefix_bytes(chars, 0) == 0);
    } else {
        let bytes = encode_utf8(chars);
        assert(bytes.len() > 0);
        assert(chars.len() > 0) by {
            if chars.len() == 0 {
                assert(bytes =~= Seq::<u8>::empty());
            }
        }
        let rest = chars.drop_first();
        encode_utf8_first_scalar(chars);
        assert(pop_first_scalar(bytes) =~= encode_utf8(rest));
        let width = encode_scalar(chars[0] as u32).len() as int;
        lemma_boundary_has_prefix(rest, offset - width);
        let inner = choose|count: int|
            0 <= count <= rest.len() && prefix_bytes(rest, count) == offset - width;
        assert(chars.take(inner + 1) =~= seq![chars[0]] + rest.take(inner));
        lemma_encode_concat(seq![chars[0]], rest.take(inner));
        lemma_encode_single(chars[0]);
        assert(prefix_bytes(chars, inner + 1) == offset);
    }
}

/// Two prefix byte counts are equal only for equal character counts.
pub proof fn lemma_prefix_bytes_unique(chars: Seq<char>, i: int, j: int)
    requires
        0 <= i <= chars.len(),
        0 <= j <= chars.len(),
        prefix_bytes(chars, i) == prefix_bytes(chars, j),
    ensures
        i == j,
{
    if i < j {
        lemma_prefix_bytes_monotone(chars, i, j);
    } else if j < i {
        lemma_prefix_bytes_monotone(chars, j, i);
    }
}

/// The character count whose prefix spans exactly `offset` bytes.
pub open spec fn char_count_at(chars: Seq<char>, offset: int) -> int {
    choose|count: int| 0 <= count <= chars.len() && prefix_bytes(chars, count) == offset
}

/// The boundary character count is well defined.
pub proof fn lemma_char_count_at(chars: Seq<char>, offset: int)
    requires
        is_boundary(chars, offset),
    ensures
        0 <= char_count_at(chars, offset) <= chars.len(),
        prefix_bytes(chars, char_count_at(chars, offset)) == offset,
        forall|count: int|
            0 <= count <= chars.len() && prefix_bytes(chars, count) == offset ==> count
                == char_count_at(chars, offset),
{
    lemma_boundary_has_prefix(chars, offset);
    assert forall|count: int|
        0 <= count <= chars.len() && prefix_bytes(chars, count) == offset implies count
        == char_count_at(chars, offset) by {
        lemma_prefix_bytes_unique(chars, count, char_count_at(chars, offset));
    }
}

} // verus!

verus! {

/// The UTF-8 width of one character (`char::len_utf8`).
pub fn utf8_width(c: char) -> (width: usize)
    ensures
        width == encode_scalar(c as u32).len(),
        1 <= width <= 4,
{
    let value = c as u32;
    if value < 0x80 {
        1
    } else if value < 0x800 {
        2
    } else if value < 0x10000 {
        3
    } else {
        4
    }
}

/// The characters of `text`, in order.
pub fn chars_of(text: &str) -> (chars: Vec<char>)
    ensures
        chars@ == text@,
{
    let mut chars: Vec<char> = Vec::new();
    for c in iter: text.chars()
        invariant
            chars@ == iter.seq().take(iter.index() as int),
            iter.seq() == text@,
    {
        chars.push(c);
    }
    chars
}

} // verus!

verus! {

/// A boundary that lies inside a boundary-delimited prefix is a boundary of
/// that prefix, at the same character count.
pub proof fn lemma_boundary_within_prefix(chars: Seq<char>, count: int, offset: int)
    requires
        0 <= count <= chars.len(),
        is_boundary(chars, offset),
        offset <= prefix_bytes(chars, count),
    ensures
        char_count_at(chars, offset) <= count,
        is_boundary(chars.take(count), offset),
        char_count_at(chars.take(count), offset) == char_count_at(chars, offset),
{
    lemma_char_count_at(chars, offset);
    let at = char_count_at(chars, offset);
    if at > count {
        lemma_prefix_bytes_monotone(chars, count, at);
    }
    assert(chars.take(count).take(at) =~= chars.take(at));
    lemma_prefix_is_boundary(chars.take(count), at);
    lemma_char_count_at(chars.take(count), offset);
}

/// Characters `from..to` of `chars` occupy exactly the bytes between the two
/// prefix byte counts.
pub proof fn lemma_encode_subrange(chars: Seq<char>, from: int, to: int)
    requires
        0 <= from <= to <= chars.len(),
    ensures
        encode_utf8(chars).subrange(prefix_bytes(chars, from) as int, prefix_bytes(chars, to) as int)
            == encode_utf8(chars.subrange(from, to)),
        prefix_bytes(chars, to) - prefix_bytes(chars, from) == encode_utf8(
            chars.subrange(from, to),
        ).len(),
{
    let head = chars.take(to);
    lemma_encode_split(chars, to);
    lemma_encode_split(head, from);
    assert(head.take(from) =~= chars.take(from));
    assert(head.skip(from) =~= chars.subrange(from, to));
    let all = encode_utf8(chars);
    assert(all.subrange(prefix_bytes(chars, from) as int, prefix_bytes(chars, to) as int)
        =~= encode_utf8(head).skip(prefix_bytes(head, from) as int));
}

/// The substring of `text` between two scalar boundaries.
pub fn str_slice<'a>(text: &'a str, start: usize, end: usize) -> (piece: &'a str)
    requires
        start <= end,
        is_boundary(text@, start as int),
        is_boundary(text@, end as int),
    ensures
        piece@ == text@.subrange(
            char_count_at(text@, start as int),
            char_count_at(text@, end as int),
        ),
        piece.spec_bytes() == text.spec_bytes().subrange(start as int, end as int),
{
    proof {
        lemma_char_count_at(text@, end as int);
        lemma_char_count_at(text@, start as int);
        lemma_encode_split(text@, char_count_at(text@, end as int));
        lemma_boundary_within_prefix(text@, char_count_at(text@, end as int), start as int);
    }
    let (head, _) = text.split_at(end);
    proof {
        let t = text@;
        let ce = char_count_at(t, end as int);
        lemma_encode_injective(head@, t.take(ce));
        assert(head.spec_bytes() =~= encode_utf8(t.take(ce)));
    }
    let (_, piece) = head.split_at(start);
    proof {
        let t = text@;
        let ce = char_count_at(t, end as int);
        let cs = char_count_at(t, start as int);
        lemma_encode_injective(head@, t.take(ce));
        lemma_encode_split(t.take(ce), cs);
        assert(t.take(ce).skip(cs) =~= t.subrange(cs, ce));
        lemma_encode_subrange(t, cs, ce);
        assert(piece.spec_bytes() =~= encode_utf8(t.subrange(cs, ce)));
        lemma_encode_injective(piece@, t.subrange(cs, ce));
        assert(text.spec_bytes().subrange(start as int, end as int) =~= encode_utf8(
            t.subrange(cs, ce),
        ));
    }
    piece
}

} // verus!

verus! {

/// `str::len`: the UTF-8 byte length of `text`. The bytes are one value in
/// memory, which Rust never lets exceed `isize::MAX` bytes, so the length is
/// exact and at most `isize::MAX`.
#[verifier::external_body]
pub fn str_len(text: &str) -> (length: usize)
    ensures
        length == utf8_bytes(text@).len(),
        length <= isize::MAX,
{
    text.len()
}

} // verus!

verus! {

/// A boundary of `original` inside a prefix that `changed` shares is a
/// boundary of `changed` at the same character count.
pub proof fn lemma_boundary_in_shared_prefix(
    original: Seq<char>,
    changed: Seq<char>,
    shared: int,
    offset: int,
)
    requires
        0 <= shared <= original.len(),
        shared <= changed.len(),
        changed.take(shared) == original.take(shared),
        is_boundary(original, offset),
        offset <= prefix_bytes(original, shared),
    ensures
        is_boundary(changed, offset),
        char_count_at(changed, offset) == char_count_at(original, offset),
        char_count_at(original, offset) <= shared,
{
    lemma_boundary_within_prefix(original, shared, offset);
    let count = char_count_at(original, offset);
    lemma_char_count_at(original, offset);
    assert(changed.take(count) =~= changed.take(shared).take(count));
    assert(original.take(count) =~= original.take(shared).take(count));
    lemma_prefix_is_boundary(changed, count);
    lemma_char_count_at(changed, offset);
}

/// The bytes between two scalar boundaries are valid UTF-8.
pub proof fn lemma_valid_between(chars: Seq<char>, from: int, to: int)
    requires
        is_boundary(chars, from),
        is_boundary(chars, to),
        from <= to,
    ensures
        valid_utf8(encode_utf8(chars).subrange(from, to)),
{
    lemma_char_count_at(chars, from);
    lemma_char_count_at(chars, to);
    let cf = char_count_at(chars, from);
    let ct = char_count_at(chars, to);
    if ct < cf {
        lemma_prefix_bytes_monotone(chars, ct, cf);
    }
    lemma_encode_subrange(chars, cf, ct);
    encode_utf8_valid_utf8(chars.subrange(cf, ct));
}

/// Joining two valid UTF-8 sequences gives valid UTF-8 with a scalar
/// boundary at the join.
pub proof fn lemma_join_boundary(a: Seq<u8>, b: Seq<u8>)
    requires
        valid_utf8(a),
        valid_utf8(b),
    ensures
        valid_utf8(a + b),
        is_char_boundary(a + b, a.len() as int),
{
    let ca = decode_utf8(a);
    let cb = decode_utf8(b);
    decode_utf8_encode_utf8(a);
    decode_utf8_encode_utf8(b);
    lemma_encode_concat(ca, cb);
    assert((ca + cb).take(ca.len() as int) =~= ca);
    lemma_prefix_is_boundary(ca + cb, ca.len() as int);
    encode_utf8_valid_utf8(ca + cb);
}

} // verus!
