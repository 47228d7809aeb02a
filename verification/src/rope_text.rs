//! The document text buffer: a `ropey::Rope` observed through the characters
//! it holds.
//!
//! Every item here is trusted: Verus sees a rope only through the name
//! [`rope_chars`] and the contracts below, which restate what ropey 1.6
//! documents for each method.

use ropey::Rope;
use vstd::prelude::*;

use crate::utf8_text::{prefix_bytes, utf8_bytes};

verus! {

/// The rope type of the `ropey` crate.
#[verifier::external_type_specification]
#[verifier::external_body]
pub struct ExRope(Rope);

/// The sequence of characters that a rope holds.
pub uninterp spec fn rope_chars(rope: Rope) -> Seq<char>;

/// The concatenation of chunk texts in order.
pub open spec fn joined_chunks(chunks: Seq<Seq<char>>) -> Seq<char>
    decreases chunks.len(),
{
    if chunks.len() == 0 {
        Seq::empty()
    } else {
        joined_chunks(chunks.drop_last()) + chunks.last()
    }
}

/// `Rope::new`: an empty rope.
#[verifier::external_body]
pub fn rope_new() -> (rope: Rope)
    ensures
        rope_chars(rope) == Seq::<char>::empty(),
{
    Rope::new()
}

/// `Rope::from_str`: a rope holding exactly the characters of `text`.
#[verifier::external_body]
pub fn rope_from_str(text: &str) -> (rope: Rope)
    ensures
        rope_chars(rope) == text@,
{
    Rope::from_str(text)
}

/// `Rope::clone`: a rope with the same characters.
#[verifier::external_body]
pub fn rope_clone(rope: &Rope) -> (copy: Rope)
    ensures
        rope_chars(copy) == rope_chars(*rope),
{
    rope.clone()
}

/// `Rope::len_bytes`: the total UTF-8 length of the rope.
#[verifier::external_body]
pub fn rope_len_bytes(rope: &Rope) -> (length: usize)
    ensures
        length == utf8_bytes(rope_chars(*rope)).len(),
{
    rope.len_bytes()
}

/// `Rope::try_byte_to_char`: the index of the character that contains byte
/// `byte_index`, or the character count for the one-past-the-end byte. Ropey
/// returns an error (here `None`) exactly when the byte is past the end.
#[verifier::external_body]
pub fn rope_try_byte_to_char(rope: &Rope, byte_index: usize) -> (found: Option<usize>)
    ensures
        match found {
            None => byte_index > utf8_bytes(rope_chars(*rope)).len(),
            Some(index) => {
                let chars = rope_chars(*rope);
                &&& byte_index <= utf8_bytes(chars).len()
                &&& index <= chars.len()
                &&& prefix_bytes(chars, index as int) <= byte_index
                &&& (index == chars.len() || byte_index < prefix_bytes(chars, index + 1))
            },
        },
{
    rope.try_byte_to_char(byte_index).ok()
}

/// `Rope::char_to_byte`: the UTF-8 byte offset at which character
/// `char_index` starts. Ropey panics past the end, which `requires` excludes.
#[verifier::external_body]
pub fn rope_char_to_byte(rope: &Rope, char_index: usize) -> (byte_index: usize)
    requires
        char_index <= rope_chars(*rope).len(),
    ensures
        byte_index == prefix_bytes(rope_chars(*rope), char_index as int),
{
    rope.char_to_byte(char_index)
}

/// `Rope::slice` compared with `==` against a string: whether characters
/// `start..end` of the rope are exactly `text`. Ropey panics on an inverted or
/// out-of-bounds range, which `requires` excludes.
#[verifier::external_body]
pub fn rope_slice_equals(rope: &Rope, start: usize, end: usize, text: &str) -> (equal: bool)
    requires
        start <= end <= rope_chars(*rope).len(),
    ensures
        equal == (rope_chars(*rope).subrange(start as int, end as int) == text@),
{
    rope.slice(start..end) == text
}

/// `Rope::remove`: deletes characters `start..end`. Ropey panics on an
/// inverted or out-of-bounds range, which `requires` excludes.
#[verifier::external_body]
pub fn rope_remove(rope: &mut Rope, start: usize, end: usize)
    requires
        start <= end <= rope_chars(*old(rope)).len(),
    ensures
        rope_chars(*final(rope)) == rope_chars(*old(rope)).take(start as int) + rope_chars(
            *old(rope),
        ).skip(end as int),
{
    rope.remove(start..end)
}

/// `Rope::insert`: inserts `text` before character `char_index`. Ropey panics
/// past the end, which `requires` excludes.
#[verifier::external_body]
pub fn rope_insert(rope: &mut Rope, char_index: usize, text: &str)
    requires
        char_index <= rope_chars(*old(rope)).len(),
    ensures
        rope_chars(*final(rope)) == rope_chars(*old(rope)).take(char_index as int) + text@
            + rope_chars(*old(rope)).skip(char_index as int),
{
    rope.insert(char_index, text)
}

/// `Rope::to_string` (through ropey's `Display`): the rope's text.
#[verifier::external_body]
pub fn rope_to_string(rope: &Rope) -> (text: String)
    ensures
        text@ == rope_chars(*rope),
{
    rope.to_string()
}

/// `Rope::chunks`, collected: the rope's text as ordered string pieces whose
/// concatenation is the whole text.
#[verifier::external_body]
pub fn rope_chunks<'a>(rope: &'a Rope) -> (chunks: Vec<&'a str>)
    ensures
        joined_chunks(chunks@.map_values(|chunk: &str| chunk@)) == rope_chars(*rope),
{
    rope.chunks().collect()
}

} // verus!
