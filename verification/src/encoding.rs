//! How character indices relate to byte offsets in UTF-8 text.
//!
//! A string is seen as a sequence of characters; the offsets that tokens carry
//! count bytes of its UTF-8 encoding.  The two are tied together by
//! [`byte_offset`], and the lemmas here say how that offset moves when the
//! character index does.

use vstd::prelude::*;
use vstd::utf8::{
    encode_scalar, encode_utf8, encode_utf8_decode_utf8, encode_utf8_first_scalar,
    encode_utf8_valid_utf8, is_char_boundary, pop_first_scalar,
};

verus! {

/// The number of bytes that `c` takes in UTF-8.
pub open spec fn utf8_width(c: char) -> int {
    encode_scalar(c as u32).len() as int
}

/// The byte offset at which the character with index `i` starts: the length
/// of the encoding of the `i` characters before it.
pub open spec fn byte_offset(chars: Seq<char>, i: int) -> int {
    encode_utf8(chars.take(i)).len() as int
}

/// Every character takes between one and four bytes.
pub proof fn lemma_width_bounds(c: char)
    ensures
        1 <= utf8_width(c) <= 4,
{
}

/// A character below U+0080 takes one byte.
pub proof fn lemma_width_ascii(c: char)
    requires
        (c as u32) < 0x80,
    ensures
        utf8_width(c) == 1,
{
}

/// The encoding of a single character is the encoding of its scalar value.
pub proof fn lemma_encode_single(c: char)
    ensures
        encode_utf8(seq![c]) == encode_scalar(c as u32),
{
    let s = seq![c];
    assert(s.drop_first() =~= Seq::<char>::empty());
    assert(encode_utf8(s.drop_first()) =~= Seq::<u8>::empty());
    assert(encode_utf8(s) =~= encode_scalar(s[0] as u32) + encode_utf8(s.drop_first()));
}

/// Encoding distributes over concatenation.
pub proof fn lemma_encode_concat(a: Seq<char>, b: Seq<char>)
    ensures
        encode_utf8(a + b) == encode_utf8(a) + encode_utf8(b),
    decreases a.len(),
{
    if a.len() == 0 {
        assert(a + b =~= b);
        assert(encode_utf8(a) + encode_utf8(b) =~= encode_utf8(b));
    } else {
        lemma_encode_concat(a.drop_first(), b);
        assert((a + b).drop_first() =~= a.drop_first() + b);
        assert(encode_utf8(a + b) =~= encode_utf8(a) + encode_utf8(b));
    }
}

/// Two character sequences with the same encoding are the same sequence.
pub proof fn lemma_encode_injective(a: Seq<char>, b: Seq<char>)
    requires
        encode_utf8(a) == encode_utf8(b),
    ensures
        a == b,
{
    encode_utf8_decode_utf8(a);
    encode_utf8_decode_utf8(b);
}

/// The first character starts at byte 0.
pub proof fn lemma_byte_offset_start(chars: Seq<char>)
    ensures
        byte_offset(chars, 0) == 0,
{
    assert(chars.take(0) =~= Seq::<char>::empty());
}

/// The offset just past the last character is the length of the encoding.
pub proof fn lemma_byte_offset_end(chars: Seq<char>)
    ensures
        byte_offset(chars, chars.len() as int) == encode_utf8(chars).len(),
{
    assert(chars.take(chars.len() as int) =~= chars);
}

/// Passing over one character moves the offset by that character's width.
pub proof fn lemma_byte_offset_step(chars: Seq<char>, i: int)
    requires
        0 <= i < chars.len(),
    ensures
        byte_offset(chars, i + 1) == byte_offset(chars, i) + utf8_width(chars[i]),
{
    assert(chars.take(i + 1) =~= chars.take(i) + seq![chars[i]]);
    lemma_encode_concat(chars.take(i), seq![chars[i]]);
    lemma_encode_single(chars[i]);
}

/// Offsets grow at least as fast as indices: `j - i` characters take at
/// least `j - i` bytes.
pub proof fn lemma_byte_offset_increasing(chars: Seq<char>, i: int, j: int)
    requires
        0 <= i <= j <= chars.len(),
    ensures
        byte_offset(chars, j) - byte_offset(chars, i) >= j - i,
    decreases j - i,
{
    if i < j {
        lemma_byte_offset_increasing(chars, i, j - 1);
        lemma_byte_offset_step(chars, j - 1);
        lemma_width_bounds(chars[j - 1]);
    }
}

/// No offset lies outside the encoding.
pub proof fn lemma_byte_offset_bounds(chars: Seq<char>, i: int)
    requires
        0 <= i <= chars.len(),
    ensures
        0 <= byte_offset(chars, i) <= encode_utf8(chars).len(),
{
    lemma_byte_offset_increasing(chars, i, chars.len() as int);
    lemma_byte_offset_end(chars);
}

/// The bytes from the offset of character `i` onwards encode the characters
/// from `i` onwards.
pub proof fn lemma_encode_suffix(chars: Seq<char>, i: int)
    requires
        0 <= i <= chars.len(),
    ensures
        encode_utf8(chars).subrange(byte_offset(chars, i), encode_utf8(chars).len() as int)
            == encode_utf8(chars.skip(i)),
{
    assert(chars =~= chars.take(i) + chars.skip(i));
    lemma_encode_concat(chars.take(i), chars.skip(i));
    let head = encode_utf8(chars.take(i));
    let tail = encode_utf8(chars.skip(i));
    assert((head + tail).subrange(head.len() as int, (head + tail).len() as int) =~= tail);
}

/// The offset of a character is a character boundary of the encoding.
pub proof fn lemma_byte_offset_is_boundary(chars: Seq<char>, i: int)
    requires
        0 <= i <= chars.len(),
    ensures
        is_char_boundary(encode_utf8(chars), byte_offset(chars, i)),
    decreases i,
{
    let bytes = encode_utf8(chars);
    encode_utf8_valid_utf8(chars);
    if i == 0 {
        lemma_byte_offset_start(chars);
    } else {
        let rest = chars.drop_first();
        encode_utf8_first_scalar(chars);
        assert(pop_first_scalar(bytes) =~= encode_utf8(rest));
        assert(chars.take(i) =~= seq![chars[0]] + rest.take(i - 1));
        lemma_encode_concat(seq![chars[0]], rest.take(i - 1));
        lemma_encode_single(chars[0]);
        lemma_width_bounds(chars[0]);
        lemma_byte_offset_bounds(chars, i);
        lemma_byte_offset_is_boundary(rest, i - 1);
    }
}

/// The number of bytes that `c` takes in UTF-8, computed.
pub fn char_width(c: char) -> (w: usize)
    ensures
        w == utf8_width(c),
{
    let scalar: u32 = c as u32;
    if scalar < 0x80 {
        1
    } else if scalar < 0x800 {
        2
    } else if scalar < 0x10000 {
        3
    } else {
        4
    }
}

} // verus!
