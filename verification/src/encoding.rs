//! Facts that connect the characters of a text with the bytes of its UTF-8
//! encoding, and the one primitive that cuts a `&str` at a byte offset.
//!
//! The scanners of this crate walk over bytes, while their contracts speak of
//! characters. The lemmas here carry a result found on bytes over to characters
//! and back.

use vstd::prelude::*;
use vstd::string::*;
use vstd::utf8::*;

verus! {

/// Encoding distributes over concatenation.
pub proof fn lemma_encode_concat(a: Seq<char>, b: Seq<char>)
    ensures
        encode_utf8(a + b) == encode_utf8(a) + encode_utf8(b),
    decreases a.len(),
{
    if a.len() == 0 {
        assert(a + b =~= b);
        assert(encode_utf8(a) + encode_utf8(b) =~= encode_utf8(b));
    } else {
        assert((a + b).drop_first() =~= a.drop_first() + b);
        lemma_encode_concat(a.drop_first(), b);
        assert(encode_utf8(a + b) =~= encode_utf8(a) + encode_utf8(b));
    }
}

/// Two texts with the same encoding are the same text.
pub proof fn lemma_encode_injective(a: Seq<char>, b: Seq<char>)
    requires
        encode_utf8(a) == encode_utf8(b),
    ensures
        a == b,
{
    encode_utf8_decode_utf8(a);
    encode_utf8_decode_utf8(b);
}

/// Every character takes at least one byte.
pub proof fn lemma_encode_len(chars: Seq<char>)
    ensures
        encode_utf8(chars).len() >= chars.len(),
    decreases chars.len(),
{
    if chars.len() > 0 {
        lemma_encode_len(chars.drop_first());
    }
}

/// A text cut in two at a byte offset is the concatenation of the two parts.
pub proof fn lemma_parts_concat(whole: Seq<char>, left: Seq<char>, right: Seq<char>, mid: int)
    requires
        0 <= mid <= encode_utf8(whole).len(),
        encode_utf8(left) == encode_utf8(whole).subrange(0, mid),
        encode_utf8(right) == encode_utf8(whole).subrange(mid, encode_utf8(whole).len() as int),
    ensures
        whole == left + right,
{
    lemma_encode_concat(left, right);
    assert(encode_utf8(whole) =~= encode_utf8(left) + encode_utf8(right));
    lemma_encode_injective(whole, left + right);
}

/// True when `c` is the ASCII character whose code is `byte`.
pub open spec fn is_ascii_pair(c: char, byte: u8) -> bool {
    byte <= 0x7f && c as u32 == byte as u32
}

proof fn lemma_low_bits(x: u32)
    by (bit_vector)
    ensures
        x <= 0x7f ==> (x & 0x7f) as u8 == x as u8 && (x as u8) as u32 == x,
{
}

proof fn lemma_high_bits(y: u8)
    by (bit_vector)
    ensures
        0x80u8 | y >= 0x80,
        0xc0u8 | y >= 0x80,
        0xe0u8 | y >= 0x80,
        0xf0u8 | y >= 0x80,
{
}

/// An ASCII character is encoded as the single byte of its code.
pub proof fn lemma_encode_ascii(c: char, byte: u8)
    requires
        is_ascii_pair(c, byte),
    ensures
        encode_scalar(c as u32) == seq![byte],
        encode_utf8(seq![c]) == seq![byte],
{
    lemma_low_bits(c as u32);
    assert(encode_scalar(c as u32) =~= seq![byte]);
    assert(seq![c].drop_first() =~= Seq::<char>::empty());
    assert(encode_utf8(seq![c]) =~= encode_scalar(c as u32) + encode_utf8(Seq::<char>::empty()));
    assert(encode_utf8(seq![c]) =~= seq![byte]);
}

/// No byte in the encoding of a character outside ASCII is below `0x80`.
pub proof fn lemma_encode_non_ascii(c: char)
    requires
        c as u32 > 0x7f,
    ensures
        forall|k: int|
            0 <= k < encode_scalar(c as u32).len() ==> #[trigger] encode_scalar(c as u32)[k]
                >= 0x80,
{
    let x = c as u32;
    lemma_high_bits(((x >> 6) & 0x1f) as u8);
    lemma_high_bits(((x >> 12) & 0x0f) as u8);
    lemma_high_bits(((x >> 18) & 0x7) as u8);
    lemma_high_bits((x & 0x3f) as u8);
    lemma_high_bits(((x >> 6) & 0x3f) as u8);
    lemma_high_bits(((x >> 12) & 0x3f) as u8);
}

/// A text whose encoding begins with an ASCII byte begins with that character.
pub proof fn lemma_first_ascii(chars: Seq<char>)
    requires
        encode_utf8(chars).len() > 0,
        encode_utf8(chars)[0] <= 0x7f,
    ensures
        chars.len() > 0,
        is_ascii_pair(chars[0], encode_utf8(chars)[0]),
        encode_utf8(chars.drop_first()) == encode_utf8(chars).subrange(
            1,
            encode_utf8(chars).len() as int,
        ),
{
    let c = chars[0];
    if c as u32 > 0x7f {
        lemma_encode_non_ascii(c);
        assert(encode_utf8(chars)[0] == encode_scalar(c as u32)[0]);
    }
    lemma_low_bits(c as u32);
    assert(encode_scalar(c as u32) =~= seq![(c as u32) as u8]);
    assert(encode_utf8(chars)[0] == (c as u32) as u8);
    assert(encode_utf8(chars.drop_first()) =~= encode_utf8(chars).subrange(
        1,
        encode_utf8(chars).len() as int,
    ));
}

/// A text whose encoding is one ASCII byte is that one character.
pub proof fn lemma_single_ascii(chars: Seq<char>, byte: u8)
    requires
        encode_utf8(chars) == seq![byte],
        byte <= 0x7f,
    ensures
        chars.len() == 1,
        is_ascii_pair(chars[0], byte),
{
    lemma_first_ascii(chars);
    lemma_encode_len(chars);
}

/// If an ASCII byte does not occur in the encoding of a text, its character
/// does not occur in the text.
pub proof fn lemma_ascii_absent(chars: Seq<char>, c: char, byte: u8)
    requires
        is_ascii_pair(c, byte),
        forall|j: int| 0 <= j < encode_utf8(chars).len() ==> encode_utf8(chars)[j] != byte,
    ensures
        forall|i: int| 0 <= i < chars.len() ==> chars[i] != c,
{
    assert forall|i: int| 0 <= i < chars.len() implies chars[i] != c by {
        if chars[i] == c {
            let before = chars.subrange(0, i);
            let after = chars.subrange(i + 1, chars.len() as int);
            assert(chars =~= before + seq![c] + after);
            lemma_encode_concat(before + seq![c], after);
            lemma_encode_concat(before, seq![c]);
            lemma_encode_ascii(c, byte);
            let at = encode_utf8(before).len() as int;
            assert(encode_utf8(chars)[at] == byte);
        }
    }
}

/// An ASCII byte stands for one character only.
pub proof fn lemma_ascii_pair_unique(c: char, d: char, byte: u8)
    requires
        is_ascii_pair(c, byte),
        is_ascii_pair(d, byte),
    ensures
        c == d,
{
    char_u32_cast(c, byte as u32);
    char_u32_cast(d, byte as u32);
}

/// Where a well-formed byte sequence begins with another well-formed one, the
/// end of that prefix falls between two characters.
pub proof fn lemma_prefix_boundary(bytes: Seq<u8>, prefix: Seq<u8>)
    requires
        valid_utf8(bytes),
        valid_utf8(prefix),
        prefix.len() <= bytes.len(),
        bytes.subrange(0, prefix.len() as int) == prefix,
    ensures
        is_char_boundary(bytes, prefix.len() as int),
    decreases prefix.len(),
{
    if prefix.len() > 0 {
        let width = length_of_first_scalar(prefix);
        assert(forall|k: int| 0 <= k < prefix.len() ==> bytes[k] == bytes.subrange(
            0,
            prefix.len() as int,
        )[k]);
        assert(bytes[0] == prefix[0]);
        assert(width == length_of_first_scalar(bytes));
        assert(1 <= width <= prefix.len());
        let bytes_tail = pop_first_scalar(bytes);
        let prefix_tail = pop_first_scalar(prefix);
        assert(bytes_tail.subrange(0, prefix_tail.len() as int) =~= prefix_tail);
        lemma_prefix_boundary(bytes_tail, prefix_tail);
        assert(prefix_tail.len() == prefix.len() - width);
    }
}

/// A byte below `0x80`, or the end of the bytes, is where a character begins.
pub proof fn lemma_ascii_byte_boundary(bytes: Seq<u8>, at: int)
    requires
        valid_utf8(bytes),
        0 <= at <= bytes.len(),
        at < bytes.len() ==> bytes[at] <= 0x7f,
    ensures
        is_char_boundary(bytes, at),
{
    if at < bytes.len() {
        is_char_boundary_iff_not_is_continuation_byte(bytes, at);
    } else {
        is_char_boundary_start_end_of_seq(bytes);
    }
}

/// Cuts a text in two at a byte offset that falls between two characters.
pub(crate) fn split_at_boundary<'a>(text: &'a str, mid: usize) -> (parts: (&'a str, &'a str))
    requires
        is_char_boundary(text.spec_bytes(), mid as int),
        mid <= text.spec_bytes().len(),
    ensures
        text@ == parts.0@ + parts.1@,
        parts.0.spec_bytes() == text.spec_bytes().subrange(0, mid as int),
        parts.1.spec_bytes() == text.spec_bytes().subrange(
            mid as int,
            text.spec_bytes().len() as int,
        ),
{
    let parts = text.split_at(mid);
    proof {
        lemma_parts_concat(text@, parts.0@, parts.1@, mid as int);
    }
    parts
}

} // verus!
