//! Whether one text occurs in another as a contiguous run of characters.
//!
//! The test itself runs over the bytes of the two texts. Because UTF-8 is
//! self-synchronising, a run of bytes that is the encoding of the needle can
//! only begin and end between two characters of the haystack, so the answer
//! found on bytes is the answer on characters.

use crate::encoding::{lemma_encode_concat, lemma_encode_injective, lemma_prefix_boundary};
use vstd::prelude::*;
use vstd::string::*;
use vstd::utf8::*;

verus! {

/// True when `needle` stands in `haystack` at position `at`.
pub open spec fn occurs_at<T>(needle: Seq<T>, haystack: Seq<T>, at: int) -> bool {
    &&& 0 <= at
    &&& at + needle.len() <= haystack.len()
    &&& haystack.subrange(at, at + needle.len()) == needle
}

/// True when `needle` stands somewhere in `haystack`, item for item and
/// without gaps. The empty needle stands in every haystack.
pub open spec fn has_occurrence<T>(needle: Seq<T>, haystack: Seq<T>) -> bool {
    exists|at: int| occurs_at(needle, haystack, at)
}

/// The empty needle occurs in every haystack.
pub proof fn lemma_empty_occurs<T>(needle: Seq<T>, haystack: Seq<T>)
    requires
        needle.len() == 0,
    ensures
        has_occurrence(needle, haystack),
{
    assert(haystack.subrange(0, 0) =~= needle);
    assert(occurs_at(needle, haystack, 0));
}

/// An occurrence among characters shows as an occurrence among the bytes.
pub proof fn lemma_occurrence_to_bytes(needle: Seq<char>, haystack: Seq<char>)
    requires
        has_occurrence(needle, haystack),
    ensures
        has_occurrence(encode_utf8(needle), encode_utf8(haystack)),
{
    let at = choose|at: int| occurs_at(needle, haystack, at);
    let before = haystack.subrange(0, at);
    let after = haystack.subrange(at + needle.len(), haystack.len() as int);
    assert(haystack =~= before + needle + after);
    lemma_encode_concat(before + needle, after);
    lemma_encode_concat(before, needle);
    let start = encode_utf8(before).len() as int;
    assert(encode_utf8(haystack).subrange(start, start + encode_utf8(needle).len())
        =~= encode_utf8(needle));
    assert(occurs_at(encode_utf8(needle), encode_utf8(haystack), start));
}

/// An occurrence among the bytes of two texts is an occurrence among their
/// characters.
pub proof fn lemma_occurrence_from_bytes(needle: Seq<char>, haystack: Seq<char>)
    requires
        has_occurrence(encode_utf8(needle), encode_utf8(haystack)),
    ensures
        has_occurrence(needle, haystack),
{
    let pattern = encode_utf8(needle);
    let bytes = encode_utf8(haystack);
    encode_utf8_valid_utf8(needle);
    encode_utf8_valid_utf8(haystack);
    if pattern.len() == 0 {
        assert(needle.len() == 0) by {
            if needle.len() > 0 {
                assert(encode_scalar(needle[0] as u32).len() >= 1);
            }
        }
        lemma_empty_occurs(needle, haystack);
    } else {
        let start = choose|at: int| occurs_at(pattern, bytes, at);
        let end = start + pattern.len();
        assert(bytes[start] == bytes.subrange(start, end)[0]);
        assert(!is_continuation_byte(pattern[0]));
        is_char_boundary_iff_not_is_continuation_byte(bytes, start);
        valid_utf8_split(bytes, start);
        let head = bytes.subrange(0, start);
        let tail = bytes.subrange(start, bytes.len() as int);
        assert(tail.subrange(0, pattern.len() as int) =~= pattern);
        lemma_prefix_boundary(tail, pattern);
        valid_utf8_split(tail, pattern.len() as int);
        let rest = tail.subrange(pattern.len() as int, tail.len() as int);
        let before = decode_utf8(head);
        let after = decode_utf8(rest);
        decode_utf8_encode_utf8(head);
        decode_utf8_encode_utf8(rest);
        assert(bytes =~= head + pattern + rest);
        lemma_encode_concat(before + needle, after);
        lemma_encode_concat(before, needle);
        lemma_encode_injective(haystack, before + needle + after);
        let at = before.len() as int;
        assert(haystack.subrange(at, at + needle.len()) =~= needle);
        assert(occurs_at(needle, haystack, at));
    }
}

/// Whether `needle` stands in `haystack` at the byte offset `at`.
fn matches_at(haystack: &[u8], needle: &[u8], at: usize) -> (hit: bool)
    requires
        at + needle@.len() <= haystack@.len(),
    ensures
        hit == occurs_at(needle@, haystack@, at as int),
{
    let total: usize = haystack.len();
    let mut k: usize = 0;
    while k < needle.len()
        invariant
            k <= needle@.len(),
            at + needle@.len() <= haystack@.len(),
            haystack@.len() == total,
            forall|j: int| 0 <= j < k ==> haystack@[at + j] == needle@[j],
        decreases needle@.len() - k,
    {
        if haystack[at + k] != needle[k] {
            proof {
                let window = haystack@.subrange(at as int, at + needle@.len());
                assert(window[k as int] == haystack@[at + k]);
            }
            return false;
        }
        k += 1;
    }
    proof {
        assert(haystack@.subrange(at as int, at + needle@.len()) =~= needle@);
    }
    true
}

/// Whether `needle` stands somewhere in `haystack`.
fn bytes_contain(haystack: &[u8], needle: &[u8]) -> (found: bool)
    ensures
        found == has_occurrence(needle@, haystack@),
{
    if needle.len() > haystack.len() {
        return false;
    }
    let last: usize = haystack.len() - needle.len();
    let mut at: usize = 0;
    loop
        invariant
            at <= last,
            last + needle@.len() == haystack@.len(),
            forall|i: int| 0 <= i < at ==> !occurs_at(needle@, haystack@, i),
        decreases last - at,
    {
        if matches_at(haystack, needle, at) {
            return true;
        }
        if at == last {
            return false;
        }
        at += 1;
    }
}

/// Whether `needle` occurs in `haystack` as a contiguous run of characters,
/// compared exactly. The empty needle occurs in every text.
pub fn text_contains(haystack: &str, needle: &str) -> (found: bool)
    ensures
        found == has_occurrence(needle@, haystack@),
{
    let found = bytes_contain(haystack.as_bytes(), needle.as_bytes());
    proof {
        if found {
            lemma_occurrence_from_bytes(needle@, haystack@);
        }
        if has_occurrence(needle@, haystack@) {
            lemma_occurrence_to_bytes(needle@, haystack@);
        }
    }
    found
}

} // verus!
