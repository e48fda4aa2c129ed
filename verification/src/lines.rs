//! What the lines of a text are, and how to take them off a `&str` one by one.
//!
//! A line ends at a line feed, or at a carriage return that is directly
//! followed by a line feed; neither belongs to the line. A carriage return
//! without a line feed behind it is an ordinary character. The last line need
//! not be terminated: a text that ends in a line ending has the same lines as
//! the text without it, and the empty text has no lines.

use crate::encoding::{
    lemma_ascii_absent,
    lemma_ascii_byte_boundary,
    lemma_ascii_pair_unique,
    lemma_encode_ascii,
    lemma_encode_concat,
    lemma_encode_injective,
    lemma_encode_len,
    lemma_first_ascii,
    lemma_prefix_boundary,
    lemma_single_ascii,
    split_at_boundary,
};
use vstd::prelude::*;
use vstd::string::*;
use vstd::utf8::*;

verus! {

/// The line feed, as a byte.
pub const LINE_FEED: u8 = 0x0a;

/// The carriage return, as a byte.
pub const CARRIAGE_RETURN: u8 = 0x0d;

/// The position of the first line feed in `text`, or the length of `text` if
/// it holds none.
pub open spec fn first_break(text: Seq<char>) -> int
    decreases text.len(),
{
    if text.len() == 0 || text[0] == '\n' {
        0
    } else {
        1 + first_break(text.drop_first())
    }
}

/// `line` without the carriage return at its end, if it has one.
pub open spec fn strip_cr(line: Seq<char>) -> Seq<char> {
    if line.len() > 0 && line.last() == '\r' {
        line.drop_last()
    } else {
        line
    }
}

/// The first line of a text that is not empty.
pub open spec fn first_line(text: Seq<char>) -> Seq<char> {
    if first_break(text) < text.len() {
        strip_cr(text.subrange(0, first_break(text)))
    } else {
        text
    }
}

/// What follows the first line of `text` and its line ending.
pub open spec fn after_first_line(text: Seq<char>) -> Seq<char> {
    if first_break(text) < text.len() {
        text.subrange(first_break(text) + 1, text.len() as int)
    } else {
        Seq::empty()
    }
}

/// `first_break` lies within the text, no line feed stands before it, and one
/// stands at it unless it is the end of the text.
pub proof fn lemma_first_break(text: Seq<char>)
    ensures
        0 <= first_break(text) <= text.len(),
        forall|i: int| 0 <= i < first_break(text) ==> text[i] != '\n',
        first_break(text) < text.len() ==> text[first_break(text)] == '\n',
    decreases text.len(),
{
    if !(text.len() == 0 || text[0] == '\n') {
        let rest = text.drop_first();
        lemma_first_break(rest);
        assert forall|i: int| 0 <= i < first_break(text) implies text[i] != '\n' by {
            if i > 0 {
                assert(text[i] == rest[i - 1]);
            }
        }
    }
}

/// A position with no line feed before it, and one at it unless it is the end
/// of the text, is `first_break`.
pub proof fn lemma_first_break_is(text: Seq<char>, at: int)
    requires
        0 <= at <= text.len(),
        forall|i: int| 0 <= i < at ==> text[i] != '\n',
        at < text.len() ==> text[at] == '\n',
    ensures
        first_break(text) == at,
    decreases text.len(),
{
    if !(text.len() == 0 || text[0] == '\n') {
        let rest = text.drop_first();
        assert forall|i: int| 0 <= i < at - 1 implies rest[i] != '\n' by {
            assert(rest[i] == text[i + 1]);
        }
        lemma_first_break_is(rest, at - 1);
    }
}

/// What follows the first line is shorter than the text.
pub proof fn lemma_rest_is_shorter(text: Seq<char>)
    requires
        text.len() > 0,
    ensures
        after_first_line(text).len() < text.len(),
{
    lemma_first_break(text);
}

/// The lines of `text`, in the order in which they stand in it.
pub open spec fn lines_of(text: Seq<char>) -> Seq<Seq<char>>
    decreases text.len(),
    via lines_of_terminates
{
    if text.len() == 0 {
        Seq::empty()
    } else {
        seq![first_line(text)] + lines_of(after_first_line(text))
    }
}

#[via_fn]
proof fn lines_of_terminates(text: Seq<char>) {
    if text.len() > 0 {
        lemma_rest_is_shorter(text);
    }
}

/// The position of the first byte equal to `wanted`, if there is one.
fn find_byte(bytes: &[u8], wanted: u8) -> (found: Option<usize>)
    ensures
        match found {
            Some(at) => at < bytes@.len() && bytes@[at as int] == wanted && forall|j: int|
                0 <= j < at ==> bytes@[j] != wanted,
            None => forall|j: int| 0 <= j < bytes@.len() ==> bytes@[j] != wanted,
        },
{
    let mut at: usize = 0;
    while at < bytes.len()
        invariant
            at <= bytes@.len(),
            forall|j: int| 0 <= j < at ==> bytes@[j] != wanted,
        decreases bytes@.len() - at,
    {
        if bytes[at] == wanted {
            return Some(at);
        }
        at += 1;
    }
    None
}

/// `line` without the carriage return at its end, if it has one.
fn strip_carriage_return<'a>(line: &'a str) -> (stripped: &'a str)
    ensures
        stripped@ == strip_cr(line@),
{
    let bytes = line.as_bytes();
    let len = bytes.len();
    if len > 0 && bytes[len - 1] == CARRIAGE_RETURN {
        proof {
            encode_utf8_valid_utf8(line@);
            lemma_ascii_byte_boundary(bytes@, len - 1);
        }
        let (body, tail) = split_at_boundary(line, len - 1);
        proof {
            assert(tail.spec_bytes() =~= seq![CARRIAGE_RETURN]);
            lemma_single_ascii(tail@, CARRIAGE_RETURN);
            lemma_ascii_pair_unique(tail@[0], '\r', CARRIAGE_RETURN);
            assert(line@.last() == '\r');
            assert(body@ =~= line@.drop_last());
        }
        body
    } else {
        proof {
            if line@.len() > 0 && line@.last() == '\r' {
                let body = line@.drop_last();
                assert(line@ =~= body + seq!['\r']);
                lemma_encode_concat(body, seq!['\r']);
                lemma_encode_ascii('\r', CARRIAGE_RETURN);
                assert(bytes@[len - 1] == CARRIAGE_RETURN);
            }
        }
        line
    }
}

/// Takes the first line off `text`: the line without its line ending, and
/// what follows the line ending. The empty text has no line to take.
///
/// Both parts are views into `text`; nothing is copied.
pub fn split_first_line<'a>(text: &'a str) -> (parts: Option<(&'a str, &'a str)>)
    ensures
        text@.len() == 0 <==> parts is None,
        parts matches Some((line, rest)) ==> line@ == first_line(text@) && rest@
            == after_first_line(text@) && rest@.len() < text@.len(),
{
    if text.is_empty() {
        return None;
    }
    let bytes = text.as_bytes();
    proof {
        encode_utf8_valid_utf8(text@);
        lemma_rest_is_shorter(text@);
    }
    match find_byte(bytes, LINE_FEED) {
        None => {
            proof {
                lemma_ascii_absent(text@, '\n', LINE_FEED);
                lemma_first_break_is(text@, text@.len() as int);
                lemma_ascii_byte_boundary(bytes@, bytes@.len() as int);
            }
            let (line, rest) = split_at_boundary(text, bytes.len());
            proof {
                assert(rest.spec_bytes() =~= Seq::<u8>::empty());
                lemma_encode_len(rest@);
                assert(rest@ =~= Seq::<char>::empty());
                assert(line@ =~= text@);
            }
            Some((line, rest))
        },
        Some(at) => {
            proof {
                lemma_ascii_byte_boundary(bytes@, at as int);
            }
            let (head, tail) = split_at_boundary(text, at);
            proof {
                lemma_ascii_absent(head@, '\n', LINE_FEED);
                encode_utf8_valid_utf8(tail@);
                lemma_first_ascii(tail@);
                lemma_ascii_pair_unique(tail@[0], '\n', LINE_FEED);
                lemma_encode_ascii('\n', LINE_FEED);
                encode_utf8_valid_utf8(seq!['\n']);
                assert(tail.spec_bytes().subrange(0, 1) =~= seq![LINE_FEED]);
                lemma_prefix_boundary(tail.spec_bytes(), seq![LINE_FEED]);
            }
            let (_, rest) = split_at_boundary(tail, 1);
            let line = strip_carriage_return(head);
            proof {
                lemma_encode_injective(rest@, tail@.drop_first());
                lemma_first_break_is(text@, head@.len() as int);
                assert(text@.subrange(0, head@.len() as int) =~= head@);
                assert(text@.subrange(head@.len() as int + 1, text@.len() as int) =~= tail@.drop_first());
            }
            Some((line, rest))
        },
    }
}

} // verus!
