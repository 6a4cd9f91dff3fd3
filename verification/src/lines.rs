//! Splitting a text into lines.
//!
//! A line ends at a line feed, or at a carriage return directly followed by
//! a line feed; the terminator is not part of the line. The last line needs
//! no terminator, so a text that ends in one has no empty line after it. A
//! carriage return that no line feed follows is an ordinary character.

use crate::encoding::{
    lemma_ascii_byte_at, lemma_ascii_char_at, lemma_encode_empty, lemma_encode_injective,
};
use vstd::prelude::*;
use vstd::utf8::*;

verus! {

/// The number of characters of `text` before its first line feed, or the
/// length of `text` where it holds none.
pub open spec fn first_line_len(text: Seq<char>) -> nat
    decreases text.len(),
{
    if text.len() == 0 || text[0] == '\n' {
        0
    } else {
        1 + first_line_len(text.drop_first())
    }
}

/// `line` without the carriage return at its end, if it has one there.
pub open spec fn strip_cr(line: Seq<char>) -> Seq<char> {
    if line.len() > 0 && line.last() == '\r' {
        line.drop_last()
    } else {
        line
    }
}

/// The lines of `text`, in order.
pub open spec fn lines(text: Seq<char>) -> Seq<Seq<char>>
    decreases text.len(),
{
    if text.len() == 0 {
        Seq::empty()
    } else {
        let n = first_line_len(text);
        if n >= text.len() {
            seq![text]
        } else {
            seq![strip_cr(text.take(n as int))] + lines(text.skip(n as int + 1))
        }
    }
}

/// `first_line_len` is the one index up to which `text` has no line feed
/// and at which it has one or ends.
pub proof fn lemma_first_line_len(text: Seq<char>, n: int)
    requires
        0 <= n <= text.len(),
        forall|i: int| 0 <= i < n ==> text[i] != '\n',
        n < text.len() ==> text[n] == '\n',
    ensures
        first_line_len(text) == n,
    decreases text.len(),
{
    if n > 0 {
        let rest = text.drop_first();
        assert forall|i: int| 0 <= i < n - 1 implies rest[i] != '\n' by {
            assert(rest[i] == text[i + 1]);
        }
        lemma_first_line_len(rest, n - 1);
    }
}

/// What `first_line_len` returns is such an index.
pub proof fn lemma_first_line_len_is_first(text: Seq<char>)
    ensures
        first_line_len(text) <= text.len(),
        forall|i: int| 0 <= i < first_line_len(text) ==> text[i] != '\n',
        first_line_len(text) < text.len() ==> text[first_line_len(text) as int] == '\n',
    decreases text.len(),
{
    if text.len() > 0 && text[0] != '\n' {
        let rest = text.drop_first();
        lemma_first_line_len_is_first(rest);
        assert forall|i: int| 0 <= i < first_line_len(text) implies text[i] != '\n' by {
            if i > 0 {
                assert(text[i] == rest[i - 1]);
            }
        }
    }
}

/// No line holds a line feed.
pub proof fn lemma_lines_hold_no_line_feed(text: Seq<char>)
    ensures
        forall|i: int, j: int|
            0 <= i < lines(text).len() && 0 <= j < lines(text)[i].len() ==> lines(text)[i][j]
                != '\n',
    decreases text.len(),
{
    if text.len() > 0 {
        lemma_first_line_len_is_first(text);
        let n = first_line_len(text) as int;
        if n < text.len() {
            let rest = text.skip(n + 1);
            lemma_lines_hold_no_line_feed(rest);
            let first = strip_cr(text.take(n));
            assert forall|i: int, j: int|
                0 <= i < lines(text).len() && 0 <= j < lines(text)[i].len() implies lines(
                text,
            )[i][j] != '\n' by {
                if i == 0 {
                    assert(first[j] == text[j]);
                } else {
                    assert(lines(text)[i] == lines(rest)[i - 1]);
                }
            }
        }
    }
}

/// A text that ends in a line feed keeps its lines when another text is put
/// behind it, and the lines of the other text follow them.
pub proof fn lemma_lines_concat(head: Seq<char>, tail: Seq<char>)
    requires
        head.len() > 0 ==> head.last() == '\n',
    ensures
        lines(head + tail) == lines(head) + lines(tail),
    decreases head.len(),
{
    if head.len() == 0 {
        assert(head + tail =~= tail);
        assert(lines(head) + lines(tail) =~= lines(tail));
    } else {
        let whole = head + tail;
        lemma_first_line_len_is_first(head);
        let n = first_line_len(head) as int;
        assert(n < head.len());
        assert forall|i: int| 0 <= i < n implies whole[i] != '\n' by {
            assert(whole[i] == head[i]);
        }
        assert(whole[n] == head[n]);
        lemma_first_line_len(whole, n);
        assert(whole.take(n) =~= head.take(n));
        assert(whole.skip(n + 1) =~= head.skip(n + 1) + tail);
        let rest = head.skip(n + 1);
        if rest.len() > 0 {
            assert(rest.last() == head.last());
        }
        lemma_lines_concat(rest, tail);
        assert(lines(whole) =~= lines(head) + lines(tail));
    }
}

/// The offset of the first byte of `bytes` equal to `byte`, or the length of
/// `bytes` where none is.
pub fn find_byte(bytes: &[u8], byte: u8) -> (at: usize)
    ensures
        at <= bytes@.len(),
        forall|i: int| 0 <= i < at ==> bytes@[i] != byte,
        at < bytes@.len() ==> bytes@[at as int] == byte,
{
    let n = bytes.len();
    let mut at: usize = 0;
    while at < n && bytes[at] != byte
        invariant
            n == bytes@.len(),
            at <= n,
            forall|i: int| 0 <= i < at ==> bytes@[i] != byte,
        decreases n - at,
    {
        at += 1;
    }
    at
}

/// Where the encoding of `s` holds no byte 10, `s` holds no line feed.
proof fn lemma_no_line_feed(s: Seq<char>)
    requires
        forall|k: int| 0 <= k < encode_utf8(s).len() ==> encode_utf8(s)[k] != 10,
    ensures
        forall|i: int| 0 <= i < s.len() ==> s[i] != '\n',
{
    assert forall|i: int| 0 <= i < s.len() implies s[i] != '\n' by {
        if s[i] == '\n' {
            let k = lemma_ascii_char_at(s, i);
            assert(encode_utf8(s)[k] == 10);
        }
    }
}

/// Cuts the first line off a text: returns the line, without its
/// terminator, and what follows the terminator. A text without a line feed
/// is returned whole, with nothing after it.
pub fn split_first_line<'a>(text: &'a str) -> (cut: (&'a str, &'a str))
    ensures
        first_line_len(text@) >= text@.len() ==> cut.0@ == text@ && cut.1@.len() == 0,
        first_line_len(text@) < text@.len() ==> {
            &&& cut.0@ == strip_cr(text@.take(first_line_len(text@) as int))
            &&& cut.1@ == text@.skip(first_line_len(text@) as int + 1)
        },
{
    let bytes = text.as_bytes();
    let n = bytes.len();
    let k = find_byte(bytes, 10);
    if k == n {
        proof {
            lemma_no_line_feed(text@);
            lemma_first_line_len(text@, text@.len() as int);
            reveal_strlit("");
        }
        return (text, "");
    }
    let ghost j = lemma_ascii_byte_at(text@, k as int);
    let (head, _) = text.split_at(k);
    let (_, rest) = text.split_at(k + 1);
    proof {
        lemma_encode_injective(head@, text@.take(j));
        lemma_encode_injective(rest@, text@.skip(j + 1));
        lemma_no_line_feed(head@);
        assert forall|i: int| 0 <= i < j implies text@[i] != '\n' by {
            assert(text@[i] == head@[i]);
        }
        assert(text@[j] == '\n');
        lemma_first_line_len(text@, j);
    }
    if k > 0 && bytes[k - 1] == 13 {
        let ghost last = lemma_ascii_byte_at(head@, k - 1);
        let (line, _) = head.split_at(k - 1);
        proof {
            lemma_encode_empty(head@.skip(last + 1));
            lemma_encode_injective(line@, head@.take(last));
            assert(head@.take(last) =~= head@.drop_last());
        }
        (line, rest)
    } else {
        proof {
            if head@.len() > 0 && head@.last() == '\r' {
                let at = lemma_ascii_char_at(head@, head@.len() - 1);
                lemma_encode_empty(head@.skip(head@.len() as int));
                assert(at + 1 == k);
            }
        }
        (head, rest)
    }
}

/// Splits `text` into its lines. Each line is a slice of `text`.
pub fn split_lines<'a>(text: &'a str) -> (out: Vec<&'a str>)
    ensures
        out.deep_view() == lines(text@),
{
    let mut out: Vec<&'a str> = Vec::new();
    let mut rest: &'a str = text;
    assert(out.deep_view() =~= Seq::empty());
    while !rest.is_empty()
        invariant
            out.deep_view() + lines(rest@) == lines(text@),
        decreases rest@.len(),
    {
        let ghost before = out.deep_view();
        let (line, after) = split_first_line(rest);
        out.push(line);
        proof {
            lemma_first_line_len_is_first(rest@);
            assert(out.deep_view() =~= before.push(line@));
            assert(lines(rest@) =~= seq![line@] + lines(after@));
            assert(out.deep_view() + lines(after@) =~= before + lines(rest@));
        }
        rest = after;
    }
    assert(out.deep_view() + lines(rest@) =~= out.deep_view());
    out
}

} // verus!
