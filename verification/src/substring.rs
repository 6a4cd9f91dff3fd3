//! Substring containment.
//!
//! The test runs on the UTF-8 bytes of the two texts; its contract speaks of
//! their characters. A run of bytes that is the encoding of the needle can
//! only start and end where a character of the haystack starts, which is
//! why the two agree.

use crate::encoding::{lemma_encode_concat, lemma_split_at_boundary};
use vstd::prelude::*;
use vstd::utf8::*;

verus! {

/// `needle` stands in `hay` at offset `at`.
pub open spec fn occurs_at<T>(hay: Seq<T>, needle: Seq<T>, at: int) -> bool {
    &&& 0 <= at
    &&& at + needle.len() <= hay.len()
    &&& hay.subrange(at, at + needle.len()) == needle
}

/// `needle` stands somewhere in `hay` as a contiguous run. The empty
/// sequence stands in every sequence.
pub open spec fn is_substring<T>(hay: Seq<T>, needle: Seq<T>) -> bool {
    exists|at: int| occurs_at(hay, needle, at)
}

/// A text that holds `needle` holds the bytes of `needle` among its bytes.
pub proof fn lemma_substring_of_chars(hay: Seq<char>, needle: Seq<char>)
    requires
        is_substring(hay, needle),
    ensures
        is_substring(encode_utf8(hay), encode_utf8(needle)),
{
    let at = choose|at: int| occurs_at(hay, needle, at);
    let end = at + needle.len();
    let before = hay.take(at);
    let after = hay.skip(end);
    assert(hay =~= before + needle + after);
    lemma_encode_concat(before, needle);
    lemma_encode_concat(before + needle, after);
    let offset = encode_utf8(before).len() as int;
    assert(encode_utf8(hay).subrange(offset, offset + encode_utf8(needle).len()) =~= encode_utf8(
        needle,
    ));
    assert(occurs_at(encode_utf8(hay), encode_utf8(needle), offset));
}

/// Where one valid encoding starts with another, the shorter one ends at a
/// character boundary of the longer.
proof fn lemma_prefix_ends_at_boundary(bytes: Seq<u8>, prefix: Seq<u8>)
    requires
        valid_utf8(bytes),
        valid_utf8(prefix),
        occurs_at(bytes, prefix, 0),
    ensures
        is_char_boundary(bytes, prefix.len() as int),
    decreases prefix.len(),
{
    if prefix.len() > 0 {
        let width = length_of_first_scalar(prefix);
        assert(bytes.subrange(0, prefix.len() as int) == prefix);
        assert(forall|i: int| 0 <= i < prefix.len() ==> bytes[i] == prefix[i]) by {
            assert forall|i: int| 0 <= i < prefix.len() implies bytes[i] == prefix[i] by {
                assert(bytes.subrange(0, prefix.len() as int)[i] == bytes[i]);
            }
        }
        assert(length_of_first_scalar(bytes) == width);
        let bytes_rest = pop_first_scalar(bytes);
        let prefix_rest = pop_first_scalar(prefix);
        assert(bytes_rest.subrange(0, prefix_rest.len() as int) =~= prefix_rest);
        lemma_prefix_ends_at_boundary(bytes_rest, prefix_rest);
    }
}

/// A text whose bytes hold the bytes of `needle` holds `needle`.
pub proof fn lemma_substring_of_bytes(hay: Seq<char>, needle: Seq<char>)
    requires
        is_substring(encode_utf8(hay), encode_utf8(needle)),
    ensures
        is_substring(hay, needle),
{
    let hay_bytes = encode_utf8(hay);
    let needle_bytes = encode_utf8(needle);
    encode_utf8_valid_utf8(hay);
    encode_utf8_valid_utf8(needle);
    if needle.len() == 0 {
        assert(hay.subrange(0, 0) =~= needle);
        assert(occurs_at(hay, needle, 0));
    } else {
        let at = choose|at: int| occurs_at(hay_bytes, needle_bytes, at);
        assert(hay_bytes.subrange(at, at + needle_bytes.len())[0] == hay_bytes[at]);
        is_char_boundary_start_end_of_seq(needle_bytes);
        is_char_boundary_iff_not_is_continuation_byte(needle_bytes, 0);
        is_char_boundary_iff_not_is_continuation_byte(hay_bytes, at);
        let start = lemma_split_at_boundary(hay, at);
        let from = hay.skip(start);
        encode_utf8_valid_utf8(from);
        assert(encode_utf8(from).subrange(0, needle_bytes.len() as int) =~= needle_bytes);
        lemma_prefix_ends_at_boundary(encode_utf8(from), needle_bytes);
        let len = lemma_split_at_boundary(from, needle_bytes.len() as int);
        crate::encoding::lemma_encode_injective(from.take(len), needle);
        assert(hay.subrange(start, start + needle.len()) =~= from.take(len));
        assert(occurs_at(hay, needle, start));
    }
}

/// Whether `needle` stands in `hay` at offset `at`.
fn matches_at(hay: &[u8], needle: &[u8], at: usize) -> (found: bool)
    requires
        at + needle@.len() <= hay@.len() <= usize::MAX,
    ensures
        found == occurs_at(hay@, needle@, at as int),
{
    let n = needle.len();
    let ghost window = hay@.subrange(at as int, at + n);
    let mut i: usize = 0;
    while i < n
        invariant
            n == needle@.len(),
            at + n <= hay@.len() <= usize::MAX,
            i <= n,
            window == hay@.subrange(at as int, at + n),
            forall|j: int| 0 <= j < i ==> window[j] == needle@[j],
        decreases n - i,
    {
        if hay[at + i] != needle[i] {
            assert(window[i as int] != needle@[i as int]);
            return false;
        }
        i += 1;
    }
    assert(window =~= needle@);
    true
}

/// Whether the bytes of `needle` stand somewhere in `hay`, by trying each
/// offset in turn.
pub fn contains_bytes(hay: &[u8], needle: &[u8]) -> (found: bool)
    ensures
        found == is_substring(hay@, needle@),
{
    if needle.len() > hay.len() {
        return false;
    }
    let last = hay.len() - needle.len();
    let mut at: usize = 0;
    loop
        invariant
            hay@.len() <= usize::MAX,
            last == hay@.len() - needle@.len(),
            at <= last,
            forall|i: int| 0 <= i < at ==> !occurs_at(hay@, needle@, i),
        decreases last - at,
    {
        if matches_at(hay, needle, at) {
            return true;
        }
        if at == last {
            return false;
        }
        at += 1;
    }
}

/// Whether `needle` stands somewhere in `hay` as a run of characters.
pub fn contains(hay: &str, needle: &str) -> (found: bool)
    ensures
        found == is_substring(hay@, needle@),
{
    let found = contains_bytes(hay.as_bytes(), needle.as_bytes());
    proof {
        if found {
            lemma_substring_of_bytes(hay@, needle@);
        } else if is_substring(hay@, needle@) {
            lemma_substring_of_chars(hay@, needle@);
        }
    }
    found
}

} // verus!
