//! How positions in the UTF-8 bytes of a text relate to positions in its
//! characters.
//!
//! The search walks the bytes of a `str` and cuts it at byte offsets, while
//! every contract speaks of characters. The lemmas here carry facts from one
//! side to the other.

use vstd::prelude::*;
use vstd::utf8::*;

verus! {

/// Encoding distributes over concatenation.
pub proof fn lemma_encode_concat(a: Seq<char>, b: Seq<char>)
    ensures
        encode_utf8(a + b) == encode_utf8(a) + encode_utf8(b),
    decreases a.len(),
{
    if a.len() == 0 {
        assert(a + b =~= b);
        assert(encode_utf8(a) + encode_utf8(b) =~= encode_utf8(b));
    } else {
        lemma_encode_concat(a.drop_first(), b);
        assert((a + b).drop_first() =~= a.drop_first() + b);
        assert(encode_utf8(a + b) =~= encode_utf8(a) + encode_utf8(b));
    }
}

/// A text without characters has no bytes, and the other way round.
pub proof fn lemma_encode_empty(s: Seq<char>)
    ensures
        encode_utf8(s).len() == 0 <==> s.len() == 0,
{
    if s.len() > 0 {
        char_is_scalar(s[0]);
        assert(encode_scalar(s[0] as u32).len() > 0);
    }
}

/// Two texts with the same encoding are the same text.
pub proof fn lemma_encode_injective(a: Seq<char>, b: Seq<char>)
    requires
        encode_utf8(a) == encode_utf8(b),
    ensures
        a == b,
{
    encode_utf8_decode_utf8(a);
    encode_utf8_decode_utf8(b);
}

/// Cutting the encoding of `s` at a character boundary cuts `s` itself: the
/// two byte halves are the encodings of a prefix and a suffix of `s`.
pub proof fn lemma_split_at_boundary(s: Seq<char>, mid: int) -> (n: int)
    requires
        is_char_boundary(encode_utf8(s), mid),
    ensures
        0 <= n <= s.len(),
        0 <= mid <= encode_utf8(s).len(),
        encode_utf8(s.take(n)) == encode_utf8(s).subrange(0, mid),
        encode_utf8(s.skip(n)) == encode_utf8(s).subrange(mid, encode_utf8(s).len() as int),
{
    let bytes = encode_utf8(s);
    encode_utf8_valid_utf8(s);
    assert(0 <= mid <= bytes.len()) by {
        reveal_with_fuel(is_char_boundary, 2);
    }
    let left = bytes.subrange(0, mid);
    let right = bytes.subrange(mid, bytes.len() as int);
    valid_utf8_split(bytes, mid);
    decode_utf8_split(bytes, mid);
    encode_utf8_decode_utf8(s);
    let a = decode_utf8(left);
    let b = decode_utf8(right);
    assert(s == a + b);
    decode_utf8_encode_utf8(left);
    decode_utf8_encode_utf8(right);
    assert(s.take(a.len() as int) =~= a);
    assert(s.skip(a.len() as int) =~= b);
    a.len() as int
}

/// A character is at most U+007F exactly when its number is below 128.
proof fn lemma_char_below_128(c: char)
    ensures
        c <= '\u{7f}' <==> (c as u32) < 0x80,
{
}

/// The first byte of an encoding is below 128 exactly when the first
/// character is, and then the byte is the character's number and the
/// character's whole encoding.
pub proof fn lemma_first_byte(s: Seq<char>)
    requires
        s.len() > 0,
    ensures
        encode_utf8(s).len() > 0,
        encode_utf8(s)[0] < 0x80 <==> s[0] <= '\u{7f}',
        encode_utf8(s)[0] < 0x80 ==> s[0] == encode_utf8(s)[0] as char,
        encode_utf8(s)[0] < 0x80 ==> encode_utf8(s) == seq![encode_utf8(s)[0]] + encode_utf8(
            s.drop_first(),
        ),
{
    let c = s[0] as u32;
    char_is_scalar(s[0]);
    lemma_char_below_128(s[0]);
    let head = encode_scalar(c);
    assert(encode_utf8(s) == head + encode_utf8(s.drop_first()));
    assert(head.len() > 0);
    assert(encode_utf8(s)[0] == head[0]);
    if has_width_1_encoding(c) {
        assert(leading_byte_width_1(c) as u32 == c) by (bit_vector)
            requires
                has_width_1_encoding(c),
        ;
        char_u32_cast(s[0], c);
        assert(head =~= seq![encode_utf8(s)[0]]);
    } else if has_width_2_encoding(c) {
        assert(leading_byte_width_2(c) >= 0x80) by (bit_vector);
    } else if has_width_3_encoding(c) {
        assert(leading_byte_width_3(c) >= 0x80) by (bit_vector);
    } else {
        assert(leading_byte_width_4(c) >= 0x80) by (bit_vector);
    }
}

/// A character below 128 at index `j` of `s` is one byte of the encoding,
/// at the offset where the encoding of the characters before it ends.
pub proof fn lemma_ascii_char_at(s: Seq<char>, j: int) -> (k: int)
    requires
        0 <= j < s.len(),
        s[j] <= '\u{7f}',
    ensures
        0 <= k < encode_utf8(s).len(),
        encode_utf8(s)[k] < 0x80,
        encode_utf8(s)[k] as char == s[j],
        encode_utf8(s).subrange(0, k) == encode_utf8(s.take(j)),
        encode_utf8(s).subrange(k + 1, encode_utf8(s).len() as int) == encode_utf8(s.skip(j + 1)),
{
    let before = s.take(j);
    let from = s.skip(j);
    assert(s =~= before + from);
    lemma_encode_concat(before, from);
    lemma_first_byte(from);
    assert(from.drop_first() =~= s.skip(j + 1));
    let k = encode_utf8(before).len() as int;
    assert(encode_utf8(s).subrange(0, k) =~= encode_utf8(before));
    assert(encode_utf8(s).subrange(k + 1, encode_utf8(s).len() as int) =~= encode_utf8(
        s.skip(j + 1),
    ));
    k
}

/// A byte below 128 at offset `k` of the encoding of `s` is one character
/// of `s`, and the encoding can be cut on either side of it.
pub proof fn lemma_ascii_byte_at(s: Seq<char>, k: int) -> (j: int)
    requires
        0 <= k < encode_utf8(s).len(),
        encode_utf8(s)[k] < 0x80,
    ensures
        0 <= j < s.len(),
        s[j] == encode_utf8(s)[k] as char,
        is_char_boundary(encode_utf8(s), k),
        is_char_boundary(encode_utf8(s), k + 1),
        encode_utf8(s.take(j)) == encode_utf8(s).subrange(0, k),
        encode_utf8(s.skip(j + 1)) == encode_utf8(s).subrange(k + 1, encode_utf8(s).len() as int),
{
    let bytes = encode_utf8(s);
    encode_utf8_valid_utf8(s);
    is_char_boundary_iff_not_is_continuation_byte(bytes, k);
    let j = lemma_split_at_boundary(s, k);
    let from = s.skip(j);
    assert(encode_utf8(from).len() > 0);
    assert(from.len() > 0);
    lemma_first_byte(from);
    assert(encode_utf8(from)[0] == bytes[k]);
    let after = s.skip(j + 1);
    assert(from.drop_first() =~= after);
    let tail = encode_utf8(from);
    assert(tail == seq![tail[0]] + encode_utf8(after));
    assert(encode_utf8(after) =~= tail.subrange(1, tail.len() as int));
    assert(encode_utf8(after) =~= bytes.subrange(k + 1, bytes.len() as int));
    if k + 1 == bytes.len() {
        is_char_boundary_start_end_of_seq(bytes);
    } else {
        encode_utf8_valid_utf8(after);
        is_char_boundary_start_end_of_seq(encode_utf8(after));
        is_char_boundary_iff_not_is_continuation_byte(encode_utf8(after), 0);
        assert(encode_utf8(after)[0] == bytes[k + 1]);
        is_char_boundary_iff_not_is_continuation_byte(bytes, k + 1);
    }
    j
}

} // verus!
