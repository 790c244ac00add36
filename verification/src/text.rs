//! UTF-8 text helpers shared by the rest of the crate: executable
//! encoding of single characters, decoding of a scalar from its bytes,
//! conversions between byte buffers and `String`s, and the grapheme
//! cluster boundaries of a buffer.

use vstd::prelude::*;
use vstd::utf8::{
    char_is_scalar, decode_first_scalar, encode_scalar, encode_utf8, encode_utf8_valid_utf8,
    is_char_boundary, is_char_boundary_iff_not_is_continuation_byte,
    is_char_boundary_start_end_of_seq, is_continuation_byte, is_leading_byte_width_1,
    is_leading_byte_width_2, is_leading_byte_width_3, is_scalar, length_of_first_scalar,
    not_overlong_encoding, not_surrogate, pop_first_scalar, valid_first_scalar, valid_utf8,
    valid_utf8_concat, valid_utf8_split,
};
use unicode_segmentation::UnicodeSegmentation;

verus! {

/// The byte offsets at which the grapheme clusters of the given UTF-8
/// bytes begin, in order, one offset per cluster.
pub uninterp spec fn grapheme_starts(s: Seq<u8>) -> Seq<usize>;

/// The shape of a list of grapheme-cluster start offsets for a text of
/// `len` bytes: one offset per cluster, beginning at 0, strictly
/// increasing, all inside the text.
pub open spec fn well_formed_starts(g: Seq<usize>, len: int) -> bool {
    &&& (g.len() == 0) == (len == 0)
    &&& g.len() > 0 ==> g[0] == 0
    &&& forall|a: int, b: int| #![trigger g[a], g[b]] 0 <= a < b < g.len() ==> g[a] < g[b]
    &&& forall|a: int| 0 <= a < g.len() ==> #[trigger] (g[a] as int) < len
}

/// Relies on `unicode_segmentation::UnicodeSegmentation::grapheme_indices`,
/// which yields each extended grapheme cluster of the text together with
/// the byte offset at which it begins.  The clusters are non-empty,
/// consecutive, and cover the whole text, so the offsets start at 0,
/// increase strictly, stay below the byte length, and every one of them
/// is a character boundary.
#[verifier::external_body]
pub(crate) fn grapheme_start_offsets(buf: &Vec<u8>) -> (r: Vec<usize>)
    requires
        valid_utf8(buf@),
    ensures
        r@ == grapheme_starts(buf@),
        well_formed_starts(r@, buf@.len() as int),
        (r@.len() == 0) == (buf@.len() == 0),
        r@.len() > 0 ==> r@[0] == 0,
        forall|i: int, j: int|
            #![trigger r@[i], r@[j]]
            0 <= i < j < r@.len() ==> r@[i] < r@[j],
        forall|i: int| 0 <= i < r@.len() ==> #[trigger] (r@[i] as int) < buf@.len(),
        forall|i: int| 0 <= i < r@.len() ==> is_char_boundary(buf@, #[trigger] (r@[i] as int)),
{
    let s = std::str::from_utf8(buf).unwrap();
    UnicodeSegmentation::grapheme_indices(s, true).map(|(i, _)| i).collect()
}

/// Relies on `core::char::from_u32`, which returns `Some` of the character
/// with the given numerical value exactly when that value is a Unicode
/// scalar value.
#[verifier::external_body]
pub(crate) fn char_from_scalar(v: u32) -> (c: char)
    requires
        is_scalar(v),
    ensures
        c == v as char,
{
    char::from_u32(v).unwrap()
}

/// Relies on `alloc::string::String::from_utf8`, which succeeds on
/// well-formed UTF-8 input and returns the string consisting of exactly
/// the given bytes.
#[verifier::external_body]
pub(crate) fn bytes_to_string(buf: &Vec<u8>) -> (r: String)
    requires
        valid_utf8(buf@),
    ensures
        encode_utf8(r@) == buf@,
{
    String::from_utf8(buf.clone()).unwrap()
}

/// The UTF-8 encoding of one character, computed in executable code.
pub(crate) fn encode_char(c: char) -> (r: Vec<u8>)
    ensures
        r@ == encode_scalar(c as u32),
        valid_utf8(r@),
        1 <= r@.len() <= 4,
{
    let v = c as u32;
    proof {
        char_is_scalar(c);
    }
    let mut out: Vec<u8> = Vec::new();
    if v <= 0x7F {
        proof {
            lemma_encode_masks_fit(v);
        }
        out.push((v & 0x7F) as u8);
    } else if v <= 0x7FF {
        proof {
            lemma_encode_masks_fit(v);
        }
        out.push(0xC0 | ((v >> 6) & 0x1F) as u8);
        out.push(0x80 | (v & 0x3F) as u8);
    } else if v <= 0xFFFF {
        proof {
            lemma_encode_masks_fit(v);
        }
        out.push(0xE0 | ((v >> 12) & 0x0F) as u8);
        out.push(0x80 | ((v >> 6) & 0x3F) as u8);
        out.push(0x80 | (v & 0x3F) as u8);
    } else {
        proof {
            lemma_encode_masks_fit(v);
        }
        out.push(0xF0 | ((v >> 18) & 0x07) as u8);
        out.push(0x80 | ((v >> 12) & 0x3F) as u8);
        out.push(0x80 | ((v >> 6) & 0x3F) as u8);
        out.push(0x80 | (v & 0x3F) as u8);
    }
    proof {
        assert(out@ =~= encode_scalar(c as u32));
        lemma_encode_scalar_valid(c);
    }
    out
}

/// The UTF-8 encoding of one character is well-formed.
pub proof fn lemma_encode_scalar_valid(c: char)
    ensures
        valid_utf8(encode_scalar(c as u32)),
        1 <= encode_scalar(c as u32).len() <= 4,
{
    encode_utf8_valid_utf8(seq![c]);
    assert(encode_utf8(seq![c]) =~= encode_scalar(c as u32)) by {
        let one = seq![c];
        assert(one.drop_first().len() == 0);
        assert(encode_utf8(one.drop_first()) =~= Seq::<u8>::empty());
        assert(one[0] == c);
    }
    char_is_scalar(c);
}

/// All the bit masks used while encoding stay below 256, so the casts to
/// `u8` lose nothing.
proof fn lemma_encode_masks_fit(v: u32)
    by (bit_vector)
    ensures
        v & 0x7F < 0x100,
        (v >> 6) & 0x1F < 0x100,
        (v >> 12) & 0x0F < 0x100,
        (v >> 18) & 0x07 < 0x100,
        (v >> 12) & 0x3F < 0x100,
        (v >> 6) & 0x3F < 0x100,
        v & 0x3F < 0x100,
{
}

/// Upper bounds of the values a multi-byte UTF-8 sequence can decode to.
proof fn lemma_codepoint_value_bounds(b1: u8, b2: u8, b3: u8, b4: u8)
    by (bit_vector)
    ensures
        ((b1 & 0x7F) as u32) <= 0x7F,
        (((b1 & 0x1F) as u32) << 6) | ((b2 & 0x3F) as u32) <= 0x7FF,
        (((b1 & 0x0F) as u32) << 12) | (((b2 & 0x3F) as u32) << 6) | ((b3 & 0x3F) as u32)
            <= 0xFFFF,
        (((b1 & 0x07) as u32) << 18) | (((b2 & 0x3F) as u32) << 12) | (((b3 & 0x3F) as u32) << 6)
            | ((b4 & 0x3F) as u32) <= 0x1FFFFF,
{
}

/// A well-formed single-scalar encoding decodes to a Unicode scalar value.
pub proof fn lemma_decoded_value_is_scalar(b: Seq<u8>)
    requires
        valid_first_scalar(b),
    ensures
        is_scalar(decode_first_scalar(b)),
{
    let v = decode_first_scalar(b);
    if is_leading_byte_width_1(b[0]) {
        assert(v == ((b[0] & 0x7F) as u32));
        lemma_codepoint_value_bounds(b[0], 0, 0, 0);
    } else if is_leading_byte_width_2(b[0]) {
        assert(v == ((((b[0] & 0x1F) as u32) << 6) | ((b[1] & 0x3F) as u32)));
        lemma_codepoint_value_bounds(b[0], b[1], 0, 0);
        assert(not_overlong_encoding(v, 2));
    } else if is_leading_byte_width_3(b[0]) {
        assert(v == ((((b[0] & 0x0F) as u32) << 12) | (((b[1] & 0x3F) as u32) << 6) | ((b[2]
            & 0x3F) as u32)));
        lemma_codepoint_value_bounds(b[0], b[1], b[2], 0);
        assert(not_overlong_encoding(v, 3));
        assert(not_surrogate(v));
    } else {
        assert(v == ((((b[0] & 0x07) as u32) << 18) | (((b[1] & 0x3F) as u32) << 12) | (((b[2]
            & 0x3F) as u32) << 6) | ((b[3] & 0x3F) as u32)));
        lemma_codepoint_value_bounds(b[0], b[1], b[2], b[3]);
        assert(not_overlong_encoding(v, 4));
    }
}

/// The first byte of a well-formed UTF-8 sequence is never a continuation
/// byte.
pub proof fn lemma_first_byte_not_continuation(b: Seq<u8>)
    requires
        valid_utf8(b),
        b.len() > 0,
    ensures
        !is_continuation_byte(b[0]),
{
    assert(valid_first_scalar(b));
}

/// In a well-formed byte sequence, an index at the end or on a byte that
/// is not a continuation byte is a character boundary.
pub proof fn lemma_boundary_from_byte(s: Seq<u8>, i: int)
    requires
        valid_utf8(s),
        0 <= i <= s.len(),
        i == s.len() || !is_continuation_byte(s[i]),
    ensures
        is_char_boundary(s, i),
{
    if i == s.len() {
        is_char_boundary_start_end_of_seq(s);
    } else {
        is_char_boundary_iff_not_is_continuation_byte(s, i);
    }
}

/// In a well-formed byte sequence, the byte at a character boundary
/// strictly inside the sequence is not a continuation byte.
pub proof fn lemma_byte_at_boundary(s: Seq<u8>, i: int)
    requires
        valid_utf8(s),
        0 <= i < s.len(),
        is_char_boundary(s, i),
    ensures
        !is_continuation_byte(s[i]),
{
    is_char_boundary_iff_not_is_continuation_byte(s, i);
}

/// Extending a well-formed sequence with further well-formed bytes keeps
/// the whole well-formed and keeps every boundary of the original prefix
/// a boundary of the whole.
pub proof fn lemma_prefix_boundary(a: Seq<u8>, c: Seq<u8>, cur: int)
    requires
        valid_utf8(a),
        valid_utf8(c),
        0 <= cur <= a.len(),
        is_char_boundary(a, cur),
    ensures
        valid_utf8(a + c),
        is_char_boundary(a + c, cur),
{
    valid_utf8_concat(a, c);
    if cur == a.len() + c.len() {
        lemma_boundary_from_byte(a + c, cur);
    } else if cur < a.len() {
        lemma_byte_at_boundary(a, cur);
        assert((a + c)[cur] == a[cur]);
        lemma_boundary_from_byte(a + c, cur);
    } else {
        lemma_first_byte_not_continuation(c);
        assert((a + c)[cur] == c[0]);
        lemma_boundary_from_byte(a + c, cur);
    }
}

/// A byte below 0x80 in a well-formed UTF-8 sequence is a one-byte
/// character of its own, so both its position and the next position are
/// character boundaries.
pub proof fn lemma_ascii_byte_boundaries(s: Seq<u8>, i: int)
    requires
        valid_utf8(s),
        0 <= i < s.len(),
        s[i] < 0x80,
    ensures
        is_char_boundary(s, i),
        is_char_boundary(s, i + 1),
{
    is_char_boundary_iff_not_is_continuation_byte(s, i);
    valid_utf8_split(s, i);
    let tail = s.subrange(i, s.len() as int);
    assert(valid_first_scalar(tail));
    assert(is_leading_byte_width_1(tail[0]));
    assert(length_of_first_scalar(tail) == 1);
    if i + 1 == s.len() {
        is_char_boundary_start_end_of_seq(s);
    } else {
        let rest = pop_first_scalar(tail);
        assert(rest =~= s.subrange(i + 1, s.len() as int));
        lemma_first_byte_not_continuation(rest);
        assert(rest[0] == s[i + 1]);
        is_char_boundary_iff_not_is_continuation_byte(s, i + 1);
    }
}

} // verus!
