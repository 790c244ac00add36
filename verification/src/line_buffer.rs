//! A single line of UTF-8 text together with an insertion point,
//! addressed by byte offset.

use vstd::prelude::*;
use vstd::slice::{slice_subrange, slice_to_vec};
use vstd::string::StrSliceExecFns;
use vstd::utf8::{
    decode_last_scalar, encode_scalar, encode_utf8, encode_utf8_valid_utf8, is_char_boundary,
    is_char_boundary_iff_not_is_continuation_byte, is_char_boundary_start_end_of_seq,
    is_continuation_byte, length_of_first_scalar, length_of_last_scalar, valid_first_scalar,
    valid_utf8, valid_utf8_concat, valid_utf8_split,
};

use crate::text::{
    bytes_to_string, char_from_scalar, encode_char, grapheme_start_offsets, grapheme_starts,
    lemma_ascii_byte_boundaries, lemma_decoded_value_is_scalar, lemma_first_byte_not_continuation,
    well_formed_starts,
};

verus! {

/// A byte recognized as a word separator: space or tab.
pub open spec fn is_word_separator(b: u8) -> bool {
    b == 0x20 || b == 0x09
}

/// The offset the cursor reaches by one rightward step through the list
/// `g` of grapheme-cluster start offsets: the start of the cluster after
/// the one that begins at `cur`, or `len` when `cur` begins the last
/// cluster or no cluster at all.
pub open spec fn next_grapheme_start(g: Seq<usize>, cur: int, len: int) -> int
    decreases g.len(),
{
    if g.len() == 0 {
        len
    } else if g[0] as int == cur {
        if g.len() >= 2 {
            g[1] as int
        } else {
            len
        }
    } else {
        next_grapheme_start(g.drop_first(), cur, len)
    }
}

/// The offset the cursor reaches by one leftward step through the list
/// `g` of grapheme-cluster start offsets: the start of the cluster before
/// the one that begins at `cur`, or 0 when no cluster begins at `cur`.
/// `acc` carries the start of the cluster scanned just before `g`.
pub open spec fn prev_grapheme_start(g: Seq<usize>, cur: int, acc: int) -> int
    decreases g.len(),
{
    if g.len() == 0 {
        0
    } else if g[0] as int == cur {
        acc
    } else {
        prev_grapheme_start(g.drop_first(), cur, g[0] as int)
    }
}

/// Where a rightward step leaves the cursor on the text `s`.
pub open spec fn step_right_spec(s: Seq<u8>, cur: int) -> int {
    next_grapheme_start(grapheme_starts(s), cur, s.len() as int)
}

/// The offset one leftward step reaches through the cluster-start
/// offsets `g` of a text of `len` bytes.  A cursor at the very end sits
/// after the last cluster and steps to that cluster's start.
pub open spec fn prev_boundary_of_starts(g: Seq<usize>, len: int, cur: int) -> int {
    if cur == len {
        if g.len() > 0 {
            g.last() as int
        } else {
            0
        }
    } else {
        prev_grapheme_start(g, cur, 0)
    }
}

/// Where a leftward step leaves the cursor on the text `s`.
pub open spec fn step_left_spec(s: Seq<u8>, cur: int) -> int {
    prev_boundary_of_starts(grapheme_starts(s), s.len() as int, cur)
}

/// The largest index below `hi` that holds a word separator, or -1 when
/// there is none.
pub open spec fn last_separator_before(s: Seq<u8>, hi: int) -> int
    decreases hi,
{
    if hi <= 0 || hi > s.len() {
        -1
    } else if is_word_separator(s[hi - 1]) {
        hi - 1
    } else {
        last_separator_before(s, hi - 1)
    }
}

/// The smallest index at or after `from` that holds a word separator, or
/// -1 when there is none.
pub open spec fn first_separator_from(s: Seq<u8>, from: int) -> int
    decreases s.len() - from,
{
    if from < 0 || from >= s.len() {
        -1
    } else if is_word_separator(s[from]) {
        from
    } else {
        first_separator_from(s, from + 1)
    }
}

/// Where a leftward word step leaves the cursor: on the closest word
/// separator whose index is less than `cur - 1`, or at 0 when there is
/// none; a cursor already at 0 does not move.
pub open spec fn word_left_spec(s: Seq<u8>, cur: int) -> int {
    if cur <= 0 {
        cur
    } else {
        let hi = if cur - 1 <= s.len() {
            cur - 1
        } else {
            s.len() as int
        };
        let i = last_separator_before(s, hi);
        if i >= 0 {
            i
        } else {
            0
        }
    }
}

/// Where a rightward word step leaves the cursor: one past the first word
/// separator whose index is greater than `cur`, or at the end of the text
/// when there is none.
pub open spec fn word_right_spec(s: Seq<u8>, cur: int) -> int {
    let i = first_separator_from(s, cur + 1);
    if i >= 0 {
        i + 1
    } else {
        s.len() as int
    }
}

/// One line of text, stored as UTF-8 bytes, plus the byte offset at which
/// the next edit takes place.
pub struct LineBuffer {
    buffer: Vec<u8>,
    insertion_point: usize,
}

impl LineBuffer {
    /// The raw UTF-8 bytes of the line.
    pub closed spec fn bytes(&self) -> Seq<u8> {
        self.buffer@
    }

    /// The insertion point, as a byte offset into `bytes()`.
    pub closed spec fn cursor(&self) -> int {
        self.insertion_point as int
    }

    /// The one invariant of the buffer itself: its bytes are well-formed
    /// UTF-8.  The insertion point is deliberately unconstrained here; the
    /// movement operations tolerate any offset, and the byte-addressed
    /// primitives state what they need of it case by case.
    pub open spec fn wf(&self) -> bool {
        valid_utf8(self.bytes())
    }

    /// A fresh, empty line with the insertion point at the start.
    pub fn new() -> (r: Self)
        ensures
            r.wf(),
            r.bytes() == Seq::<u8>::empty(),
            r.cursor() == 0,
    {
        LineBuffer { buffer: Vec::new(), insertion_point: 0 }
    }

    /// Place the insertion point at an arbitrary byte offset.  This is a
    /// deliberately thin primitive: the caller is responsible for choosing
    /// an offset that is meaningful for the current content.
    pub fn set_insertion_point(&mut self, pos: usize)
        ensures
            final(self).bytes() == old(self).bytes(),
            final(self).cursor() == pos,
    {
        self.insertion_point = pos;
    }

    /// The current insertion point.
    pub fn get_insertion_point(&self) -> (r: usize)
        ensures
            r == self.cursor(),
    {
        self.insertion_point
    }

    /// The length of the line in bytes.
    pub fn get_buffer_length(&self) -> (r: usize)
        ensures
            r == self.bytes().len(),
    {
        self.buffer.len()
    }

    /// Place the insertion point at the end of the line.
    pub fn move_to_end(&mut self)
        ensures
            final(self).bytes() == old(self).bytes(),
            final(self).cursor() == old(self).bytes().len(),
    {
        let len = self.get_buffer_length();
        self.set_insertion_point(len);
    }

    /// Whether the line is empty.
    pub fn is_empty(&self) -> (r: bool)
        ensures
            r == (self.bytes().len() == 0),
    {
        self.buffer.len() == 0
    }

    /// The content of the line, as a string.
    pub fn get_buffer(&self) -> (r: String)
        requires
            self.wf(),
        ensures
            encode_utf8(r@) == self.bytes(),
    {
        bytes_to_string(&self.buffer)
    }

    /// Replace the content of the line.  The insertion point is left
    /// where it was; callers that need it placed meaningfully follow up
    /// with one of the movement operations.
    pub fn set_buffer(&mut self, buffer: String)
        ensures
            final(self).wf(),
            final(self).bytes() == encode_utf8(buffer@),
            final(self).cursor() == old(self).cursor(),
    {
        proof {
            encode_utf8_valid_utf8(buffer@);
        }
        self.buffer = buffer.as_str().as_bytes_vec();
    }

    /// The bytes of the line from the given offset to the end: the suffix
    /// a caller repaints after an edit, or cuts to the kill buffer.
    pub fn suffix_bytes(&self, pos: usize) -> (r: Vec<u8>)
        requires
            pos <= self.bytes().len(),
        ensures
            r@ == self.bytes().subrange(pos as int, self.bytes().len() as int),
    {
        slice_to_vec(slice_subrange(self.buffer.as_slice(), pos, self.buffer.len()))
    }

    /// Replace the content of the line with the given well-formed UTF-8
    /// bytes.  The insertion point is left where it was.
    pub(crate) fn set_bytes(&mut self, bytes: Vec<u8>)
        requires
            valid_utf8(bytes@),
        ensures
            final(self).wf(),
            final(self).bytes() == bytes@,
            final(self).cursor() == old(self).cursor(),
    {
        self.buffer = bytes;
    }

    /// Replace the buffer with `bytes[..from] + mid + bytes[from..]`.
    pub(crate) fn splice_in(&mut self, from: usize, mid: &Vec<u8>)
        requires
            old(self).wf(),
            from <= old(self).bytes().len(),
            is_char_boundary(old(self).bytes(), from as int),
            valid_utf8(mid@),
        ensures
            final(self).wf(),
            final(self).bytes() == old(self).bytes().subrange(0, from as int) + mid@
                + old(self).bytes().subrange(from as int, old(self).bytes().len() as int),
            final(self).cursor() == old(self).cursor(),
    {
        let ghost s = self.buffer@;
        let len = self.buffer.len();
        let mut out: Vec<u8> = Vec::new();
        out.extend_from_slice(slice_subrange(self.buffer.as_slice(), 0, from));
        assert(out@ =~= s.subrange(0, from as int));
        out.extend_from_slice(mid.as_slice());
        assert(out@ =~= s.subrange(0, from as int) + mid@);
        out.extend_from_slice(slice_subrange(self.buffer.as_slice(), from, len));
        assert(out@ =~= s.subrange(0, from as int) + mid@ + s.subrange(from as int, len as int));
        proof {
            valid_utf8_split(s, from as int);
            valid_utf8_concat(s.subrange(0, from as int), mid@);
            valid_utf8_concat(s.subrange(0, from as int) + mid@, s.subrange(from as int, len as int));
        }
        self.buffer = out;
    }

    /// Insert one character at the given byte offset, which must fall on a
    /// character boundary.  The insertion point is not moved.
    pub fn insert_char(&mut self, pos: usize, c: char)
        requires
            old(self).wf(),
            pos <= old(self).bytes().len(),
            is_char_boundary(old(self).bytes(), pos as int),
        ensures
            final(self).wf(),
            final(self).bytes() == old(self).bytes().subrange(0, pos as int) + encode_scalar(
                c as u32,
            ) + old(self).bytes().subrange(pos as int, old(self).bytes().len() as int),
            final(self).cursor() == old(self).cursor(),
    {
        let enc = encode_char(c);
        self.splice_in(pos, &enc);
    }

    /// Insert a string at the given byte offset, which must fall on a
    /// character boundary.  The insertion point is not moved.
    pub fn insert_string(&mut self, pos: usize, s: &str)
        requires
            old(self).wf(),
            pos <= old(self).bytes().len(),
            is_char_boundary(old(self).bytes(), pos as int),
        ensures
            final(self).wf(),
            final(self).bytes() == old(self).bytes().subrange(0, pos as int) + encode_utf8(s@)
                + old(self).bytes().subrange(pos as int, old(self).bytes().len() as int),
            final(self).cursor() == old(self).cursor(),
    {
        proof {
            encode_utf8_valid_utf8(s@);
        }
        let add = s.as_bytes_vec();
        self.splice_in(pos, &add);
    }

    /// Remove the single character whose encoding starts at the given byte
    /// offset, which must fall on a character boundary strictly inside the
    /// line.  The insertion point is not moved.
    pub fn remove_char(&mut self, pos: usize)
        requires
            old(self).wf(),
            pos < old(self).bytes().len(),
            is_char_boundary(old(self).bytes(), pos as int),
        ensures
            final(self).wf(),
            ({
                let s = old(self).bytes();
                let k = length_of_first_scalar(s.subrange(pos as int, s.len() as int));
                final(self).bytes() == s.subrange(0, pos as int) + s.subrange(
                    pos as int + k,
                    s.len() as int,
                )
            }),
            final(self).cursor() == old(self).cursor(),
    {
        let ghost s = self.buffer@;
        let len = self.buffer.len();
        proof {
            valid_utf8_split(s, pos as int);
        }
        let ghost tail = s.subrange(pos as int, s.len() as int);
        let b0 = self.buffer[pos];
        assert(valid_first_scalar(tail) && tail[0] == s[pos as int]);
        let k: usize = if b0 < 0x80 {
            1
        } else if b0 < 0xE0 {
            2
        } else if b0 < 0xF0 {
            3
        } else {
            4
        };
        assert(k == length_of_first_scalar(tail) && pos + k <= len);
        let mut out: Vec<u8> = Vec::new();
        out.extend_from_slice(slice_subrange(self.buffer.as_slice(), 0, pos));
        assert(out@ =~= s.subrange(0, pos as int));
        out.extend_from_slice(slice_subrange(self.buffer.as_slice(), pos + k, len));
        assert(out@ =~= s.subrange(0, pos as int) + s.subrange(pos as int + k, len as int));
        proof {
            assert(vstd::utf8::pop_first_scalar(tail) =~= s.subrange(pos as int + k, len as int));
            assert(valid_utf8(s.subrange(pos as int + k, len as int)));
            valid_utf8_concat(s.subrange(0, pos as int), s.subrange(pos as int + k, len as int));
        }
        self.buffer = out;
    }

    /// Empty the line and return the insertion point to the start.
    pub fn clear_buffer(&mut self)
        ensures
            final(self).wf(),
            final(self).bytes() == Seq::<u8>::empty(),
            final(self).cursor() == 0,
    {
        self.buffer.clear();
        self.insertion_point = 0;
        assert(self.buffer@ =~= Seq::<u8>::empty());
    }

    /// Empty the line.  The insertion point is left where it was.
    pub fn clear(&mut self)
        ensures
            final(self).wf(),
            final(self).bytes() == Seq::<u8>::empty(),
            final(self).cursor() == old(self).cursor(),
    {
        self.buffer.clear();
        assert(self.buffer@ =~= Seq::<u8>::empty());
    }

    /// Discard everything from the given byte offset to the end of the
    /// line.  An offset past the end leaves the line unchanged; one inside
    /// the line must fall on a character boundary.  The insertion point is
    /// left where it was.
    pub fn clear_to_end(&mut self, pos: usize)
        requires
            old(self).wf(),
            pos as int > old(self).bytes().len() || is_char_boundary(old(self).bytes(), pos as int),
        ensures
            final(self).wf(),
            final(self).bytes() == if pos as int <= old(self).bytes().len() {
                old(self).bytes().subrange(0, pos as int)
            } else {
                old(self).bytes()
            },
            final(self).cursor() == old(self).cursor(),
    {
        proof {
            if pos as int <= self.buffer@.len() {
                valid_utf8_split(self.buffer@, pos as int);
            }
        }
        self.buffer.truncate(pos);
    }

    /// Remove and return the final character of the line, if any.  The
    /// insertion point always ends up at the end of the shortened line.
    pub fn pop(&mut self) -> (r: Option<char>)
        requires
            old(self).wf(),
        ensures
            final(self).wf(),
            old(self).bytes().len() == 0 ==> r is None && final(self).bytes() == old(self).bytes(),
            old(self).bytes().len() > 0 ==> ({
                let s = old(self).bytes();
                let k = length_of_last_scalar(s);
                &&& r == Some(decode_last_scalar(s) as char)
                &&& final(self).bytes() == s.subrange(0, s.len() - k)
            }),
            final(self).cursor() == final(self).bytes().len(),
    {
        let ghost s = self.buffer@;
        let n = self.buffer.len();
        if n == 0 {
            self.insertion_point = 0;
            return None;
        }
        let mut b = n - 1;
        while self.buffer[b] >= 0x80 && self.buffer[b] <= 0xBF
            invariant
                self.buffer@ == s,
                valid_utf8(s),
                n == s.len(),
                0 <= b < n,
                forall|j: int| b < j < n ==> is_continuation_byte(s[j]),
            decreases b,
        {
            proof {
                lemma_first_byte_not_continuation(s);
            }
            b = b - 1;
        }
        proof {
            is_char_boundary_iff_not_is_continuation_byte(s, b as int);
            valid_utf8_split(s, b as int);
        }
        let ghost tail = s.subrange(b as int, n as int);
        proof {
            assert(valid_first_scalar(tail));
            let l = length_of_first_scalar(tail);
            if l < tail.len() {
                let rest = vstd::utf8::pop_first_scalar(tail);
                assert(valid_utf8(rest) && rest.len() > 0);
                lemma_first_byte_not_continuation(rest);
                assert(rest[0] == s[b + l]);
                assert(is_continuation_byte(s[b + l]));
                assert(false);
            }
            assert(length_of_first_scalar(tail) == n - b);
        }
        let b0 = self.buffer[b];
        let v: u32;
        if b0 < 0x80 {
            v = (b0 & 0x7F) as u32;
        } else if b0 < 0xE0 {
            v = (((b0 & 0x1F) as u32) << 6) | ((self.buffer[b + 1] & 0x3F) as u32);
        } else if b0 < 0xF0 {
            v = (((b0 & 0x0F) as u32) << 12) | (((self.buffer[b + 1] & 0x3F) as u32) << 6) | ((
            self.buffer[b + 2] & 0x3F) as u32);
        } else {
            v = (((b0 & 0x07) as u32) << 18) | (((self.buffer[b + 1] & 0x3F) as u32) << 12) | (((
            self.buffer[b + 2] & 0x3F) as u32) << 6) | ((self.buffer[b + 3] & 0x3F) as u32);
        }
        proof {
            assert(length_of_last_scalar(s) == n - b);
            assert(v == decode_last_scalar(s));
            lemma_decoded_value_is_scalar(tail);
            assert(decode_last_scalar(s) == vstd::utf8::decode_first_scalar(tail));
        }
        let c = char_from_scalar(v);
        self.buffer.truncate(b);
        self.insertion_point = self.buffer.len();
        Some(c)
    }

    /// Advance the insertion point to the start of the next grapheme
    /// cluster; from the last cluster, or from any offset that starts no
    /// cluster, it snaps to the end of the line.
    #[verifier::loop_isolation(false)]
    pub fn increment_insertion_point(&mut self)
        requires
            old(self).wf(),
        ensures
            final(self).wf(),
            final(self).bytes() == old(self).bytes(),
            final(self).cursor() == step_right_spec(old(self).bytes(), old(self).cursor()),
            0 <= final(self).cursor() <= final(self).bytes().len(),
            is_char_boundary(final(self).bytes(), final(self).cursor()),
    {
        let ghost s = self.buffer@;
        let g = grapheme_start_offsets(&self.buffer);
        let n = g.len();
        let len = self.buffer.len();
        let cur = self.insertion_point;
        let mut i: usize = 0;
        proof {
            assert(g@.subrange(0, n as int) =~= g@);
        }
        while i < n
            invariant
                self.buffer@ == s,
                self.insertion_point == cur,
                valid_utf8(s),
                g@ == grapheme_starts(s),
                n == g@.len(),
                len == s.len(),
                0 <= i <= n,
                next_grapheme_start(g@.subrange(i as int, n as int), cur as int, len as int)
                    == next_grapheme_start(g@, cur as int, len as int),
                forall|j: int| 0 <= j < n ==> #[trigger] (g@[j] as int) < s.len(),
                forall|j: int| 0 <= j < n ==> is_char_boundary(s, #[trigger] (g@[j] as int)),
            decreases n - i,
        {
            let ghost suf = g@.subrange(i as int, n as int);
            if g[i] == cur {
                if i + 1 < n {
                    self.insertion_point = g[i + 1];
                    proof {
                        assert(suf.len() >= 2 && suf[0] == g@[i as int] && suf[1] == g@[i + 1]);
                    }
                    return;
                } else {
                    self.insertion_point = len;
                    proof {
                        assert(suf.len() == 1 && suf[0] == g@[i as int]);
                        is_char_boundary_start_end_of_seq(s);
                    }
                    return;
                }
            }
            proof {
                assert(suf.drop_first() =~= g@.subrange(i as int + 1, n as int));
            }
            i = i + 1;
        }
        proof {
            assert(g@.subrange(n as int, n as int).len() == 0);
            is_char_boundary_start_end_of_seq(s);
        }
        self.insertion_point = len;
    }

    /// Retreat the insertion point to the start of the previous grapheme
    /// cluster.  A cursor at the end of the line sits after the last
    /// cluster and steps to that cluster's start; when no earlier cluster
    /// exists, or the offset starts no cluster, it snaps to 0.
    #[verifier::loop_isolation(false)]
    pub fn decrement_insertion_point(&mut self)
        requires
            old(self).wf(),
        ensures
            final(self).wf(),
            final(self).bytes() == old(self).bytes(),
            final(self).cursor() == step_left_spec(old(self).bytes(), old(self).cursor()),
            0 <= final(self).cursor() <= final(self).bytes().len(),
            final(self).bytes().len() > 0 ==> final(self).cursor() < final(self).bytes().len(),
            is_char_boundary(final(self).bytes(), final(self).cursor()),
    {
        let ghost s = self.buffer@;
        let g = grapheme_start_offsets(&self.buffer);
        let n = g.len();
        let len = self.buffer.len();
        let cur = self.insertion_point;
        if cur == len {
            if n > 0 {
                self.insertion_point = g[n - 1];
            } else {
                self.insertion_point = 0;
            }
            return;
        }
        let mut i: usize = 0;
        let mut acc: usize = 0;
        proof {
            assert(g@.subrange(0, n as int) =~= g@);
        }
        while i < n
            invariant
                self.buffer@ == s,
                self.insertion_point == cur,
                valid_utf8(s),
                g@ == grapheme_starts(s),
                n == g@.len(),
                len == s.len(),
                cur != len,
                0 <= i <= n,
                acc as int <= s.len(),
                s.len() == 0 || (acc as int) < s.len(),
                is_char_boundary(s, acc as int),
                prev_grapheme_start(g@.subrange(i as int, n as int), cur as int, acc as int)
                    == prev_grapheme_start(g@, cur as int, 0),
                forall|j: int| 0 <= j < n ==> #[trigger] (g@[j] as int) < s.len(),
                forall|j: int| 0 <= j < n ==> is_char_boundary(s, #[trigger] (g@[j] as int)),
            decreases n - i,
        {
            let ghost suf = g@.subrange(i as int, n as int);
            if g[i] == cur {
                self.insertion_point = acc;
                proof {
                    assert(suf[0] == g@[i as int]);
                }
                return;
            }
            proof {
                assert(suf.drop_first() =~= g@.subrange(i as int + 1, n as int));
                assert(suf[0] == g@[i as int]);
            }
            acc = g[i];
            i = i + 1;
        }
        proof {
            assert(g@.subrange(n as int, n as int).len() == 0);
        }
        self.insertion_point = 0;
    }

    /// Move the insertion point to the closest word separator strictly
    /// before the character just left of the cursor, or to the start of
    /// the line when there is none, and return the new offset.  Space and
    /// tab are the only word separators.
    #[verifier::loop_isolation(false)]
    pub fn move_word_left(&mut self) -> (r: usize)
        requires
            old(self).wf(),
        ensures
            final(self).wf(),
            final(self).bytes() == old(self).bytes(),
            final(self).cursor() == word_left_spec(old(self).bytes(), old(self).cursor()),
            r as int == final(self).cursor(),
            0 <= final(self).cursor() <= final(self).bytes().len(),
            is_char_boundary(final(self).bytes(), final(self).cursor()),
    {
        let ghost s = self.buffer@;
        let ip = self.insertion_point;
        if ip == 0 {
            return ip;
        }
        let len = self.buffer.len();
        let mut hi: usize = if ip - 1 <= len {
            ip - 1
        } else {
            len
        };
        let ghost hi0 = hi;
        while hi > 0
            invariant
                self.buffer@ == s,
                self.insertion_point == ip,
                valid_utf8(s),
                len == s.len(),
                0 <= hi <= hi0 <= len,
                last_separator_before(s, hi as int) == last_separator_before(s, hi0 as int),
            decreases hi,
        {
            let b = self.buffer[hi - 1];
            if b == 0x20 || b == 0x09 {
                self.insertion_point = hi - 1;
                proof {
                    lemma_ascii_byte_boundaries(s, hi - 1);
                }
                return hi - 1;
            }
            hi = hi - 1;
        }
        self.insertion_point = 0;
        0
    }

    /// Move the insertion point one past the first word separator strictly
    /// after the cursor, or to the end of the line when there is none, and
    /// return the new offset.  Space and tab are the only word separators.
    #[verifier::loop_isolation(false)]
    pub fn move_word_right(&mut self) -> (r: usize)
        requires
            old(self).wf(),
        ensures
            final(self).wf(),
            final(self).bytes() == old(self).bytes(),
            final(self).cursor() == word_right_spec(old(self).bytes(), old(self).cursor()),
            r as int == final(self).cursor(),
            0 <= final(self).cursor() <= final(self).bytes().len(),
            is_char_boundary(final(self).bytes(), final(self).cursor()),
    {
        let ghost s = self.buffer@;
        let len = self.buffer.len();
        let ip = self.insertion_point;
        proof {
            is_char_boundary_start_end_of_seq(s);
        }
        if ip >= len {
            self.insertion_point = len;
            return len;
        }
        let mut i: usize = ip + 1;
        while i < len
            invariant
                self.buffer@ == s,
                self.insertion_point == ip,
                valid_utf8(s),
                len == s.len(),
                ip + 1 <= i <= len,
                first_separator_from(s, i as int) == first_separator_from(s, ip + 1),
            decreases len - i,
        {
            let b = self.buffer[i];
            if b == 0x20 || b == 0x09 {
                self.insertion_point = i + 1;
                proof {
                    lemma_ascii_byte_boundaries(s, i as int);
                }
                return i + 1;
            }
            i = i + 1;
        }
        self.insertion_point = len;
        len
    }
}

proof fn lemma_next_at(g: Seq<usize>, len: int, i: int)
    requires
        forall|a: int, b: int| #![trigger g[a], g[b]] 0 <= a < b < g.len() ==> g[a] < g[b],
        0 <= i < g.len(),
    ensures
        i < g.len() - 1 ==> next_grapheme_start(g, g[i] as int, len) == g[i + 1] as int,
        i == g.len() - 1 ==> next_grapheme_start(g, g[i] as int, len) == len,
    decreases i,
{
    if i == 0 {
    } else {
        let g2 = g.drop_first();
        assert(forall|a: int| 0 <= a < g2.len() ==> #[trigger] g2[a] == g[a + 1]);
        assert(g[0] < g[i]);
        lemma_next_at(g2, len, i - 1);
    }
}

proof fn lemma_next_missing(g: Seq<usize>, cur: int, len: int)
    requires
        forall|a: int| 0 <= a < g.len() ==> #[trigger] (g[a] as int) != cur,
    ensures
        next_grapheme_start(g, cur, len) == len,
    decreases g.len(),
{
    if g.len() == 0 {
    } else {
        let g2 = g.drop_first();
        assert(forall|a: int| 0 <= a < g2.len() ==> #[trigger] g2[a] == g[a + 1]);
        lemma_next_missing(g2, cur, len);
    }
}

proof fn lemma_prev_at(g: Seq<usize>, i: int, acc: int)
    requires
        forall|a: int, b: int| #![trigger g[a], g[b]] 0 <= a < b < g.len() ==> g[a] < g[b],
        0 <= i < g.len(),
    ensures
        i == 0 ==> prev_grapheme_start(g, g[i] as int, acc) == acc,
        i > 0 ==> prev_grapheme_start(g, g[i] as int, acc) == g[i - 1] as int,
    decreases i,
{
    if i == 0 {
    } else {
        let g2 = g.drop_first();
        assert(forall|a: int| 0 <= a < g2.len() ==> #[trigger] g2[a] == g[a + 1]);
        assert(g[0] < g[i]);
        lemma_prev_at(g2, i - 1, g[0] as int);
    }
}

/// Grapheme safety, rightward: over any well-formed list of cluster-start
/// offsets, one rightward step from the start of a cluster lands exactly
/// on the start of the next cluster; from the start of the last cluster
/// it lands exactly on the end of the text; and at the end of the text it
/// stays put.  Repeated rightward steps from offset 0 therefore visit
/// exactly the cluster boundaries, in order, and finish at the end.
pub proof fn lemma_step_right_visits_boundaries(g: Seq<usize>, len: int)
    requires
        well_formed_starts(g, len),
    ensures
        forall|i: int|
            0 <= i < g.len() - 1 ==> next_grapheme_start(g, #[trigger] (g[i] as int), len) == g[i
                + 1] as int,
        g.len() > 0 ==> next_grapheme_start(g, g[g.len() - 1] as int, len) == len,
        next_grapheme_start(g, len, len) == len,
{
    assert forall|i: int| 0 <= i < g.len() - 1 implies next_grapheme_start(
        g,
        #[trigger] (g[i] as int),
        len,
    ) == g[i + 1] as int by {
        lemma_next_at(g, len, i);
    }
    if g.len() > 0 {
        lemma_next_at(g, len, g.len() - 1);
    }
    lemma_next_missing(g, len, len);
}

/// Grapheme safety, leftward: over any well-formed list of cluster-start
/// offsets, one leftward step from the start of a cluster lands exactly
/// on the start of the previous cluster; from offset 0 it stays put.
/// Together with a leftward step from the end of the text landing on the
/// start of the last cluster (the definition of `step_left_spec`),
/// repeated leftward steps from the end visit exactly the cluster
/// boundaries in reverse order and finish at offset 0.
pub proof fn lemma_step_left_visits_boundaries(g: Seq<usize>, len: int)
    requires
        well_formed_starts(g, len),
    ensures
        forall|i: int|
            0 < i < g.len() ==> prev_grapheme_start(g, #[trigger] (g[i] as int), 0) == g[i
                - 1] as int,
        g.len() > 0 ==> prev_grapheme_start(g, g[0] as int, 0) == 0,
{
    assert forall|i: int| 0 < i < g.len() implies prev_grapheme_start(
        g,
        #[trigger] (g[i] as int),
        0,
    ) == g[i - 1] as int by {
        lemma_prev_at(g, i, 0);
    }
    if g.len() > 0 {
        lemma_prev_at(g, 0, 0);
    }
}

/// The cursor offset after `k` rightward steps from `cur`, through the
/// cluster-start offsets `g` of a text of `len` bytes.
pub open spec fn after_right_steps(g: Seq<usize>, len: int, cur: int, k: nat) -> int
    decreases k,
{
    if k == 0 {
        cur
    } else {
        after_right_steps(g, len, next_grapheme_start(g, cur, len), (k - 1) as nat)
    }
}

/// The cursor offset after `k` leftward steps from `cur`, through the
/// cluster-start offsets `g` of a text of `len` bytes.
pub open spec fn after_left_steps(g: Seq<usize>, len: int, cur: int, k: nat) -> int
    decreases k,
{
    if k == 0 {
        cur
    } else {
        after_left_steps(g, len, prev_boundary_of_starts(g, len, cur), (k - 1) as nat)
    }
}

proof fn lemma_right_steps_stay_at_end(g: Seq<usize>, len: int, k: nat)
    requires
        forall|a: int| 0 <= a < g.len() ==> #[trigger] (g[a] as int) < len,
    ensures
        after_right_steps(g, len, len, k) == len,
    decreases k,
{
    if k > 0 {
        lemma_next_missing(g, len, len);
        lemma_right_steps_stay_at_end(g, len, (k - 1) as nat);
    }
}

proof fn lemma_right_steps_from(g: Seq<usize>, len: int, i: int, k: nat)
    requires
        well_formed_starts(g, len),
        0 <= i < g.len(),
    ensures
        i + k < g.len() ==> after_right_steps(g, len, g[i] as int, k) == g[i + k] as int,
        i + k >= g.len() ==> after_right_steps(g, len, g[i] as int, k) == len,
    decreases k,
{
    if k > 0 {
        lemma_next_at(g, len, i);
        if i < g.len() - 1 {
            lemma_right_steps_from(g, len, i + 1, (k - 1) as nat);
        } else {
            lemma_right_steps_stay_at_end(g, len, (k - 1) as nat);
        }
    }
}

proof fn lemma_left_steps_stay_at_start(g: Seq<usize>, len: int, k: nat)
    requires
        well_formed_starts(g, len),
        len > 0,
    ensures
        after_left_steps(g, len, 0, k) == 0,
    decreases k,
{
    if k > 0 {
        assert(prev_boundary_of_starts(g, len, 0) == 0);
        lemma_left_steps_stay_at_start(g, len, (k - 1) as nat);
    }
}

proof fn lemma_left_steps_from(g: Seq<usize>, len: int, i: int, k: nat)
    requires
        well_formed_starts(g, len),
        len > 0,
        0 <= i < g.len(),
    ensures
        k <= i ==> after_left_steps(g, len, g[i] as int, k) == g[i - k] as int,
        k > i ==> after_left_steps(g, len, g[i] as int, k) == 0,
    decreases k,
{
    if k > 0 {
        assert((g[i] as int) < len);
        lemma_prev_at(g, i, 0);
        if i > 0 {
            lemma_left_steps_from(g, len, i - 1, (k - 1) as nat);
        } else {
            lemma_left_steps_stay_at_start(g, len, (k - 1) as nat);
        }
    }
}

/// Grapheme safety, rightward, in its repeated form: over any well-formed
/// list of cluster-start offsets of a non-empty text, the cursor starting
/// at offset 0 sits, after `k` rightward steps, exactly on the `k`-th
/// cluster boundary; from the step that exhausts the clusters on, it sits
/// exactly at the end of the text.
pub proof fn lemma_repeated_right_steps_visit_boundaries(g: Seq<usize>, len: int, k: nat)
    requires
        well_formed_starts(g, len),
        len > 0,
    ensures
        k < g.len() ==> after_right_steps(g, len, 0, k) == g[k as int] as int,
        k >= g.len() ==> after_right_steps(g, len, 0, k) == len,
{
    assert(g[0] == 0);
    lemma_right_steps_from(g, len, 0, k);
}

/// Grapheme safety, leftward, in its repeated form: over any well-formed
/// list of cluster-start offsets of a non-empty text, the cursor starting
/// at the end of the text sits, after `k` leftward steps, exactly on the
/// `k`-th cluster boundary counted from the right; once the clusters are
/// exhausted it sits at offset 0 and stays there.
pub proof fn lemma_repeated_left_steps_visit_boundaries(g: Seq<usize>, len: int, k: nat)
    requires
        well_formed_starts(g, len),
        len > 0,
    ensures
        0 < k <= g.len() ==> after_left_steps(g, len, len, k) == g[g.len() - k] as int,
        k > g.len() ==> after_left_steps(g, len, len, k) == 0,
{
    if k > 0 {
        assert(prev_boundary_of_starts(g, len, len) == g[g.len() - 1] as int);
        lemma_left_steps_from(g, len, g.len() - 1, (k - 1) as nat);
    }
}

} // verus!
