//! Grapheme and word boundaries around a byte position of a text, found by
//! segmenting the text on one side of that position.
use crate::text::{
    char_range, lemma_boundary_in_range, lemma_sub_boundary, sub_str, text_between,
};
use crate::unicode::{
    alphanumeric, cuts, grapheme_offsets, grapheme_starts, is_alphanumeric, word_bound_offsets,
    word_bound_starts,
};
use vstd::prelude::*;
use vstd::std_specs::iter::IteratorSpec;
use vstd::string::*;
use vstd::utf8::*;

verus! {

broadcast use {
    vstd::utf8::encode_utf8_decode_utf8,
    vstd::utf8::encode_utf8_valid_utf8,
    vstd::utf8::is_char_boundary_start_end_of_seq,
};

/// The end of the grapheme cluster that starts at `pos`, or the end of the text.
pub open spec fn grapheme_right(b: Seq<u8>, pos: int) -> int {
    let g = grapheme_starts(text_between(b, pos, b.len() as int));
    if g.len() > 1 {
        pos + g[1]
    } else {
        b.len() as int
    }
}

/// The start of the grapheme cluster that ends at `pos`, or 0.
pub open spec fn grapheme_left(b: Seq<u8>, pos: int) -> int {
    let g = grapheme_starts(text_between(b, 0, pos));
    if g.len() > 0 {
        g.last() as int
    } else {
        0
    }
}

/// The number of grapheme clusters in `b[lo..hi]`.
pub open spec fn grapheme_count(b: Seq<u8>, lo: int, hi: int) -> int {
    grapheme_starts(text_between(b, lo, hi)).len() as int
}

/// Where piece `k` of a segmentation `offs` of `s` ends.
pub open spec fn piece_end(offs: Seq<usize>, s: Seq<u8>, k: int) -> int {
    if k + 1 < offs.len() {
        offs[k + 1] as int
    } else {
        s.len() as int
    }
}

/// Some character of `t` is alphanumeric.
pub open spec fn has_alphanumeric(t: Seq<char>) -> bool {
    exists|i: int| 0 <= i < t.len() && alphanumeric(#[trigger] t[i])
}

/// Piece `k` of the word-boundary segmentation `offs` of `s` is a word.
pub open spec fn is_word_piece(s: Seq<u8>, offs: Seq<usize>, k: int) -> bool {
    has_alphanumeric(text_between(s, offs[k] as int, piece_end(offs, s, k)))
}

/// The first word piece at index `k` or later, or `offs.len()`.
pub open spec fn first_word_piece(s: Seq<u8>, offs: Seq<usize>, k: int) -> int
    decreases offs.len() - k,
{
    if k >= offs.len() {
        offs.len() as int
    } else if is_word_piece(s, offs, k) {
        k
    } else {
        first_word_piece(s, offs, k + 1)
    }
}

/// The last word piece before index `k`, or -1.
pub open spec fn last_word_piece(s: Seq<u8>, offs: Seq<usize>, k: int) -> int
    decreases k,
{
    if k <= 0 {
        -1
    } else if is_word_piece(s, offs, k - 1) {
        k - 1
    } else {
        last_word_piece(s, offs, k - 1)
    }
}

/// The end of the first word after `pos`, or the end of the text.
pub open spec fn word_right(b: Seq<u8>, pos: int) -> int {
    let s = b.subrange(pos, b.len() as int);
    let offs = word_bound_starts(decode_utf8(s));
    let k = first_word_piece(s, offs, 0);
    if k < offs.len() {
        pos + piece_end(offs, s, k)
    } else {
        b.len() as int
    }
}

/// The start of the last word before `pos`, or 0.
pub open spec fn word_left(b: Seq<u8>, pos: int) -> int {
    let s = b.subrange(0, pos);
    let offs = word_bound_starts(decode_utf8(s));
    let k = last_word_piece(s, offs, offs.len() as int);
    if k >= 0 {
        offs[k] as int
    } else {
        0
    }
}

/// Piece `k` of a segmentation lies between two character boundaries.
proof fn lemma_piece(offs: Seq<usize>, s: Seq<u8>, k: int)
    requires
        valid_utf8(s),
        cuts(offs, s),
        0 <= k < offs.len(),
    ensures
        char_range(s, offs[k] as int, piece_end(offs, s, k)),
        offs[k] < piece_end(offs, s, k) <= s.len(),
{
    assert(is_char_boundary(s, offs[k] as int));
    if k + 1 < offs.len() {
        assert(is_char_boundary(s, offs[k + 1] as int));
    } else {
        is_char_boundary_start_end_of_seq(s);
    }
}

/// Whether some character of `s` is alphanumeric.
pub fn any_alphanumeric(s: &str) -> (r: bool)
    ensures
        r == has_alphanumeric(s@),
{
    let ghost t = s@;
    let n = s.unicode_len();
    let mut it = s.chars();
    let mut k: usize = 0;
    while k < n
        invariant
            t == s@,
            n == t.len(),
            k <= n,
            it.remaining() == t.skip(k as int),
            forall|i: int| 0 <= i < k ==> !alphanumeric(#[trigger] t[i]),
        decreases n - k,
    {
        let next = it.next();
        let ch = match next {
            Some(ch) => ch,
            None => {
                proof {
                    assert(false);
                }
                ' '
            },
        };
        assert(ch == t[k as int]);
        if is_alphanumeric(ch) {
            return true;
        }
        proof {
            assert(t.skip(k as int).drop_first() =~= t.skip(k as int + 1));
        }
        k = k + 1;
    }
    false
}

/// The end of the grapheme cluster that starts at `pos` in `s`.
pub fn grapheme_right_of(s: &str, pos: usize) -> (r: usize)
    requires
        is_char_boundary(s.spec_bytes(), pos as int),
    ensures
        r == grapheme_right(s.spec_bytes(), pos as int),
        is_char_boundary(s.spec_bytes(), r as int),
        pos <= r <= s.spec_bytes().len(),
        pos < s.spec_bytes().len() ==> pos < r,
        pos == s.spec_bytes().len() ==> r == pos,
{
    let ghost b = s.spec_bytes();
    let len = s.as_bytes().len();
    proof {
        lemma_boundary_in_range(b, pos as int);
    }
    let tail = sub_str(s, pos, len);
    let g = grapheme_offsets(tail);
    if g.len() > 1 {
        proof {
            lemma_sub_boundary(b, pos as int, len as int, g@[1] as int);
        }
        pos + g[1]
    } else {
        len
    }
}

/// The start of the grapheme cluster that ends at `pos` in `s`.
pub fn grapheme_left_of(s: &str, pos: usize) -> (r: usize)
    requires
        is_char_boundary(s.spec_bytes(), pos as int),
    ensures
        r == grapheme_left(s.spec_bytes(), pos as int),
        is_char_boundary(s.spec_bytes(), r as int),
        r <= pos,
        0 < pos ==> r < pos,
        pos == 0 ==> r == 0,
{
    let ghost b = s.spec_bytes();
    proof {
        lemma_boundary_in_range(b, pos as int);
    }
    let head = sub_str(s, 0, pos);
    let g = grapheme_offsets(head);
    if g.len() > 0 {
        let last = g[g.len() - 1];
        proof {
            lemma_sub_boundary(b, 0, pos as int, last as int);
        }
        last
    } else {
        0
    }
}

/// The number of grapheme clusters in `s[lo..hi]`.
pub fn grapheme_count_of(s: &str, lo: usize, hi: usize) -> (r: usize)
    requires
        char_range(s.spec_bytes(), lo as int, hi as int),
    ensures
        r == grapheme_count(s.spec_bytes(), lo as int, hi as int),
{
    let part = sub_str(s, lo, hi);
    let g = grapheme_offsets(part);
    g.len()
}

/// The end of the first word after `pos` in `s`, or the end of `s`.
pub fn word_right_of(s: &str, pos: usize) -> (r: usize)
    requires
        is_char_boundary(s.spec_bytes(), pos as int),
    ensures
        r == word_right(s.spec_bytes(), pos as int),
        is_char_boundary(s.spec_bytes(), r as int),
        pos <= r <= s.spec_bytes().len(),
{
    let ghost b = s.spec_bytes();
    let len = s.as_bytes().len();
    proof {
        lemma_boundary_in_range(b, pos as int);
    }
    let tail = sub_str(s, pos, len);
    let ghost sb = tail.spec_bytes();
    let offs = word_bound_offsets(tail);
    let tail_len = len - pos;
    let mut k: usize = 0;
    while k < offs.len()
        invariant
            sb == b.subrange(pos as int, len as int),
            sb == tail.spec_bytes(),
            valid_utf8(sb),
            b == s.spec_bytes(),
            len == b.len(),
            pos <= len,
            tail_len == len - pos,
            is_char_boundary(b, pos as int),
            cuts(offs@, sb),
            offs@ == word_bound_starts(decode_utf8(sb)),
            k <= offs@.len(),
            first_word_piece(sb, offs@, 0) == first_word_piece(sb, offs@, k as int),
        decreases offs@.len() - k,
    {
        let end = if k + 1 < offs.len() {
            offs[k + 1]
        } else {
            tail_len
        };
        proof {
            lemma_piece(offs@, sb, k as int);
        }
        let piece = sub_str(tail, offs[k], end);
        if any_alphanumeric(piece) {
            proof {
                assert(first_word_piece(sb, offs@, k as int) == k);
                lemma_sub_boundary(b, pos as int, len as int, end as int);
            }
            return pos + end;
        }
        k = k + 1;
    }
    proof {
        is_char_boundary_start_end_of_seq(b);
    }
    len
}

/// The start of the last word before `pos` in `s`, or 0.
pub fn word_left_of(s: &str, pos: usize) -> (r: usize)
    requires
        is_char_boundary(s.spec_bytes(), pos as int),
    ensures
        r == word_left(s.spec_bytes(), pos as int),
        is_char_boundary(s.spec_bytes(), r as int),
        r <= pos,
{
    let ghost b = s.spec_bytes();
    proof {
        lemma_boundary_in_range(b, pos as int);
    }
    let head = sub_str(s, 0, pos);
    let ghost sb = head.spec_bytes();
    let offs = word_bound_offsets(head);
    let mut k: usize = offs.len();
    while k > 0
        invariant
            sb == b.subrange(0, pos as int),
            sb == head.spec_bytes(),
            valid_utf8(sb),
            b == s.spec_bytes(),
            pos <= b.len(),
            is_char_boundary(b, pos as int),
            cuts(offs@, sb),
            offs@ == word_bound_starts(decode_utf8(sb)),
            k <= offs@.len(),
            last_word_piece(sb, offs@, offs@.len() as int) == last_word_piece(sb, offs@, k as int),
        decreases k,
    {
        let end = if k < offs.len() {
            offs[k]
        } else {
            pos
        };
        proof {
            lemma_piece(offs@, sb, k - 1);
        }
        let piece = sub_str(head, offs[k - 1], end);
        if any_alphanumeric(piece) {
            proof {
                assert(last_word_piece(sb, offs@, k as int) == k - 1);
                lemma_sub_boundary(b, 0, pos as int, offs@[k - 1] as int);
            }
            return offs[k - 1];
        }
        k = k - 1;
    }
    proof {
        is_char_boundary_start_end_of_seq(b);
    }
    0
}

} // verus!
