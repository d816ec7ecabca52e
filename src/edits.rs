//! What each operation of the buffer computes, stated over the bytes of the
//! content and the cursor position.
use crate::boundaries::{grapheme_count, grapheme_left, grapheme_right, word_left, word_right};
use crate::text::{
    find_first, find_last, next_newline, prev_newline, splice, text_between, CARRIAGE_RETURN,
};
use crate::unicode::{grapheme_starts, lower_of, upper_of, white_space};
use vstd::prelude::*;
use vstd::utf8::*;

verus! {

/// Start of the line that holds `pos`: one past the last line feed before it.
pub open spec fn line_start(b: Seq<u8>, pos: int) -> int {
    prev_newline(b, pos) + 1
}

/// End of the line that holds `pos`, with its terminator left out: the next
/// line feed, or the carriage return before it, or the end of the text.
pub open spec fn line_end(b: Seq<u8>, pos: int) -> int {
    let n = next_newline(b, pos);
    if n >= b.len() {
        b.len() as int
    } else if n > 0 && b[n - 1] == CARRIAGE_RETURN {
        n - 1
    } else {
        n
    }
}

/// End of the line that holds `pos`, its terminating line feed included.
pub open spec fn line_range_end(b: Seq<u8>, pos: int) -> int {
    let n = next_newline(b, pos);
    if n >= b.len() {
        b.len() as int
    } else {
        n + 1
    }
}

/// The character right of `pos` is white space.
pub open spec fn white_space_at(b: Seq<u8>, pos: int) -> bool {
    let t = text_between(b, pos, b.len() as int);
    t.len() > 0 && white_space(t[0])
}

/// The word the cursor at `pos` is on or next to, as a start and an end.
pub open spec fn word_range(b: Seq<u8>, pos: int) -> (int, int) {
    let r = word_right(b, pos);
    (word_left(b, r), r)
}

/// Number of maximal runs of non-white-space characters in `t[..k]`.
pub open spec fn count_words(t: Seq<char>, k: int) -> nat
    decreases k,
{
    if k <= 0 {
        0
    } else {
        count_words(t, k - 1) + if !white_space(t[k - 1]) && (k == 1 || white_space(t[k - 2])) {
            1nat
        } else {
            0nat
        }
    }
}

/// Where a search for `c` rightwards of `pos` looks: from the end of the
/// grapheme cluster at `pos` to the end of its line or of the text.
pub open spec fn find_right(b: Seq<u8>, pos: int, c: char, current_line: bool) -> Option<int> {
    let lo = grapheme_right(b, pos);
    let hi = if current_line {
        line_range_end(b, pos)
    } else {
        b.len() as int
    };
    if lo <= hi {
        match find_first(text_between(b, lo, hi), c) {
            Some(i) => Some(lo + i),
            None => None,
        }
    } else {
        None
    }
}

/// The last `c` before `pos`, in its line or in the whole text.
pub open spec fn find_left(b: Seq<u8>, pos: int, c: char, current_line: bool) -> Option<int> {
    let lo = if current_line {
        line_start(b, pos)
    } else {
        0
    };
    match find_last(text_between(b, lo, pos), c) {
        Some(i) => Some(lo + i),
        None => None,
    }
}

/// An optional offset, read as an integer.
pub open spec fn opt_int(r: Option<usize>) -> Option<int> {
    match r {
        Some(i) => Some(i as int),
        None => None,
    }
}

/// Text and cursor after inserting `c` at the cursor and moving one grapheme right.
pub open spec fn after_insert_char(s: (Seq<u8>, int), c: char) -> (Seq<u8>, int) {
    let b = splice(s.0, s.1, s.1, encode_utf8(seq![c]));
    (b, grapheme_right(b, s.1))
}

/// Text and cursor after deleting the grapheme cluster left of the cursor.
pub open spec fn after_delete_left_grapheme(s: (Seq<u8>, int)) -> (Seq<u8>, int) {
    let l = grapheme_left(s.0, s.1);
    if l < s.1 {
        (splice(s.0, l, s.1, seq![]), l)
    } else {
        s
    }
}

/// Text and cursor after deleting the grapheme cluster right of the cursor.
pub open spec fn after_delete_right_grapheme(s: (Seq<u8>, int)) -> (Seq<u8>, int) {
    let r = grapheme_right(s.0, s.1);
    if r > s.1 {
        (splice(s.0, s.1, r, seq![]), s.1)
    } else {
        s
    }
}

/// Where the cursor of a case change lands: one word right of where it was,
/// in the changed text; should the change have left that position inside a
/// character, at `fallback`.
pub open spec fn case_change_cursor(b: Seq<u8>, pos: int, fallback: int) -> int {
    if is_char_boundary(b, pos) {
        word_right(b, pos)
    } else {
        fallback
    }
}

/// Text and cursor after replacing the current word with its image under
/// `mapped` (its upper or lower case) and moving past it.
pub open spec fn after_case_word(s: (Seq<u8>, int), mapped: Seq<char>) -> (Seq<u8>, int) {
    let (lo, hi) = word_range(s.0, s.1);
    let ins = encode_utf8(mapped);
    let b = splice(s.0, lo, hi, ins);
    (b, case_change_cursor(b, s.1, lo + ins.len()))
}

/// The current word of the state, as characters.
pub open spec fn current_word(s: (Seq<u8>, int)) -> Seq<char> {
    let (lo, hi) = word_range(s.0, s.1);
    text_between(s.0, lo, hi)
}

/// Text and cursor after upper-casing the current word.
pub open spec fn after_uppercase_word(s: (Seq<u8>, int)) -> (Seq<u8>, int) {
    after_case_word(s, upper_of(current_word(s)))
}

/// Text and cursor after lower-casing the current word.
pub open spec fn after_lowercase_word(s: (Seq<u8>, int)) -> (Seq<u8>, int) {
    after_case_word(s, lower_of(current_word(s)))
}

/// Text and cursor after upper-casing the grapheme cluster at the cursor (or,
/// on white space, at the start of the next word) and moving past it.
pub open spec fn after_capitalize_char(s: (Seq<u8>, int)) -> (Seq<u8>, int) {
    let b = s.0;
    let p = if white_space_at(b, s.1) {
        word_left(b, word_right(b, s.1))
    } else {
        s.1
    };
    let r = grapheme_right(b, p);
    if r > p {
        let nb = splice(b, p, r, encode_utf8(upper_of(text_between(b, p, r))));
        (nb, grapheme_right(nb, p))
    } else {
        (b, p)
    }
}

/// Text and cursor after swapping the grapheme clusters on both sides of the
/// cursor; at the start of the text the cursor first moves one grapheme right,
/// at its end one grapheme left.
pub open spec fn after_swap_graphemes(s: (Seq<u8>, int)) -> (Seq<u8>, int) {
    let b = s.0;
    let p = if s.1 == 0 {
        grapheme_right(b, s.1)
    } else if s.1 == b.len() {
        grapheme_left(b, s.1)
    } else {
        s.1
    };
    let g1 = grapheme_left(b, p);
    let g2 = grapheme_right(b, p);
    if g1 < p && p < g2 {
        (
            b.subrange(0, g1) + b.subrange(p, g2) + b.subrange(g1, p) + b.subrange(
                g2,
                b.len() as int,
            ),
            g2,
        )
    } else {
        (b, p)
    }
}

/// Text and cursor after swapping the current word with the next one. With
/// no next word nothing changes; otherwise the cursor goes to the start of the
/// current word, and the words trade places when the next one lies wholly
/// after it.
pub open spec fn after_swap_words(s: (Seq<u8>, int)) -> (Seq<u8>, int) {
    let b = s.0;
    let (lo1, hi1) = word_range(b, s.1);
    let (lo2, hi2) = word_range(b, hi1);
    if lo1 == lo2 && hi1 == hi2 {
        s
    } else if hi1 <= lo2 {
        (
            b.subrange(0, lo1) + b.subrange(lo2, hi2) + b.subrange(hi1, lo2) + b.subrange(lo1, hi1)
                + b.subrange(hi2, b.len() as int),
            word_left(b, hi1),
        )
    } else {
        (b, word_left(b, hi1))
    }
}

/// Offset of the `col`-th grapheme cluster of the line `lo..hi`, or of its
/// last one when it has fewer, or `lo` when it has none.
pub open spec fn clamped_column(b: Seq<u8>, lo: int, hi: int, col: int) -> int {
    let g = grapheme_starts(text_between(b, lo, hi));
    if g.len() == 0 {
        lo
    } else if col < g.len() {
        lo + g[col]
    } else {
        lo + g.last()
    }
}

/// Cursor after moving one line up, keeping the grapheme column where the
/// line above is long enough.
pub open spec fn line_up_cursor(b: Seq<u8>, pos: int) -> int {
    if prev_newline(b, pos) < 0 {
        pos
    } else {
        let start = line_start(b, pos);
        let col = grapheme_count(b, start, pos);
        let p = grapheme_left(b, start);
        clamped_column(b, line_start(b, p), line_range_end(b, p), col)
    }
}

/// Cursor after moving one line down, keeping the grapheme column where the
/// line below is long enough, else at the end of that line.
pub open spec fn line_down_cursor(b: Seq<u8>, pos: int) -> int {
    if next_newline(b, pos) >= b.len() {
        pos
    } else {
        let col = grapheme_count(b, line_start(b, pos), pos);
        let q = line_range_end(b, pos);
        let lo = line_start(b, q);
        let g = grapheme_starts(text_between(b, lo, line_range_end(b, q)));
        if col < g.len() {
            lo + g[col]
        } else {
            line_end(b, q)
        }
    }
}

} // verus!
