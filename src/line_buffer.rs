//! The buffer: the text being edited and the cursor in it.
use crate::boundaries::{
    grapheme_count_of, grapheme_left, grapheme_left_of, grapheme_right, grapheme_right_of,
    word_left, word_left_of, word_right, word_right_of,
};
use crate::edits::{
    after_capitalize_char, after_delete_left_grapheme, after_delete_right_grapheme,
    after_insert_char, after_lowercase_word, after_swap_graphemes, after_swap_words,
    after_uppercase_word, count_words, find_left, find_right, line_down_cursor, line_end,
    line_range_end, line_start, line_up_cursor, opt_int, white_space_at, word_range,
};
use crate::text::{
    char_range, char_width, count_newlines, count_newlines_in, find_char_in, lemma_ascii_boundary,
    lemma_boundary_in_range, lemma_found, lemma_splice, lemma_sub_boundary, lemma_sub_valid,
    line_start_in, next_newline, next_newline_in, prev_newline, rfind_char_in, splice, spliced,
    sub_str, utf8_width, CARRIAGE_RETURN, LINE_FEED,
};
use crate::unicode::{
    char_string, grapheme_offsets, grapheme_starts, is_white_space, to_lower, to_upper,
    white_space,
};
use std::ops::Range;
use vstd::prelude::*;
use vstd::std_specs::iter::IteratorSpec;
use vstd::string::*;
use vstd::utf8::*;

verus! {

broadcast use {
    vstd::utf8::encode_utf8_decode_utf8,
    vstd::utf8::encode_utf8_valid_utf8,
    vstd::utf8::is_char_boundary_start_end_of_seq,
};

/// The text of one edit session, possibly of several lines, and a cursor
/// given as a byte offset into it.
#[derive(Debug, PartialEq, Eq, Clone, Default)]
pub struct LineBuffer {
    lines: String,
    insertion_point: usize,
}

/// One past a line feed or a carriage return starts a character.
proof fn lemma_after_ascii(b: Seq<u8>, p: int)
    requires
        valid_utf8(b),
        0 <= p < b.len(),
        b[p] < 0x80,
    ensures
        is_char_boundary(b, p + 1),
{
    let len = b.len() as int;
    lemma_ascii_boundary(b, p);
    lemma_sub_valid(b, p, len);
    let s = b.subrange(p, len);
    reveal_with_fuel(is_char_boundary, 2);
    assert(length_of_first_scalar(s) == 1);
    assert(is_char_boundary(s, 1));
    lemma_sub_boundary(b, p, len, 1);
}

/// Line feeds start characters, as does the byte after one.
proof fn lemma_newline_bounds(b: Seq<u8>, pos: int)
    requires
        valid_utf8(b),
        0 <= pos <= b.len(),
    ensures
        pos <= next_newline(b, pos) <= b.len(),
        is_char_boundary(b, next_newline(b, pos)),
        next_newline(b, pos) < b.len() ==> b[next_newline(b, pos)] == LINE_FEED,
        next_newline(b, pos) < b.len() ==> is_char_boundary(b, next_newline(b, pos) + 1),
        -1 <= prev_newline(b, pos) < pos,
        prev_newline(b, pos) >= 0 ==> b[prev_newline(b, pos)] == LINE_FEED,
        is_char_boundary(b, prev_newline(b, pos) + 1),
        is_char_boundary(b, line_end(b, pos)),
        line_end(b, pos) <= b.len(),
        line_end(b, pos) >= pos - 1,
        is_char_boundary(b, line_range_end(b, pos)),
        pos <= line_range_end(b, pos) <= b.len(),
    decreases b.len() - pos,
{
    lemma_next_newline(b, pos);
    lemma_prev_newline(b, pos);
    let n = next_newline(b, pos);
    if n < b.len() {
        lemma_ascii_boundary(b, n);
        lemma_after_ascii(b, n);
        if n > 0 && b[n - 1] == CARRIAGE_RETURN {
            lemma_ascii_boundary(b, n - 1);
        }
    }
    let p = prev_newline(b, pos);
    if p >= 0 {
        lemma_after_ascii(b, p);
    }
}

proof fn lemma_next_newline(b: Seq<u8>, pos: int)
    requires
        0 <= pos <= b.len(),
    ensures
        pos <= next_newline(b, pos) <= b.len(),
        next_newline(b, pos) < b.len() ==> b[next_newline(b, pos)] == LINE_FEED,
        forall|i: int| pos <= i < next_newline(b, pos) ==> b[i] != LINE_FEED,
    decreases b.len() - pos,
{
    if pos < b.len() && b[pos] != LINE_FEED {
        lemma_next_newline(b, pos + 1);
    }
}

proof fn lemma_prev_newline(b: Seq<u8>, pos: int)
    requires
        0 <= pos <= b.len(),
    ensures
        -1 <= prev_newline(b, pos) < pos,
        prev_newline(b, pos) >= 0 ==> b[prev_newline(b, pos)] == LINE_FEED,
        forall|i: int| prev_newline(b, pos) < i < pos ==> b[i] != LINE_FEED,
    decreases pos,
{
    if pos > 0 && b[pos - 1] != LINE_FEED {
        lemma_prev_newline(b, pos - 1);
    }
}

impl LineBuffer {
    /// The characters of the content.
    pub closed spec fn text(&self) -> Seq<char> {
        self.lines@
    }

    /// The bytes of the content, its UTF-8 encoding.
    pub open spec fn bytes(&self) -> Seq<u8> {
        encode_utf8(self.text())
    }

    /// The cursor, a byte offset into the content.
    pub closed spec fn cursor(&self) -> int {
        self.insertion_point as int
    }

    /// Content and cursor together.
    pub open spec fn state(&self) -> (Seq<u8>, int) {
        (self.bytes(), self.cursor())
    }

    /// The cursor lies on a character boundary of the content (so at most at
    /// its end).
    pub open spec fn wf(&self) -> bool {
        is_char_boundary(self.bytes(), self.cursor())
    }

    fn content(&self) -> (r: &str)
        ensures
            r@ == self.text(),
            r.spec_bytes() == self.bytes(),
    {
        self.lines.as_str()
    }

    fn byte_len(&self) -> (r: usize)
        ensures
            r == self.bytes().len(),
    {
        self.lines.as_str().as_bytes().len()
    }

    /// An empty buffer with the cursor at 0.
    pub fn new() -> (r: LineBuffer)
        ensures
            r.text().len() == 0,
            r.cursor() == 0,
            r.wf(),
    {
        LineBuffer { lines: String::new(), insertion_point: 0 }
    }

    /// A buffer holding `input`, with the cursor at its end.
    pub fn from_text(input: &str) -> (r: LineBuffer)
        ensures
            r.text() == input@,
            r.cursor() == r.bytes().len(),
            r.wf(),
    {
        let mut line_buffer = LineBuffer::new();
        line_buffer.insert_str(input);
        proof {
            assert(line_buffer.bytes() =~= input.spec_bytes());
            assert(decode_utf8(line_buffer.bytes()) == line_buffer.text());
            assert(decode_utf8(input.spec_bytes()) == input@);
        }
        line_buffer
    }

    /// Replaces the bytes `range` of the content with `text`; the cursor stays.
    pub fn replace(&mut self, range: Range<usize>, text: &str)
        requires
            char_range(old(self).bytes(), range.start as int, range.end as int),
            is_char_boundary(
                splice(old(self).bytes(), range.start as int, range.end as int, text.spec_bytes()),
                old(self).cursor(),
            ),
        ensures
            final(self).bytes() == splice(
                old(self).bytes(),
                range.start as int,
                range.end as int,
                text.spec_bytes(),
            ),
            final(self).cursor() == old(self).cursor(),
            final(self).wf(),
    {
        self.replace_range(range.start, range.end, text);
    }

    /// Whether the content is empty.
    pub fn is_empty(&self) -> (r: bool)
        ensures
            r == (self.text().len() == 0),
    {
        self.lines.as_str().is_empty()
    }

    /// Whether the cursor sits where a grapheme cluster starts, or at the end.
    /// (The content is UTF-8 and the cursor on a character boundary by
    /// construction.)
    pub fn is_valid(&self) -> (r: bool)
        requires
            self.wf(),
        ensures
            r == (grapheme_starts(self.text()).contains(self.cursor() as usize) || self.cursor()
                == self.bytes().len()),
    {
        let g = grapheme_offsets(self.content());
        let mut k: usize = 0;
        while k < g.len()
            invariant
                g@ == grapheme_starts(self.text()),
                k <= g@.len(),
                forall|i: int| 0 <= i < k ==> g@[i] != self.insertion_point,
            decreases g@.len() - k,
        {
            if g[k] == self.insertion_point {
                assert(g@[k as int] == self.cursor() as usize);
                return true;
            }
            k = k + 1;
        }
        self.insertion_point == self.byte_len()
    }

    /// The cursor.
    pub fn insertion_point(&self) -> (r: usize)
        ensures
            r == self.cursor(),
    {
        self.insertion_point
    }

    /// Puts the cursor at `offset`, which the caller takes from one of the
    /// buffer's own boundary queries.
    pub fn set_insertion_point(&mut self, offset: usize)
        requires
            is_char_boundary(old(self).bytes(), offset as int),
        ensures
            final(self).text() == old(self).text(),
            final(self).cursor() == offset,
            final(self).wf(),
    {
        self.insertion_point = offset;
    }

    /// The content.
    pub fn get_buffer(&self) -> (r: &str)
        ensures
            r@ == self.text(),
    {
        self.lines.as_str()
    }

    /// Replaces the content with `buffer` and puts the cursor at its end.
    pub fn set_buffer(&mut self, buffer: String)
        ensures
            final(self).text() == buffer@,
            final(self).cursor() == final(self).bytes().len(),
            final(self).wf(),
    {
        self.lines = buffer;
        self.insertion_point = self.byte_len();
    }

    /// The zero-based line of the cursor: the line feeds before it.
    pub fn line(&self) -> (r: usize)
        requires
            self.wf(),
        ensures
            r == count_newlines(self.bytes().subrange(0, self.cursor())),
    {
        proof {
            lemma_boundary_in_range(self.bytes(), self.cursor());
        }
        count_newlines_in(self.content().as_bytes(), self.insertion_point)
    }

    /// The number of lines: one more than the line feeds in the content.
    pub fn num_lines(&self) -> (r: usize)
        requires
            self.bytes().len() < usize::MAX,
        ensures
            r == count_newlines(self.bytes()) + 1,
    {
        let b = self.content().as_bytes();
        let n = count_newlines_in(b, b.len());
        proof {
            assert(self.bytes().subrange(0, self.bytes().len() as int) =~= self.bytes());
        }
        n + 1
    }

    /// Whether the content ends with `c`.
    pub fn ends_with(&self, c: char) -> (r: bool)
        ensures
            r == (self.text().len() > 0 && self.text().last() == c),
    {
        let s = self.content();
        let n = s.unicode_len();
        n > 0 && s.get_char(n - 1) == c
    }

    /// Puts the cursor at the start of the content.
    pub fn move_to_start(&mut self)
        ensures
            final(self).text() == old(self).text(),
            final(self).cursor() == 0,
            final(self).wf(),
    {
        self.insertion_point = 0;
    }

    /// Puts the cursor at the start of its line.
    pub fn move_to_line_start(&mut self)
        requires
            old(self).wf(),
        ensures
            final(self).text() == old(self).text(),
            final(self).cursor() == line_start(old(self).bytes(), old(self).cursor()),
            final(self).wf(),
    {
        proof {
            lemma_boundary_in_range(self.bytes(), self.cursor());
            lemma_newline_bounds(self.bytes(), self.cursor());
        }
        self.insertion_point = line_start_in(self.content().as_bytes(), self.insertion_point);
    }

    /// Puts the cursor at the end of its line, on its terminator if any.
    pub fn move_to_line_end(&mut self)
        requires
            old(self).wf(),
        ensures
            final(self).text() == old(self).text(),
            final(self).cursor() == line_end(old(self).bytes(), old(self).cursor()),
            final(self).wf(),
    {
        self.insertion_point = self.find_current_line_end();
    }

    /// Puts the cursor at the end of the content.
    pub fn move_to_end(&mut self)
        ensures
            final(self).text() == old(self).text(),
            final(self).cursor() == old(self).bytes().len(),
            final(self).wf(),
    {
        self.insertion_point = self.byte_len();
    }

    /// The length of the content in bytes.
    pub fn len(&self) -> (r: usize)
        ensures
            r == self.bytes().len(),
    {
        self.byte_len()
    }

    /// Where the line of the cursor ends: the next line feed, or the carriage
    /// return right before it, or the end of the content.
    pub fn find_current_line_end(&self) -> (r: usize)
        requires
            self.wf(),
        ensures
            r == line_end(self.bytes(), self.cursor()),
            is_char_boundary(self.bytes(), r as int),
    {
        let b = self.content().as_bytes();
        proof {
            lemma_boundary_in_range(self.bytes(), self.cursor());
            lemma_newline_bounds(self.bytes(), self.cursor());
        }
        let n = next_newline_in(b, self.insertion_point);
        if n >= b.len() {
            b.len()
        } else if n > 0 && b[n - 1] == CARRIAGE_RETURN {
            n - 1
        } else {
            n
        }
    }

    /// The end of the grapheme cluster right of the cursor.
    pub fn grapheme_right_index(&self) -> (r: usize)
        requires
            self.wf(),
        ensures
            r == grapheme_right(self.bytes(), self.cursor()),
            is_char_boundary(self.bytes(), r as int),
            self.cursor() <= r,
            self.cursor() < self.bytes().len() ==> self.cursor() < r,
    {
        grapheme_right_of(self.content(), self.insertion_point)
    }

    /// The start of the grapheme cluster left of the cursor.
    pub fn grapheme_left_index(&self) -> (r: usize)
        requires
            self.wf(),
        ensures
            r == grapheme_left(self.bytes(), self.cursor()),
            is_char_boundary(self.bytes(), r as int),
            r <= self.cursor(),
            0 < self.cursor() ==> r < self.cursor(),
    {
        grapheme_left_of(self.content(), self.insertion_point)
    }

    /// The end of the next word right of the cursor.
    pub fn word_right_index(&self) -> (r: usize)
        requires
            self.wf(),
        ensures
            r == word_right(self.bytes(), self.cursor()),
            is_char_boundary(self.bytes(), r as int),
            self.cursor() <= r,
    {
        word_right_of(self.content(), self.insertion_point)
    }

    /// The start of the next word left of the cursor.
    pub fn word_left_index(&self) -> (r: usize)
        requires
            self.wf(),
        ensures
            r == word_left(self.bytes(), self.cursor()),
            is_char_boundary(self.bytes(), r as int),
            r <= self.cursor(),
    {
        word_left_of(self.content(), self.insertion_point)
    }

    /// Moves the cursor one grapheme cluster right.
    pub fn move_right(&mut self)
        requires
            old(self).wf(),
        ensures
            final(self).text() == old(self).text(),
            final(self).cursor() == grapheme_right(old(self).bytes(), old(self).cursor()),
            final(self).wf(),
    {
        self.insertion_point = self.grapheme_right_index();
    }

    /// Moves the cursor one grapheme cluster left.
    pub fn move_left(&mut self)
        requires
            old(self).wf(),
        ensures
            final(self).text() == old(self).text(),
            final(self).cursor() == grapheme_left(old(self).bytes(), old(self).cursor()),
            final(self).wf(),
    {
        self.insertion_point = self.grapheme_left_index();
    }

    /// Moves the cursor to the start of the previous word.
    pub fn move_word_left(&mut self)
        requires
            old(self).wf(),
        ensures
            final(self).text() == old(self).text(),
            final(self).cursor() == word_left(old(self).bytes(), old(self).cursor()),
            final(self).wf(),
    {
        self.insertion_point = self.word_left_index();
    }

    /// Moves the cursor to the end of the next word.
    pub fn move_word_right(&mut self)
        requires
            old(self).wf(),
        ensures
            final(self).text() == old(self).text(),
            final(self).cursor() == word_right(old(self).bytes(), old(self).cursor()),
            final(self).wf(),
    {
        self.insertion_point = self.word_right_index();
    }

    /// Replaces the bytes `start..end` of the content with `text`; the cursor
    /// stays where it was, so the caller sets it afterwards.
    pub(crate) fn replace_range(&mut self, start: usize, end: usize, text: &str)
        requires
            char_range(old(self).bytes(), start as int, end as int),
        ensures
            final(self).bytes() == splice(
                old(self).bytes(),
                start as int,
                end as int,
                text.spec_bytes(),
            ),
            final(self).cursor() == old(self).cursor(),
    {
        self.lines = spliced(self.content(), start, end, text);
    }

    /// Deletes the bytes `start..end` of the content; the cursor stays where
    /// it was, so the caller sets it afterwards.
    pub(crate) fn clear_range(&mut self, start: usize, end: usize)
        requires
            char_range(old(self).bytes(), start as int, end as int),
        ensures
            final(self).bytes() == splice(old(self).bytes(), start as int, end as int, seq![]),
            final(self).cursor() == old(self).cursor(),
    {
        proof {
            reveal_strlit("");
        }
        self.replace_range(start, end, "");
        proof {
            assert(encode_utf8(""@) =~= Seq::<u8>::empty());
        }
    }

    /// Inserts `c` at the cursor and moves the cursor one grapheme cluster right.
    pub fn insert_char(&mut self, c: char)
        requires
            old(self).wf(),
        ensures
            final(self).state() == after_insert_char(old(self).state(), c),
            final(self).wf(),
    {
        let s = char_string(c);
        let ins = s.as_str();
        let pos = self.insertion_point;
        proof {
            lemma_splice(self.bytes(), pos as int, pos as int, ins.spec_bytes());
        }
        self.replace_range(pos, pos, ins);
        self.move_right();
    }

    /// Inserts `string` at the cursor and moves the cursor past it. Whether
    /// the cursor then starts a grapheme cluster is up to the caller.
    pub fn insert_str(&mut self, string: &str)
        requires
            old(self).wf(),
        ensures
            final(self).bytes() == splice(
                old(self).bytes(),
                old(self).cursor(),
                old(self).cursor(),
                string.spec_bytes(),
            ),
            final(self).cursor() == old(self).cursor() + string.spec_bytes().len(),
            final(self).wf(),
    {
        let pos = self.insertion_point;
        let added = string.as_bytes().len();
        proof {
            lemma_splice(self.bytes(), pos as int, pos as int, string.spec_bytes());
        }
        self.replace_range(pos, pos, string);
        let total = self.byte_len();
        assert(pos + added <= total);
        self.insertion_point = pos + added;
    }

    /// Empties the content and puts the cursor at 0.
    pub fn clear(&mut self)
        ensures
            final(self).text().len() == 0,
            final(self).cursor() == 0,
            final(self).wf(),
    {
        self.lines = String::new();
        self.insertion_point = 0;
    }

    /// Deletes everything from the cursor to the end; the cursor stays.
    pub fn clear_to_end(&mut self)
        requires
            old(self).wf(),
        ensures
            final(self).bytes() == old(self).bytes().subrange(0, old(self).cursor()),
            final(self).cursor() == old(self).cursor(),
            final(self).wf(),
    {
        let pos = self.insertion_point;
        let len = self.byte_len();
        proof {
            lemma_boundary_in_range(self.bytes(), pos as int);
            lemma_splice(self.bytes(), pos as int, len as int, seq![]);
        }
        self.clear_range(pos, len);
        proof {
            assert(self.bytes() =~= old(self).bytes().subrange(0, pos as int));
        }
    }

    /// Deletes from the cursor to the end of its line, its terminator kept;
    /// the cursor stays.
    pub fn clear_to_line_end(&mut self)
        requires
            old(self).wf(),
        ensures
            final(self).bytes() == if line_end(old(self).bytes(), old(self).cursor()) > old(
                self,
            ).cursor() {
                splice(
                    old(self).bytes(),
                    old(self).cursor(),
                    line_end(old(self).bytes(), old(self).cursor()),
                    seq![],
                )
            } else {
                old(self).bytes()
            },
            final(self).cursor() == old(self).cursor(),
            final(self).wf(),
    {
        let pos = self.insertion_point;
        let end = self.find_current_line_end();
        if end > pos {
            proof {
                lemma_splice(self.bytes(), pos as int, end as int, seq![]);
            }
            self.clear_range(pos, end);
        }
    }

    /// Deletes everything before the cursor and puts the cursor at 0.
    pub fn clear_to_insertion_point(&mut self)
        requires
            old(self).wf(),
        ensures
            final(self).bytes() == old(self).bytes().subrange(
                old(self).cursor(),
                old(self).bytes().len() as int,
            ),
            final(self).cursor() == 0,
            final(self).wf(),
    {
        let pos = self.insertion_point;
        proof {
            lemma_boundary_in_range(self.bytes(), pos as int);
        }
        self.clear_range(0, pos);
        self.insertion_point = 0;
        proof {
            assert(self.bytes() =~= old(self).bytes().subrange(
                pos as int,
                old(self).bytes().len() as int,
            ));
        }
    }

    /// Deletes the grapheme cluster left of the cursor and moves the cursor to
    /// where it started; at the start of the content nothing changes.
    pub fn delete_left_grapheme(&mut self)
        requires
            old(self).wf(),
        ensures
            final(self).state() == after_delete_left_grapheme(old(self).state()),
            old(self).cursor() == 0 ==> final(self).state() == old(self).state(),
            final(self).wf(),
    {
        let left = self.grapheme_left_index();
        let pos = self.insertion_point;
        if left < pos {
            proof {
                lemma_splice(self.bytes(), left as int, pos as int, seq![]);
            }
            self.clear_range(left, pos);
            self.insertion_point = left;
        }
    }

    /// Deletes the grapheme cluster right of the cursor; the cursor stays. At
    /// the end of the content nothing changes.
    pub fn delete_right_grapheme(&mut self)
        requires
            old(self).wf(),
        ensures
            final(self).state() == after_delete_right_grapheme(old(self).state()),
            old(self).cursor() == old(self).bytes().len() ==> final(self).state() == old(
                self,
            ).state(),
            final(self).wf(),
    {
        let right = self.grapheme_right_index();
        let pos = self.insertion_point;
        proof {
            lemma_boundary_in_range(self.bytes(), pos as int);
        }
        if right > pos {
            proof {
                lemma_splice(self.bytes(), pos as int, right as int, seq![]);
            }
            self.clear_range(pos, right);
        }
    }

    /// Deletes back to the start of the previous word and moves the cursor there.
    pub fn delete_word_left(&mut self)
        requires
            old(self).wf(),
        ensures
            final(self).bytes() == splice(
                old(self).bytes(),
                word_left(old(self).bytes(), old(self).cursor()),
                old(self).cursor(),
                seq![],
            ),
            final(self).cursor() == word_left(old(self).bytes(), old(self).cursor()),
            final(self).wf(),
    {
        let left = word_left_of(self.content(), self.insertion_point);
        let pos = self.insertion_point;
        proof {
            lemma_splice(self.bytes(), left as int, pos as int, seq![]);
        }
        self.clear_range(left, pos);
        self.insertion_point = left;
    }

    /// Deletes up to the end of the next word; the cursor stays.
    pub fn delete_word_right(&mut self)
        requires
            old(self).wf(),
        ensures
            final(self).bytes() == splice(
                old(self).bytes(),
                old(self).cursor(),
                word_right(old(self).bytes(), old(self).cursor()),
                seq![],
            ),
            final(self).cursor() == old(self).cursor(),
            final(self).wf(),
    {
        let right = word_right_of(self.content(), self.insertion_point);
        let pos = self.insertion_point;
        proof {
            lemma_splice(self.bytes(), pos as int, right as int, seq![]);
        }
        self.clear_range(pos, right);
    }

    /// Whether the character right of the cursor is white space.
    pub fn on_whitespace(&self) -> (r: bool)
        requires
            self.wf(),
        ensures
            r == white_space_at(self.bytes(), self.cursor()),
    {
        proof {
            lemma_boundary_in_range(self.bytes(), self.cursor());
        }
        let tail = sub_str(self.content(), self.insertion_point, self.byte_len());
        let mut it = tail.chars();
        match it.next() {
            Some(c) => is_white_space(c),
            None => false,
        }
    }

    /// The word the cursor is on or next to: from the start of the last word
    /// before the end of the next word, to that end.
    pub fn current_word_range(&self) -> (r: Range<usize>)
        requires
            self.wf(),
        ensures
            (r.start as int, r.end as int) == word_range(self.bytes(), self.cursor()),
            char_range(self.bytes(), r.start as int, r.end as int),
    {
        let right = self.word_right_index();
        let left = word_left_of(self.content(), right);
        Range { start: left, end: right }
    }

    /// The line of the cursor: from one past the previous line feed to one
    /// past the next one (or the ends of the content).
    pub fn current_line_range(&self) -> (r: Range<usize>)
        requires
            self.wf(),
        ensures
            r.start == line_start(self.bytes(), self.cursor()),
            r.end == line_range_end(self.bytes(), self.cursor()),
            char_range(self.bytes(), r.start as int, r.end as int),
            r.start <= self.cursor() <= r.end,
    {
        let b = self.content().as_bytes();
        proof {
            lemma_boundary_in_range(self.bytes(), self.cursor());
            lemma_newline_bounds(self.bytes(), self.cursor());
        }
        let start = line_start_in(b, self.insertion_point);
        let n = next_newline_in(b, self.insertion_point);
        let end = if n >= b.len() {
            b.len()
        } else {
            n + 1
        };
        Range { start, end }
    }

    /// Whether no line feed comes before the cursor.
    pub fn is_cursor_at_first_line(&self) -> (r: bool)
        requires
            self.wf(),
        ensures
            r == (prev_newline(self.bytes(), self.cursor()) < 0),
    {
        proof {
            lemma_boundary_in_range(self.bytes(), self.cursor());
        }
        line_start_in(self.content().as_bytes(), self.insertion_point) == 0
    }

    /// Whether no line feed comes after the cursor.
    pub fn is_cursor_at_last_line(&self) -> (r: bool)
        requires
            self.wf(),
        ensures
            r == (next_newline(self.bytes(), self.cursor()) >= self.bytes().len()),
    {
        proof {
            lemma_boundary_in_range(self.bytes(), self.cursor());
        }
        let b = self.content().as_bytes();
        next_newline_in(b, self.insertion_point) >= b.len()
    }

    /// Moves the cursor to the same grapheme column of the line above, or to
    /// the last cluster of that line where it is shorter. On the first line
    /// nothing changes.
    pub fn move_line_up(&mut self)
        requires
            old(self).wf(),
        ensures
            final(self).text() == old(self).text(),
            final(self).cursor() == line_up_cursor(old(self).bytes(), old(self).cursor()),
            final(self).wf(),
    {
        if !self.is_cursor_at_first_line() {
            let old_range = self.current_line_range();
            let col = grapheme_count_of(self.content(), old_range.start, self.insertion_point);
            self.insertion_point = old_range.start;
            self.move_left();
            let new_range = self.current_line_range();
            let line = sub_str(self.content(), new_range.start, new_range.end);
            let g = grapheme_offsets(line);
            let ghost b = self.bytes();
            if g.len() == 0 {
                self.insertion_point = new_range.start;
            } else {
                let k = if col < g.len() {
                    col
                } else {
                    g.len() - 1
                };
                proof {
                    lemma_sub_boundary(
                        b,
                        new_range.start as int,
                        new_range.end as int,
                        g@[k as int] as int,
                    );
                }
                self.insertion_point = new_range.start + g[k];
            }
        }
    }

    /// Moves the cursor to the same grapheme column of the line below, or to
    /// the end of that line where it is shorter. On the last line nothing
    /// changes.
    pub fn move_line_down(&mut self)
        requires
            old(self).wf(),
        ensures
            final(self).text() == old(self).text(),
            final(self).cursor() == line_down_cursor(old(self).bytes(), old(self).cursor()),
            final(self).wf(),
    {
        if !self.is_cursor_at_last_line() {
            let old_range = self.current_line_range();
            let col = grapheme_count_of(self.content(), old_range.start, self.insertion_point);
            self.insertion_point = old_range.end;
            let new_range = self.current_line_range();
            let line = sub_str(self.content(), new_range.start, new_range.end);
            let g = grapheme_offsets(line);
            let ghost b = self.bytes();
            if col < g.len() {
                proof {
                    lemma_sub_boundary(
                        b,
                        new_range.start as int,
                        new_range.end as int,
                        g@[col as int] as int,
                    );
                }
                self.insertion_point = new_range.start + g[col];
            } else {
                self.insertion_point = self.find_current_line_end();
            }
        }
    }

    /// Offset of the first `c` after the grapheme cluster at the cursor, up
    /// to the end of the line when `current_line`, else of the content.
    pub fn find_char_right(&self, c: char, current_line: bool) -> (r: Option<usize>)
        requires
            self.wf(),
        ensures
            opt_int(r) == find_right(self.bytes(), self.cursor(), c, current_line),
            r is Some ==> self.cursor() <= r->0 && char_range(
                self.bytes(),
                r->0 as int,
                r->0 + utf8_width(c),
            ),
    {
        let lo = self.grapheme_right_index();
        let hi = if current_line {
            self.current_line_range().end
        } else {
            self.byte_len()
        };
        if lo <= hi {
            let window = sub_str(self.content(), lo, hi);
            proof {
                lemma_found(window@, c);
            }
            match find_char_in(window, c) {
                Some(i) => {
                    proof {
                        lemma_sub_boundary(self.bytes(), lo as int, hi as int, i as int);
                        lemma_sub_boundary(
                            self.bytes(),
                            lo as int,
                            hi as int,
                            i + utf8_width(c),
                        );
                    }
                    Some(lo + i)
                },
                None => None,
            }
        } else {
            None
        }
    }

    /// Offset of the last `c` before the cursor, from the start of the line
    /// when `current_line`, else of the content.
    pub fn find_char_left(&self, c: char, current_line: bool) -> (r: Option<usize>)
        requires
            self.wf(),
        ensures
            opt_int(r) == find_left(self.bytes(), self.cursor(), c, current_line),
            r is Some ==> r->0 + utf8_width(c) <= self.cursor() && char_range(
                self.bytes(),
                r->0 as int,
                r->0 + utf8_width(c),
            ),
    {
        let lo = if current_line {
            self.current_line_range().start
        } else {
            0
        };
        proof {
            lemma_boundary_in_range(self.bytes(), self.cursor());
        }
        let window = sub_str(self.content(), lo, self.insertion_point);
        proof {
            lemma_found(window@, c);
        }
        match rfind_char_in(window, c) {
            Some(i) => {
                proof {
                    lemma_sub_boundary(self.bytes(), lo as int, self.cursor(), i as int);
                    lemma_sub_boundary(self.bytes(), lo as int, self.cursor(), i + utf8_width(c));
                }
                Some(lo + i)
            },
            None => None,
        }
    }

    /// Moves the cursor onto the next `c` to the right, if any; returns the cursor.
    pub fn move_right_until(&mut self, c: char, current_line: bool) -> (r: usize)
        requires
            old(self).wf(),
        ensures
            final(self).text() == old(self).text(),
            final(self).cursor() == match find_right(
                old(self).bytes(),
                old(self).cursor(),
                c,
                current_line,
            ) {
                Some(i) => i,
                None => old(self).cursor(),
            },
            r == final(self).cursor(),
            final(self).wf(),
    {
        if let Some(index) = self.find_char_right(c, current_line) {
            self.insertion_point = index;
        }
        self.insertion_point
    }

    /// Moves the cursor to the grapheme cluster before the next `c` to the
    /// right, if any; returns the cursor.
    pub fn move_right_before(&mut self, c: char, current_line: bool) -> (r: usize)
        requires
            old(self).wf(),
        ensures
            final(self).text() == old(self).text(),
            final(self).cursor() == match find_right(
                old(self).bytes(),
                old(self).cursor(),
                c,
                current_line,
            ) {
                Some(i) => grapheme_left(old(self).bytes(), i),
                None => old(self).cursor(),
            },
            r == final(self).cursor(),
            final(self).wf(),
    {
        if let Some(index) = self.find_char_right(c, current_line) {
            self.insertion_point = index;
            self.insertion_point = self.grapheme_left_index();
        }
        self.insertion_point
    }

    /// Moves the cursor onto the previous `c` to the left, if any; returns the
    /// cursor.
    pub fn move_left_until(&mut self, c: char, current_line: bool) -> (r: usize)
        requires
            old(self).wf(),
        ensures
            final(self).text() == old(self).text(),
            final(self).cursor() == match find_left(
                old(self).bytes(),
                old(self).cursor(),
                c,
                current_line,
            ) {
                Some(i) => i,
                None => old(self).cursor(),
            },
            r == final(self).cursor(),
            final(self).wf(),
    {
        if let Some(index) = self.find_char_left(c, current_line) {
            self.insertion_point = index;
        }
        self.insertion_point
    }

    /// Moves the cursor just past the previous `c` to the left (by the width
    /// of `c`), if any; returns the cursor.
    pub fn move_left_before(&mut self, c: char, current_line: bool) -> (r: usize)
        requires
            old(self).wf(),
        ensures
            final(self).text() == old(self).text(),
            final(self).cursor() == match find_left(
                old(self).bytes(),
                old(self).cursor(),
                c,
                current_line,
            ) {
                Some(i) => i + utf8_width(c),
                None => old(self).cursor(),
            },
            r == final(self).cursor(),
            final(self).wf(),
    {
        if let Some(index) = self.find_char_left(c, current_line) {
            self.insertion_point = index + char_width(c);
        }
        self.insertion_point
    }

    /// Deletes from the cursor through the next `c` to the right, if any; the
    /// cursor stays.
    pub fn delete_right_until_char(&mut self, c: char, current_line: bool)
        requires
            old(self).wf(),
        ensures
            final(self).bytes() == match find_right(
                old(self).bytes(),
                old(self).cursor(),
                c,
                current_line,
            ) {
                Some(i) => splice(old(self).bytes(), old(self).cursor(), i + utf8_width(c), seq![]),
                None => old(self).bytes(),
            },
            final(self).cursor() == old(self).cursor(),
            final(self).wf(),
    {
        if let Some(index) = self.find_char_right(c, current_line) {
            let len = self.byte_len();
            proof {
                lemma_boundary_in_range(self.bytes(), index + utf8_width(c));
            }
            assert(index + utf8_width(c) <= len);
            let end = index + char_width(c);
            proof {
                lemma_splice(self.bytes(), self.cursor(), end as int, seq![]);
            }
            self.clear_range(self.insertion_point, end);
        }
    }

    /// Deletes from the cursor up to the next `c` to the right, if any; the
    /// cursor stays.
    pub fn delete_right_before_char(&mut self, c: char, current_line: bool)
        requires
            old(self).wf(),
        ensures
            final(self).bytes() == match find_right(
                old(self).bytes(),
                old(self).cursor(),
                c,
                current_line,
            ) {
                Some(i) => splice(old(self).bytes(), old(self).cursor(), i, seq![]),
                None => old(self).bytes(),
            },
            final(self).cursor() == old(self).cursor(),
            final(self).wf(),
    {
        if let Some(index) = self.find_char_right(c, current_line) {
            proof {
                lemma_splice(self.bytes(), self.cursor(), index as int, seq![]);
            }
            self.clear_range(self.insertion_point, index);
        }
    }

    /// Deletes from the previous `c` to the left, included, up to the cursor,
    /// and moves the cursor there.
    pub fn delete_left_until_char(&mut self, c: char, current_line: bool)
        requires
            old(self).wf(),
        ensures
            final(self).state() == match find_left(
                old(self).bytes(),
                old(self).cursor(),
                c,
                current_line,
            ) {
                Some(i) => (splice(old(self).bytes(), i, old(self).cursor(), seq![]), i),
                None => old(self).state(),
            },
            final(self).wf(),
    {
        if let Some(index) = self.find_char_left(c, current_line) {
            proof {
                lemma_splice(self.bytes(), index as int, self.cursor(), seq![]);
            }
            self.clear_range(index, self.insertion_point);
            self.insertion_point = index;
        }
    }

    /// Deletes from just past the previous `c` to the left up to the cursor,
    /// and moves the cursor there.
    pub fn delete_left_before_char(&mut self, c: char, current_line: bool)
        requires
            old(self).wf(),
        ensures
            final(self).state() == match find_left(
                old(self).bytes(),
                old(self).cursor(),
                c,
                current_line,
            ) {
                Some(i) => (
                    splice(old(self).bytes(), i + utf8_width(c), old(self).cursor(), seq![]),
                    i + utf8_width(c),
                ),
                None => old(self).state(),
            },
            final(self).wf(),
    {
        if let Some(index) = self.find_char_left(c, current_line) {
            let start = index + char_width(c);
            proof {
                lemma_splice(self.bytes(), start as int, self.cursor(), seq![]);
            }
            self.clear_range(start, self.insertion_point);
            self.insertion_point = start;
        }
    }

    /// Replaces the current word by its upper case (`upper`) or lower case,
    /// and moves the cursor past the word.
    fn change_word_case(&mut self, upper: bool)
        requires
            old(self).wf(),
        ensures
            upper ==> final(self).state() == after_uppercase_word(old(self).state()),
            !upper ==> final(self).state() == after_lowercase_word(old(self).state()),
            final(self).wf(),
    {
        let range = self.current_word_range();
        let word = sub_str(self.content(), range.start, range.end);
        let mapped = if upper {
            to_upper(word)
        } else {
            to_lower(word)
        };
        let ins = mapped.as_str();
        let pos = self.insertion_point;
        proof {
            lemma_splice(self.bytes(), range.start as int, range.end as int, ins.spec_bytes());
        }
        self.replace_range(range.start, range.end, ins);
        let added = ins.as_bytes().len();
        let total = self.byte_len();
        assert(range.start + added <= total);
        if self.content().is_char_boundary(pos) {
            self.move_word_right();
        } else {
            self.insertion_point = range.start + added;
        }
    }

    /// Upper-cases the current word and moves the cursor past it.
    pub fn uppercase_word(&mut self)
        requires
            old(self).wf(),
        ensures
            final(self).state() == after_uppercase_word(old(self).state()),
            final(self).wf(),
    {
        self.change_word_case(true);
    }

    /// Lower-cases the current word and moves the cursor past it.
    pub fn lowercase_word(&mut self)
        requires
            old(self).wf(),
        ensures
            final(self).state() == after_lowercase_word(old(self).state()),
            final(self).wf(),
    {
        self.change_word_case(false);
    }

    /// The number of runs of characters that are not white space.
    pub fn word_count(&self) -> (r: usize)
        ensures
            r == count_words(self.text(), self.text().len() as int),
    {
        let s = self.content();
        let ghost t = s@;
        let n = s.unicode_len();
        let mut it = s.chars();
        let mut k: usize = 0;
        let mut count: usize = 0;
        let mut prev_space = true;
        while k < n
            invariant
                t == s@,
                n == t.len(),
                k <= n,
                count <= k,
                count == count_words(t, k as int),
                prev_space == (k == 0 || white_space(t[k - 1])),
                it.remaining() == t.skip(k as int),
            decreases n - k,
        {
            let next = it.next();
            let ch = match next {
                Some(ch) => ch,
                None => {
                    proof {
                        assert(false);
                    }
                    ' '
                },
            };
            assert(ch == t[k as int]);
            let space = is_white_space(ch);
            if !space && prev_space {
                count = count + 1;
            }
            prev_space = space;
            proof {
                assert(t.skip(k as int).drop_first() =~= t.skip(k as int + 1));
            }
            k = k + 1;
        }
        count
    }

    /// Upper-cases the grapheme cluster at the cursor and moves past it; on
    /// white space, the first cluster of the next word instead.
    pub fn capitalize_char(&mut self)
        requires
            old(self).wf(),
        ensures
            final(self).state() == after_capitalize_char(old(self).state()),
            final(self).wf(),
    {
        if self.on_whitespace() {
            self.move_word_right();
            self.move_word_left();
        }
        let pos = self.insertion_point;
        let right = self.grapheme_right_index();
        proof {
            lemma_boundary_in_range(self.bytes(), self.cursor());
            lemma_boundary_in_range(self.bytes(), right as int);
        }
        if right > pos {
            let cluster = sub_str(self.content(), pos, right);
            let upper = to_upper(cluster);
            let ins = upper.as_str();
            proof {
                lemma_splice(self.bytes(), pos as int, right as int, ins.spec_bytes());
            }
            self.replace_range(pos, right, ins);
            self.move_right();
        }
    }

    /// Swaps the grapheme clusters on both sides of the cursor and moves the
    /// cursor past them. At the start of the content it first moves one
    /// cluster right, at the end one cluster left.
    #[verifier::rlimit(40)]
    pub fn swap_graphemes(&mut self)
        requires
            old(self).wf(),
        ensures
            final(self).state() == after_swap_graphemes(old(self).state()),
            final(self).wf(),
    {
        let initial = self.insertion_point;
        if initial == 0 {
            self.move_right();
        } else if initial == self.byte_len() {
            self.move_left();
        }
        let updated = self.insertion_point;
        let first_start = self.grapheme_left_index();
        let second_end = self.grapheme_right_index();
        if first_start < updated && second_end > updated {
            let ghost b = self.bytes();
            proof {
                lemma_boundary_in_range(b, second_end as int);
            }
            let first = sub_str(self.content(), first_start, updated).to_owned();
            let second = sub_str(self.content(), updated, second_end).to_owned();
            let first_s = first.as_str();
            let second_s = second.as_str();
            proof {
                lemma_splice(b, updated as int, second_end as int, first_s.spec_bytes());
            }
            self.replace_range(updated, second_end, first_s);
            let ghost b1 = self.bytes();
            proof {
                assert(is_char_boundary(b, first_start as int));
                assert(is_char_boundary(b1, first_start as int));
                lemma_splice(b1, first_start as int, updated as int, second_s.spec_bytes());
                let j = updated + (updated - first_start);
                assert(is_char_boundary(b1, j));
            }
            self.replace_range(first_start, updated, second_s);
            self.insertion_point = second_end;
            proof {
                assert(self.bytes() =~= b.subrange(0, first_start as int) + b.subrange(
                    updated as int,
                    second_end as int,
                ) + b.subrange(first_start as int, updated as int) + b.subrange(
                    second_end as int,
                    b.len() as int,
                ));
            }
        }
    }

    /// Swaps the current word with the next one and moves the cursor to the
    /// start of the current word; with no next word, does nothing.
    pub fn swap_words(&mut self)
        requires
            old(self).wf(),
        ensures
            final(self).state() == after_swap_words(old(self).state()),
            final(self).wf(),
    {
        let initial = self.insertion_point;
        let word_1 = self.current_word_range();
        self.move_word_right();
        let word_2 = self.current_word_range();
        if word_1.start == word_2.start && word_1.end == word_2.end {
            self.insertion_point = initial;
        } else {
            self.move_word_left();
            if word_1.end <= word_2.start {
                let ghost b = self.bytes();
                proof {
                    lemma_boundary_in_range(b, word_2.end as int);
                }
                let text_1 = sub_str(self.content(), word_1.start, word_1.end).to_owned();
                let text_2 = sub_str(self.content(), word_2.start, word_2.end).to_owned();
                let text_1_s = text_1.as_str();
                let text_2_s = text_2.as_str();
                proof {
                    lemma_splice(b, word_2.start as int, word_2.end as int, text_1_s.spec_bytes());
                }
                self.replace_range(word_2.start, word_2.end, text_1_s);
                let ghost b1 = self.bytes();
                proof {
                    assert(is_char_boundary(b, word_1.start as int));
                    assert(is_char_boundary(b, word_1.end as int));
                    assert(is_char_boundary(b1, word_1.start as int));
                    assert(is_char_boundary(b1, word_1.end as int));
                    lemma_splice(b1, word_1.start as int, word_1.end as int, text_2_s.spec_bytes());
                }
                self.replace_range(word_1.start, word_1.end, text_2_s);
                proof {
                    assert(self.bytes() =~= b.subrange(0, word_1.start as int) + b.subrange(
                        word_2.start as int,
                        word_2.end as int,
                    ) + b.subrange(word_1.end as int, word_2.start as int) + b.subrange(
                        word_1.start as int,
                        word_1.end as int,
                    ) + b.subrange(word_2.end as int, b.len() as int));
                }
            }
        }
    }
}

} // verus!
