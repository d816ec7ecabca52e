//! Properties that relate several operations of the buffer.
use crate::boundaries::grapheme_left;
use crate::edits::{after_delete_left_grapheme, after_insert_char};
use crate::line_buffer::LineBuffer;
use crate::text::{lemma_boundary_in_range, lemma_encode_single, utf8_width};
use vstd::prelude::*;
use vstd::utf8::*;

verus! {

broadcast use vstd::utf8::encode_utf8_valid_utf8;

/// After inserting `c` at the cursor of `s`, the cursor lands just past `c`
/// and the grapheme cluster left of it starts where `c` was put: `c` forms a
/// cluster of its own there.
pub open spec fn inserted_alone(s: (Seq<u8>, int), c: char) -> bool {
    let after = after_insert_char(s, c);
    &&& after.1 == s.1 + utf8_width(c)
    &&& grapheme_left(after.0, after.1) == s.1
}

/// Inserting a character that forms a grapheme cluster of its own (an emoji,
/// say) and then deleting the cluster left of the cursor gives back the
/// content and the cursor from before.
pub proof fn insert_char_then_delete_left_grapheme(buf: LineBuffer, c: char)
    requires
        buf.wf(),
        inserted_alone(buf.state(), c),
    ensures
        after_delete_left_grapheme(after_insert_char(buf.state(), c)) == buf.state(),
{
    let b = buf.bytes();
    let p = buf.cursor();
    lemma_boundary_in_range(b, p);
    lemma_encode_single(c);
    let e = encode_utf8(seq![c]);
    let mid = after_insert_char(buf.state(), c);
    assert(e.len() >= 1);
    assert(mid.0.subrange(0, p) + seq![] + mid.0.subrange(p + e.len(), mid.0.len() as int) =~= b);
}

} // verus!
