//! Byte-level model of UTF-8 text: line feeds, splices, and the character
//! boundaries that slicing a `str` relies on.
use vstd::prelude::*;
use vstd::std_specs::iter::IteratorSpec;
use vstd::string::*;
use vstd::utf8::*;

verus! {

broadcast use {
    vstd::utf8::encode_utf8_decode_utf8,
    vstd::utf8::encode_utf8_valid_utf8,
    vstd::utf8::is_char_boundary_iff_not_is_continuation_byte,
    vstd::utf8::is_char_boundary_start_end_of_seq,
};

pub const LINE_FEED: u8 = 10;

pub const CARRIAGE_RETURN: u8 = 13;

/// Index of the first line feed at or after `i`, or `b.len()` when there is none.
pub open spec fn next_newline(b: Seq<u8>, i: int) -> int
    decreases b.len() - i,
{
    if i >= b.len() {
        b.len() as int
    } else if b[i] == LINE_FEED {
        i
    } else {
        next_newline(b, i + 1)
    }
}

/// Index of the last line feed strictly before `i`, or -1 when there is none.
pub open spec fn prev_newline(b: Seq<u8>, i: int) -> int
    decreases i,
{
    if i <= 0 {
        -1
    } else if b[i - 1] == LINE_FEED {
        i - 1
    } else {
        prev_newline(b, i - 1)
    }
}

/// Number of line feeds in `b`.
pub open spec fn count_newlines(b: Seq<u8>) -> nat
    decreases b.len(),
{
    if b.len() == 0 {
        0
    } else {
        count_newlines(b.drop_last()) + if b.last() == LINE_FEED {
            1nat
        } else {
            0nat
        }
    }
}

/// The characters that the bytes `b[lo..hi]` encode.
pub open spec fn text_between(b: Seq<u8>, lo: int, hi: int) -> Seq<char> {
    decode_utf8(b.subrange(lo, hi))
}

/// `b` with the bytes `b[lo..hi]` replaced by `ins`.
pub open spec fn splice(b: Seq<u8>, lo: int, hi: int, ins: Seq<u8>) -> Seq<u8> {
    b.subrange(0, lo) + ins + b.subrange(hi, b.len() as int)
}

/// Both ends of `lo..hi` are character boundaries of `b`, in order.
pub open spec fn char_range(b: Seq<u8>, lo: int, hi: int) -> bool {
    &&& lo <= hi
    &&& is_char_boundary(b, lo)
    &&& is_char_boundary(b, hi)
}

/// The number of bytes that encode `c`.
pub open spec fn utf8_width(c: char) -> nat {
    encode_scalar(c as u32).len()
}

pub proof fn lemma_boundary_in_range(b: Seq<u8>, i: int)
    requires
        valid_utf8(b),
        is_char_boundary(b, i),
    ensures
        0 <= i <= b.len(),
    decreases b.len(),
{
    reveal_with_fuel(is_char_boundary, 2);
    if i != 0 && i <= b.len() && b.len() > 0 {
        let l = length_of_first_scalar(b);
        lemma_pop_len(b);
        lemma_boundary_in_range(pop_first_scalar(b), i - l);
    }
}

proof fn lemma_pop_len(b: Seq<u8>)
    requires
        valid_utf8(b),
        b.len() > 0,
    ensures
        1 <= length_of_first_scalar(b) <= b.len(),
        pop_first_scalar(b).len() == b.len() - length_of_first_scalar(b),
        valid_utf8(pop_first_scalar(b)),
{
}

/// The UTF-8 encoding of a concatenation is the concatenation of the encodings.
pub proof fn lemma_encode_concat(x: Seq<char>, y: Seq<char>)
    ensures
        encode_utf8(x + y) == encode_utf8(x) + encode_utf8(y),
    decreases x.len(),
{
    if x.len() == 0 {
        assert(x + y =~= y);
        assert(encode_utf8(x) + encode_utf8(y) =~= encode_utf8(y));
    } else {
        assert((x + y).drop_first() =~= x.drop_first() + y);
        lemma_encode_concat(x.drop_first(), y);
        assert(encode_utf8(x + y) =~= encode_utf8(x) + encode_utf8(y));
    }
}

/// The encoding of one character.
pub proof fn lemma_encode_single(c: char)
    ensures
        encode_utf8(seq![c]) == encode_scalar(c as u32),
{
    reveal_with_fuel(encode_utf8, 2);
    assert(seq![c].drop_first() =~= Seq::<char>::empty());
    assert(encode_utf8(seq![c]) =~= encode_scalar(c as u32));
}

/// A byte position where a character starts, in one valid sequence, is also one
/// in another valid sequence holding the same byte there.
pub proof fn lemma_boundary_same_byte(b1: Seq<u8>, i1: int, b2: Seq<u8>, i2: int)
    requires
        valid_utf8(b1),
        valid_utf8(b2),
        0 <= i1 < b1.len(),
        0 <= i2 < b2.len(),
        b1[i1] == b2[i2],
        is_char_boundary(b1, i1),
    ensures
        is_char_boundary(b2, i2),
{
    is_char_boundary_iff_not_is_continuation_byte(b1, i1);
    is_char_boundary_iff_not_is_continuation_byte(b2, i2);
}

/// ASCII bytes always start a character.
pub proof fn lemma_ascii_boundary(b: Seq<u8>, i: int)
    requires
        valid_utf8(b),
        0 <= i < b.len(),
        b[i] < 0x80,
    ensures
        is_char_boundary(b, i),
{
    is_char_boundary_iff_not_is_continuation_byte(b, i);
}

/// A slice between two character boundaries is valid UTF-8, and its character
/// boundaries are those of the whole, shifted.
pub proof fn lemma_sub_boundary(b: Seq<u8>, lo: int, hi: int, p: int)
    requires
        valid_utf8(b),
        char_range(b, lo, hi),
        is_char_boundary(b.subrange(lo, hi), p),
    ensures
        valid_utf8(b.subrange(lo, hi)),
        0 <= p <= hi - lo,
        is_char_boundary(b, lo + p),
{
    lemma_sub_valid(b, lo, hi);
    lemma_boundary_in_range(b.subrange(lo, hi), p);
    lemma_boundary_in_range(b, hi);
    if p < hi - lo {
        lemma_boundary_same_byte(b.subrange(lo, hi), p, b, lo + p);
    }
}

/// A boundary of the whole that lies in a slice is a boundary of the slice.
pub proof fn lemma_boundary_into_sub(b: Seq<u8>, lo: int, hi: int, i: int)
    requires
        valid_utf8(b),
        char_range(b, lo, hi),
        lo <= i <= hi,
        is_char_boundary(b, i),
    ensures
        valid_utf8(b.subrange(lo, hi)),
        is_char_boundary(b.subrange(lo, hi), i - lo),
{
    lemma_sub_valid(b, lo, hi);
    lemma_boundary_in_range(b, hi);
    if i < hi {
        lemma_boundary_same_byte(b, i, b.subrange(lo, hi), i - lo);
    }
}

pub proof fn lemma_sub_valid(b: Seq<u8>, lo: int, hi: int)
    requires
        valid_utf8(b),
        char_range(b, lo, hi),
    ensures
        valid_utf8(b.subrange(lo, hi)),
{
    lemma_boundary_in_range(b, lo);
    lemma_boundary_in_range(b, hi);
    valid_utf8_split(b, hi);
    let pre = b.subrange(0, hi);
    assert(is_char_boundary(pre, lo)) by {
        if lo < hi {
            lemma_boundary_same_byte(b, lo, pre, lo);
        }
    }
    valid_utf8_split(pre, lo);
    assert(pre.subrange(lo, pre.len() as int) =~= b.subrange(lo, hi));
}

/// Where the encoding of `x + y` changes from `x` to `y` is a character boundary.
pub proof fn lemma_concat_boundary(x: Seq<char>, y: Seq<char>)
    ensures
        encode_utf8(x + y) == encode_utf8(x) + encode_utf8(y),
        is_char_boundary(encode_utf8(x + y), encode_utf8(x).len() as int),
{
    lemma_encode_concat(x, y);
    let e = encode_utf8(x + y);
    let ex = encode_utf8(x);
    let ey = encode_utf8(y);
    if ey.len() > 0 {
        assert(is_char_boundary(ey, 0));
        lemma_boundary_same_byte(ey, 0, e, ex.len() as int);
    }
}

/// The character boundaries of a splice: the kept prefix keeps its
/// boundaries, the kept suffix keeps them shifted, and both ends of the
/// inserted bytes are boundaries.
pub proof fn lemma_splice(b: Seq<u8>, lo: int, hi: int, ins: Seq<u8>)
    requires
        valid_utf8(b),
        valid_utf8(ins),
        char_range(b, lo, hi),
    ensures
        valid_utf8(splice(b, lo, hi, ins)),
        splice(b, lo, hi, ins).len() == b.len() - (hi - lo) + ins.len(),
        is_char_boundary(splice(b, lo, hi, ins), lo),
        is_char_boundary(splice(b, lo, hi, ins), lo + ins.len()),
        forall|i: int|
            0 <= i <= lo && #[trigger] is_char_boundary(b, i) ==> is_char_boundary(
                splice(b, lo, hi, ins),
                i,
            ),
        forall|j: int|
            hi <= j && #[trigger] is_char_boundary(b, j) ==> is_char_boundary(
                splice(b, lo, hi, ins),
                j - hi + lo + ins.len(),
            ),
{
    lemma_boundary_in_range(b, lo);
    lemma_boundary_in_range(b, hi);
    let len = b.len() as int;
    let pre = b.subrange(0, lo);
    let post = b.subrange(hi, len);
    lemma_sub_valid(b, 0, lo);
    lemma_sub_valid(b, hi, len);
    let n = splice(b, lo, hi, ins);
    valid_utf8_concat(pre, ins);
    valid_utf8_concat(pre + ins, post);
    assert(n =~= (pre + ins) + post);
    let shift = lo + ins.len() - hi;
    assert forall|i: int| 0 <= i <= lo && #[trigger] is_char_boundary(b, i) implies is_char_boundary(
        n,
        i,
    ) by {
        if i < lo {
            lemma_boundary_same_byte(b, i, n, i);
        } else {
            lemma_splice_mid(b, lo, hi, ins);
        }
    }
    assert forall|j: int| hi <= j && #[trigger] is_char_boundary(b, j) implies is_char_boundary(
        n,
        j - hi + lo + ins.len(),
    ) by {
        lemma_boundary_in_range(b, j);
        if j < len {
            assert(n[j + shift] == b[j]);
            lemma_boundary_same_byte(b, j, n, j + shift);
        }
    }
    lemma_splice_mid(b, lo, hi, ins);
}

proof fn lemma_splice_mid(b: Seq<u8>, lo: int, hi: int, ins: Seq<u8>)
    requires
        valid_utf8(b),
        valid_utf8(ins),
        valid_utf8(splice(b, lo, hi, ins)),
        char_range(b, lo, hi),
        0 <= lo <= hi <= b.len(),
    ensures
        is_char_boundary(splice(b, lo, hi, ins), lo),
        is_char_boundary(splice(b, lo, hi, ins), lo + ins.len()),
{
    let n = splice(b, lo, hi, ins);
    let len = b.len() as int;
    if ins.len() > 0 {
        lemma_boundary_same_byte(ins, 0, n, lo);
    }
    if hi < len {
        lemma_boundary_same_byte(b, hi, n, lo + ins.len());
    } else if ins.len() == 0 && lo < n.len() {
        assert(n[lo] == b[hi]);
        lemma_boundary_same_byte(b, hi, n, lo);
    }
}

/// Index of the first `c` in `t` at or after `k`, or `t.len()` when there is none.
pub open spec fn next_char(t: Seq<char>, c: char, k: int) -> int
    decreases t.len() - k,
{
    if k >= t.len() {
        t.len() as int
    } else if t[k] == c {
        k
    } else {
        next_char(t, c, k + 1)
    }
}

/// Index of the last `c` in `t` strictly before `k`, or -1 when there is none.
pub open spec fn prev_char(t: Seq<char>, c: char, k: int) -> int
    decreases k,
{
    if k <= 0 {
        -1
    } else if t[k - 1] == c {
        k - 1
    } else {
        prev_char(t, c, k - 1)
    }
}

/// Byte offset, in the encoding of `t`, of its character number `k`.
pub open spec fn char_offset(t: Seq<char>, k: int) -> int {
    encode_utf8(t.take(k)).len() as int
}

/// Byte offset of the first `c` in `t`.
pub open spec fn find_first(t: Seq<char>, c: char) -> Option<int> {
    let k = next_char(t, c, 0);
    if k < t.len() {
        Some(char_offset(t, k))
    } else {
        None
    }
}

/// Byte offset of the last `c` in `t`.
pub open spec fn find_last(t: Seq<char>, c: char) -> Option<int> {
    let k = prev_char(t, c, t.len() as int);
    if k >= 0 {
        Some(char_offset(t, k))
    } else {
        None
    }
}

/// Splitting the characters at `k` splits the bytes at `char_offset(t, k)`,
/// a character boundary; one more character adds its width.
pub proof fn lemma_char_offset(t: Seq<char>, k: int)
    requires
        0 <= k <= t.len(),
    ensures
        encode_utf8(t) == encode_utf8(t.take(k)) + encode_utf8(t.skip(k)),
        is_char_boundary(encode_utf8(t), char_offset(t, k)),
        0 <= char_offset(t, k) <= encode_utf8(t).len(),
        k < t.len() ==> char_offset(t, k + 1) == char_offset(t, k) + utf8_width(t[k]),
        k < t.len() ==> is_char_boundary(encode_utf8(t), char_offset(t, k + 1)),
        k < t.len() ==> char_offset(t, k + 1) <= encode_utf8(t).len(),
{
    assert(t =~= t.take(k) + t.skip(k));
    lemma_concat_boundary(t.take(k), t.skip(k));
    if k < t.len() {
        assert(t.take(k + 1) =~= t.take(k) + seq![t[k]]);
        lemma_encode_concat(t.take(k), seq![t[k]]);
        lemma_encode_single(t[k]);
        assert(t =~= t.take(k + 1) + t.skip(k + 1));
        lemma_concat_boundary(t.take(k + 1), t.skip(k + 1));
    }
}

/// The number of bytes that encode `c`.
pub fn char_width(c: char) -> (r: usize)
    ensures
        r == utf8_width(c),
        1 <= r <= 4,
{
    proof {
        char_is_scalar(c);
    }
    let v = c as u32;
    if v <= 0x7f {
        1
    } else if v <= 0x7ff {
        2
    } else if v <= 0xffff {
        3
    } else {
        4
    }
}

/// The slice `s[lo..hi]`.
pub fn sub_str<'a>(s: &'a str, lo: usize, hi: usize) -> (r: &'a str)
    requires
        char_range(s.spec_bytes(), lo as int, hi as int),
    ensures
        r.spec_bytes() == s.spec_bytes().subrange(lo as int, hi as int),
        r@ == text_between(s.spec_bytes(), lo as int, hi as int),
{
    let ghost b = s.spec_bytes();
    proof {
        lemma_boundary_in_range(b, lo as int);
        lemma_boundary_in_range(b, hi as int);
        lemma_boundary_into_sub(b, lo as int, b.len() as int, hi as int);
    }
    let (_, tail) = s.split_at(lo);
    proof {
        assert(tail.spec_bytes() =~= b.subrange(lo as int, b.len() as int));
    }
    let (mid, _) = tail.split_at(hi - lo);
    proof {
        assert(mid.spec_bytes() =~= b.subrange(lo as int, hi as int));
    }
    mid
}

/// A new string holding `s` with the bytes `s[lo..hi]` replaced by `ins`.
pub fn spliced(s: &str, lo: usize, hi: usize, ins: &str) -> (r: String)
    requires
        char_range(s.spec_bytes(), lo as int, hi as int),
    ensures
        encode_utf8(r@) == splice(s.spec_bytes(), lo as int, hi as int, ins.spec_bytes()),
{
    let ghost b = s.spec_bytes();
    proof {
        lemma_boundary_in_range(b, lo as int);
        lemma_boundary_in_range(b, hi as int);
        lemma_boundary_into_sub(b, lo as int, b.len() as int, hi as int);
    }
    let (pre, rest) = s.split_at(lo);
    let (_, post) = rest.split_at(hi - lo);
    let mut r = pre.to_owned();
    r.append(ins);
    r.append(post);
    proof {
        lemma_encode_concat(pre@, ins@);
        lemma_encode_concat(pre@ + ins@, post@);
        assert(post.spec_bytes() =~= b.subrange(hi as int, b.len() as int));
    }
    r
}

/// Byte offset of the first `c` in `s`.
pub fn find_char_in(s: &str, c: char) -> (r: Option<usize>)
    ensures
        r is Some <==> find_first(s@, c) is Some,
        r is Some ==> r->0 == find_first(s@, c)->0,
{
    let ghost t = s@;
    let n = s.unicode_len();
    let total = s.as_bytes().len();
    let mut it = s.chars();
    let mut k: usize = 0;
    let mut off: usize = 0;
    proof {
        lemma_char_offset(t, 0);
        assert(t.take(0) =~= Seq::<char>::empty());
    }
    while k < n
        invariant
            t == s@,
            n == t.len(),
            k <= n,
            off == char_offset(t, k as int),
            it.remaining() == t.skip(k as int),
            next_char(t, c, 0) == next_char(t, c, k as int),
            s.spec_bytes() == encode_utf8(t),
            total == encode_utf8(t).len(),
        decreases n - k,
    {
        proof {
            lemma_char_offset(t, k as int);
        }
        let next = it.next();
        let ch = match next {
            Some(ch) => ch,
            None => {
                proof {
                    assert(false);
                }
                c
            },
        };
        assert(ch == t[k as int]);
        if ch == c {
            assert(next_char(t, c, k as int) == k);
            return Some(off);
        }
        proof {
            assert(t.skip(k as int).drop_first() =~= t.skip(k as int + 1));
        }
        off = off + char_width(ch);
        k = k + 1;
    }
    None
}

/// Byte offset of the last `c` in `s`.
pub fn rfind_char_in(s: &str, c: char) -> (r: Option<usize>)
    ensures
        r is Some <==> find_last(s@, c) is Some,
        r is Some ==> r->0 == find_last(s@, c)->0,
{
    let ghost t = s@;
    let n = s.unicode_len();
    let total = s.as_bytes().len();
    let mut it = s.chars();
    let mut k: usize = 0;
    let mut off: usize = 0;
    let mut found: Option<usize> = None;
    proof {
        lemma_char_offset(t, 0);
        assert(t.take(0) =~= Seq::<char>::empty());
    }
    while k < n
        invariant
            t == s@,
            n == t.len(),
            k <= n,
            off == char_offset(t, k as int),
            it.remaining() == t.skip(k as int),
            found is Some <==> prev_char(t, c, k as int) >= 0,
            found is Some ==> found->0 == char_offset(t, prev_char(t, c, k as int)),
            s.spec_bytes() == encode_utf8(t),
            total == encode_utf8(t).len(),
        decreases n - k,
    {
        proof {
            lemma_char_offset(t, k as int);
        }
        let next = it.next();
        let ch = match next {
            Some(ch) => ch,
            None => {
                proof {
                    assert(false);
                }
                c
            },
        };
        if ch == c {
            found = Some(off);
        }
        proof {
            assert(t.skip(k as int).drop_first() =~= t.skip(k as int + 1));
        }
        off = off + char_width(ch);
        k = k + 1;
    }
    found
}

/// Index of the first line feed in `b` at or after `i`, or `b.len()`.
pub fn next_newline_in(b: &[u8], i: usize) -> (r: usize)
    requires
        i <= b@.len(),
    ensures
        r == next_newline(b@, i as int),
{
    let mut j = i;
    while j < b.len() && b[j] != LINE_FEED
        invariant
            i <= j <= b@.len(),
            next_newline(b@, i as int) == next_newline(b@, j as int),
        decreases b@.len() - j,
    {
        j = j + 1;
    }
    j
}

/// One past the last line feed of `b` before `i`, or 0 when there is none.
pub fn line_start_in(b: &[u8], i: usize) -> (r: usize)
    requires
        i <= b@.len(),
    ensures
        r == prev_newline(b@, i as int) + 1,
{
    let mut j = i;
    while j > 0 && b[j - 1] != LINE_FEED
        invariant
            j <= i <= b@.len(),
            prev_newline(b@, i as int) == prev_newline(b@, j as int),
        decreases j,
    {
        j = j - 1;
    }
    j
}

/// Number of line feeds in `b[..i]`.
pub fn count_newlines_in(b: &[u8], i: usize) -> (r: usize)
    requires
        i <= b@.len(),
    ensures
        r == count_newlines(b@.subrange(0, i as int)),
        r <= i,
{
    let mut j: usize = 0;
    let mut count: usize = 0;
    proof {
        assert(b@.subrange(0, 0).len() == 0);
    }
    while j < i
        invariant
            j <= i <= b@.len(),
            count <= j,
            count == count_newlines(b@.subrange(0, j as int)),
        decreases i - j,
    {
        proof {
            assert(b@.subrange(0, j as int + 1).drop_last() =~= b@.subrange(0, j as int));
        }
        if b[j] == LINE_FEED {
            count = count + 1;
        }
        j = j + 1;
    }
    count
}

proof fn lemma_next_char(t: Seq<char>, c: char, k: int)
    requires
        0 <= k <= t.len(),
    ensures
        k <= next_char(t, c, k) <= t.len(),
        next_char(t, c, k) < t.len() ==> t[next_char(t, c, k)] == c,
    decreases t.len() - k,
{
    if k < t.len() && t[k] != c {
        lemma_next_char(t, c, k + 1);
    }
}

proof fn lemma_prev_char(t: Seq<char>, c: char, k: int)
    requires
        0 <= k <= t.len(),
    ensures
        -1 <= prev_char(t, c, k) < k,
        prev_char(t, c, k) >= 0 ==> t[prev_char(t, c, k)] == c,
    decreases k,
{
    if k > 0 && t[k - 1] != c {
        lemma_prev_char(t, c, k - 1);
    }
}

/// A found `c` spans the bytes from its offset to its offset plus its width,
/// both character boundaries.
pub proof fn lemma_found(t: Seq<char>, c: char)
    ensures
        find_first(t, c) is Some ==> found_at(t, c, find_first(t, c)->0),
        find_last(t, c) is Some ==> found_at(t, c, find_last(t, c)->0),
{
    lemma_next_char(t, c, 0);
    lemma_prev_char(t, c, t.len() as int);
    let k = next_char(t, c, 0);
    if k < t.len() {
        lemma_char_offset(t, k);
    }
    let j = prev_char(t, c, t.len() as int);
    if j >= 0 {
        lemma_char_offset(t, j);
    }
}

/// The bytes `i..i + utf8_width(c)` of the encoding of `t` hold a `c`
/// between two character boundaries.
pub open spec fn found_at(t: Seq<char>, c: char, i: int) -> bool {
    &&& 0 <= i
    &&& i + utf8_width(c) <= encode_utf8(t).len()
    &&& is_char_boundary(encode_utf8(t), i)
    &&& is_char_boundary(encode_utf8(t), i + utf8_width(c))
}

} // verus!
