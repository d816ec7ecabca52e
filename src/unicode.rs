//! What this library takes from Unicode: text segmentation from
//! `unicode_segmentation`, and the character properties and case mappings of
//! std. Each result that tables decide is given a name here, and each call
//! goes through one small function.
use unicode_segmentation::UnicodeSegmentation;
use vstd::prelude::*;
use vstd::string::*;
use vstd::utf8::*;

verus! {

/// Byte offsets at which the extended grapheme clusters of `s` start.
pub uninterp spec fn grapheme_starts(s: Seq<char>) -> Seq<usize>;

/// Byte offsets at which the pieces of `s` between two word boundaries start.
pub uninterp spec fn word_bound_starts(s: Seq<char>) -> Seq<usize>;

/// The `Alphabetic` property or a general category of `Number`.
pub uninterp spec fn alphanumeric(c: char) -> bool;

/// The `White_Space` property.
pub uninterp spec fn white_space(c: char) -> bool;

/// The full upper-case mapping of `s`.
pub uninterp spec fn upper_of(s: Seq<char>) -> Seq<char>;

/// The full lower-case mapping of `s`.
pub uninterp spec fn lower_of(s: Seq<char>) -> Seq<char>;

/// `offs` cuts `b` into consecutive non-empty pieces: it is empty exactly when
/// `b` is, starts at 0, increases strictly, and each entry starts a character.
pub open spec fn cuts(offs: Seq<usize>, b: Seq<u8>) -> bool {
    &&& (offs.len() == 0 <==> b.len() == 0)
    &&& offs.len() > 0 ==> offs[0] == 0
    &&& forall|i: int, j: int| 0 <= i < j < offs.len() ==> offs[i] < offs[j]
    &&& forall|i: int|
        0 <= i < offs.len() ==> offs[i] < b.len() && is_char_boundary(b, offs[i] as int)
}

/// Relies on `UnicodeSegmentation::grapheme_indices(s, true)`: it yields the
/// extended grapheme clusters of `s`, consecutive non-empty slices from its
/// start to its end, with the byte offset of each.
#[verifier::external_body]
pub(crate) fn grapheme_offsets(s: &str) -> (r: Vec<usize>)
    ensures
        r@ == grapheme_starts(s@),
        cuts(r@, s.spec_bytes()),
{
    s.grapheme_indices(true).map(|(i, _)| i).collect()
}

/// Relies on `UnicodeSegmentation::split_word_bound_indices`: it yields the
/// pieces of `s` between word boundaries, consecutive non-empty slices from its
/// start to its end, with the byte offset of each.
#[verifier::external_body]
pub(crate) fn word_bound_offsets(s: &str) -> (r: Vec<usize>)
    ensures
        r@ == word_bound_starts(s@),
        cuts(r@, s.spec_bytes()),
{
    s.split_word_bound_indices().map(|(i, _)| i).collect()
}

/// Relies on `char::is_alphanumeric`.
#[verifier::external_body]
pub(crate) fn is_alphanumeric(c: char) -> (r: bool)
    ensures
        r == alphanumeric(c),
{
    c.is_alphanumeric()
}

/// Relies on `char::is_whitespace`.
#[verifier::external_body]
pub(crate) fn is_white_space(c: char) -> (r: bool)
    ensures
        r == white_space(c),
{
    c.is_whitespace()
}

/// Relies on `str::to_uppercase`.
#[verifier::external_body]
pub(crate) fn to_upper(s: &str) -> (r: String)
    ensures
        r@ == upper_of(s@),
{
    s.to_uppercase()
}

/// Relies on `str::to_lowercase`.
#[verifier::external_body]
pub(crate) fn to_lower(s: &str) -> (r: String)
    ensures
        r@ == lower_of(s@),
{
    s.to_lowercase()
}

/// Relies on `String::from(char)`: a string holding that one character.
#[verifier::external_body]
pub(crate) fn char_string(c: char) -> (r: String)
    ensures
        r@ == seq![c],
{
    String::from(c)
}

} // verus!
