//! Character classes and string building, as the standard library provides them.
use vstd::prelude::*;

verus! {

/// Whether `c` has the Unicode `Alphabetic` property.
pub uninterp spec fn alphabetic(c: char) -> bool;

/// Whether `c` has the `Alphabetic` property or a numeric general category.
pub uninterp spec fn alphanumeric(c: char) -> bool;

/// Whether `c` has the Unicode `White_Space` property.
pub uninterp spec fn white_space(c: char) -> bool;

/// Relies on `char::is_alphabetic`: a function of the character alone.
#[verifier::external_body]
pub(crate) fn is_alphabetic(c: char) -> (r: bool)
    ensures
        r == alphabetic(c),
{
    c.is_alphabetic()
}

/// Relies on `char::is_alphanumeric`: a function of the character alone.
#[verifier::external_body]
pub(crate) fn is_alphanumeric(c: char) -> (r: bool)
    ensures
        r == alphanumeric(c),
{
    c.is_alphanumeric()
}

/// Relies on `char::is_whitespace`: a function of the character alone.
#[verifier::external_body]
pub(crate) fn is_whitespace(c: char) -> (r: bool)
    ensures
        r == white_space(c),
{
    c.is_whitespace()
}

/// Relies on `String::push`: appends one character.
#[verifier::external_body]
pub(crate) fn push_char(s: &mut String, c: char)
    ensures
        final(s)@ == old(s)@.push(c),
{
    s.push(c)
}

/// The characters of `s`, in order.
pub fn chars_of(s: &str) -> (r: Vec<char>)
    ensures
        r@ == s@,
{
    let mut chars: Vec<char> = Vec::new();
    for c in it: s.chars()
        invariant
            chars@ == it.seq().subrange(0, it.index() as int),
    {
        chars.push(c);
    }
    assert(chars@ =~= s@);
    chars
}

/// The classes of one character that the scanner consults.
#[derive(Clone, Copy, Debug, PartialEq, Eq, Structural)]
pub struct CharInfo {
    pub alphabetic: bool,
    pub alphanumeric: bool,
    pub white_space: bool,
}

pub open spec fn info_of(c: char) -> CharInfo {
    CharInfo { alphabetic: alphabetic(c), alphanumeric: alphanumeric(c), white_space: white_space(c) }
}

/// The classes of each character of `s`.
pub open spec fn infos_of(s: Seq<char>) -> Seq<CharInfo> {
    s.map_values(|c: char| info_of(c))
}

pub fn classify(c: char) -> (r: CharInfo)
    ensures
        r == info_of(c),
{
    CharInfo {
        alphabetic: is_alphabetic(c),
        alphanumeric: is_alphanumeric(c),
        white_space: is_whitespace(c),
    }
}

/// The classes of each character of `chars`, position by position.
pub fn classify_all(chars: &[char]) -> (r: Vec<CharInfo>)
    ensures
        r@ == infos_of(chars@),
{
    let mut r: Vec<CharInfo> = Vec::new();
    let mut i: usize = 0;
    while i < chars.len()
        invariant
            i <= chars@.len(),
            r@ == infos_of(chars@.subrange(0, i as int)),
        decreases chars@.len() - i,
    {
        r.push(classify(chars[i]));
        i = i + 1;
        assert(r@ =~= infos_of(chars@.subrange(0, i as int)));
    }
    assert(chars@.subrange(0, chars@.len() as int) =~= chars@);
    r
}

} // verus!
