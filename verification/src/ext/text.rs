use vstd::prelude::*;
use crate::text::{ascii_letter, all_ascii, ascii_upper};

verus! {

/// Whether `char::is_alphabetic` holds of `c` (the Unicode `Alphabetic` property).
pub uninterp spec fn char_is_alphabetic(c: char) -> bool;

/// Whether `char::is_numeric` holds of `c` (Unicode general categories `Nd`, `Nl`, `No`).
pub uninterp spec fn char_is_numeric(c: char) -> bool;

/// What `str::to_uppercase` returns for a string with characters `s`.
pub uninterp spec fn upper_text(s: Seq<char>) -> Seq<char>;

/// `char::is_alphabetic`: its result is named; of an ASCII character it is
/// stated (exactly the letters `a`-`z` and `A`-`Z` are alphabetic).
#[verifier::external_body]
pub(crate) fn is_alphabetic(c: char) -> (r: bool)
    ensures
        r == char_is_alphabetic(c),
        (c as u32) < 128 ==> (r == ascii_letter(c)),
{
    c.is_alphabetic()
}

/// `char::is_numeric`: its result is named; of an ASCII character it is
/// stated (exactly the digits `0`-`9` are numeric).
#[verifier::external_body]
pub(crate) fn is_numeric(c: char) -> (r: bool)
    ensures
        r == char_is_numeric(c),
        (c as u32) < 128 ==> (r == ('0' <= c && c <= '9')),
{
    c.is_numeric()
}

/// `str::to_uppercase`: the Unicode upper-case form of `s`. It is named in
/// general; of ASCII text it is stated (`a`-`z` become `A`-`Z`, the rest stays).
#[verifier::external_body]
pub(crate) fn to_uppercase(s: &str) -> (r: String)
    ensures
        r@ == upper_text(s@),
        all_ascii(s@) ==> r@ == ascii_upper(s@),
{
    s.to_uppercase()
}

/// `String::push`: appends one character.
#[verifier::external_body]
pub(crate) fn push_char(s: &mut String, c: char)
    ensures
        final(s)@ == old(s)@.push(c),
{
    s.push(c)
}

} // verus!
