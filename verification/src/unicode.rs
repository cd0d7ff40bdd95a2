//! Trusted wrappers around the Unicode routines of std that vstd gives no
//! specification.
use vstd::prelude::*;

verus! {

/// What `char::is_alphanumeric` returns for `c`: whether `c` has the Unicode
/// property Alphabetic or a numeric general category.
pub uninterp spec fn unicode_alphanumeric(c: char) -> bool;

/// What `str::to_lowercase` returns for a string with the characters `s`:
/// its Unicode lowercase mapping, in which a character's lowercase form may
/// depend on the characters around it.
pub uninterp spec fn unicode_lowercase(s: Seq<char>) -> Seq<char>;

/// Calls `char::is_alphanumeric`. The contract claims only that the result
/// is a function of `c` alone; the Unicode tables behind it are not stated.
#[verifier::external_body]
pub(crate) fn char_is_alphanumeric(c: char) -> (r: bool)
    ensures
        r == unicode_alphanumeric(c),
{
    c.is_alphanumeric()
}

/// Calls `str::to_lowercase`. The contract claims only that the result's
/// characters are a function of the argument's characters alone; the Unicode
/// case mappings are not stated.
#[verifier::external_body]
pub(crate) fn str_to_lowercase(s: &str) -> (r: String)
    ensures
        r@ == unicode_lowercase(s@),
{
    s.to_lowercase()
}

/// Calls `char::to_string`, which std documents as the one-character string
/// holding `c`.
#[verifier::external_body]
pub(crate) fn char_to_string(c: char) -> (r: String)
    ensures
        r@ == seq![c],
{
    c.to_string()
}

} // verus!
