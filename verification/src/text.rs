//! Small string operations of std that the rest of the library uses,
//! each with the contract its documentation gives.
use vstd::prelude::*;

verus! {

/// Whether two string slices hold the same text (std's `str == str`).
#[verifier::external_body]
pub(crate) fn str_eq(a: &str, b: &str) -> (r: bool)
    ensures
        r == (a@ == b@),
{
    a == b
}

/// Appends `t` to `s` (std's `String::push_str`).
#[verifier::external_body]
pub(crate) fn push_str(s: &mut String, t: &str)
    ensures
        final(s)@ == old(s)@ + t@,
{
    s.push_str(t)
}

/// Appends one character (std's `String::push`).
#[verifier::external_body]
pub(crate) fn push_char(s: &mut String, c: char)
    ensures
        final(s)@ == old(s)@.push(c),
{
    s.push(c)
}

/// `s` with leading and trailing Unicode white space removed (std's
/// `str::trim`).
pub uninterp spec fn trim_ws(s: Seq<char>) -> Seq<char>;

/// Removes leading and trailing white space (std's `str::trim`); the
/// result depends on the text alone.
#[verifier::external_body]
pub(crate) fn trim_text(s: &str) -> (r: &str)
    ensures
        r@ == trim_ws(s@),
{
    s.trim()
}

/// `s` with trailing Unicode white space removed (std's `str::trim_end`).
pub uninterp spec fn trim_end_ws(s: Seq<char>) -> Seq<char>;

/// Removes trailing white space (std's `str::trim_end`); the result
/// depends on the text alone.
#[verifier::external_body]
pub(crate) fn trim_end_text(s: &str) -> (r: &str)
    ensures
        r@ == trim_end_ws(s@),
{
    s.trim_end()
}

/// `a`, `b` and `c` concatenated.
pub fn message3(a: &str, b: &str, c: &str) -> (r: String)
    ensures
        r@ == a@ + b@ + c@,
{
    let mut m = a.to_owned();
    push_str(&mut m, b);
    push_str(&mut m, c);
    m
}

} // verus!
