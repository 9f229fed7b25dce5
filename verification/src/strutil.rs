//! Thin trusted views of std's string comparisons.

use vstd::prelude::*;

verus! {

/// Relies on str's `==` (std): equality of the character sequences.
#[verifier::external_body]
pub fn str_eq(a: &str, b: &str) -> (r: bool)
    ensures
        r == (a@ == b@),
{
    a == b
}

/// Relies on `str::starts_with` (std): true exactly when the characters of
/// `p` are a prefix of those of `s`.
#[verifier::external_body]
pub fn str_starts_with(s: &str, p: &str) -> (r: bool)
    ensures
        r == (p@.len() <= s@.len() && s@.subrange(0, p@.len() as int) == p@),
{
    s.starts_with(p)
}

} // verus!
