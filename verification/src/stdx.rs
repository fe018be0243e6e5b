//! Small trusted bridges to std functions that vstd leaves
//! unspecified.

use vstd::prelude::*;

verus! {

/// Relies on str::chars: the iterator yields exactly the characters
/// of the string, in order.
#[verifier::external_body]
pub fn str_chars(s: &str) -> (v: Vec<char>)
    ensures
        v@ == s@,
{
    s.chars().collect()
}

/// Relies on String::push: appends the one character to the string.
#[verifier::external_body]
pub fn string_push(s: &mut String, c: char)
    ensures
        final(s)@ == old(s)@.push(c),
{
    s.push(c)
}

} // verus!
