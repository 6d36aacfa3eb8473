//! The few places where the library leans on functions of the standard
//! library that vstd gives no specification to.

use vstd::prelude::*;

verus! {

/// Relies on char::from_u32: yields the character with the given scalar
/// value, and None exactly on surrogate values and values past the largest
/// code point, as its documentation states.
pub assume_specification[ char::from_u32 ](n: u32) -> (r: Option<char>)
    ensures
        r is Some <==> (n < 0xD800 || (0xE000 <= n && n <= 0x10FFFF)),
        r matches Some(c) ==> c as u32 == n,
;

/// Relies on String::push: appends exactly the one character.
#[verifier::external_body]
pub fn push_char(s: &mut String, c: char)
    ensures
        final(s)@ == old(s)@.push(c),
{
    s.push(c);
}

} // verus!
