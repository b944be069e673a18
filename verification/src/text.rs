//! Contracts for the pieces of std's string API that vstd leaves unspecified.

use vstd::prelude::*;

verus! {

/// Relies on std's `String::push`, whose documentation says it appends the
/// given `char` to the end of the string.
pub assume_specification[ String::push ](s: &mut String, c: char)
    ensures
        final(s)@ == old(s)@.push(c),
;

/// Whether `u` is a Unicode scalar value: any code point except the
/// surrogates, which no `char` can carry.
pub open spec fn is_scalar_code(u: u32) -> bool {
    u < 0xD800 || (0xE000 <= u && u <= 0x10FFFF)
}

/// Relies on std's `char::from_u32`, whose documentation says it returns
/// the character with the given code point, and `None` exactly for
/// surrogates and values beyond the Unicode range.
pub assume_specification[ char::from_u32 ](u: u32) -> (r: Option<char>)
    ensures
        r matches Some(c) ==> is_scalar_code(u) && c as u32 == u,
        r is None ==> !is_scalar_code(u),
;

} // verus!
