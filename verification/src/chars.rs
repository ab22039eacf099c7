//! Character-level building blocks shared by the textual encoders and
//! decoders: appending single characters to a `String` and constructing a
//! `char` from a Unicode code point.

use vstd::prelude::*;

verus! {

/// Relies on std's `String::push`: appends the given character to the end of
/// the string.
pub assume_specification[ String::push ](s: &mut String, ch: char)
    ensures
        final(s)@ == old(s)@.push(ch),
;

/// Relies on std's `char::from_u32`: returns `Some` exactly when the code
/// point is a Unicode scalar value (not a surrogate, at most 0x10FFFF), and
/// the returned character carries exactly that code point.
pub assume_specification[ char::from_u32 ](v: u32) -> (r: Option<char>)
    ensures
        match r {
            Some(c) => c as u32 == v && (v < 0xD800 || (0xE000 <= v && v <= 0x10FFFF)),
            None => !(v < 0xD800 || (0xE000 <= v && v <= 0x10FFFF)),
        },
;

} // verus!

