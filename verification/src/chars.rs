//! Character classification used by the scanner.
//!
//! Identifier recognition is deliberately language-generic: any Unicode
//! alphabetic character may start an identifier and any alphanumeric
//! character may continue one.  Those Unicode classes are named by
//! uninterpreted spec functions and supplied by trusted wrappers around
//! the `char` methods of std; digits, in contrast, are plain ASCII and
//! are specified directly.

use vstd::prelude::*;

verus! {

/// Whether `c` has the Unicode `White_Space` property; the meaning of
/// `char::is_whitespace`.
pub uninterp spec fn is_whitespace(c: char) -> bool;

/// Whether `c` has the Unicode `Alphabetic` property; the meaning of
/// `char::is_alphabetic`.
pub uninterp spec fn is_alphabetic(c: char) -> bool;

/// Whether `c` is alphabetic or has a numeric general category; the meaning
/// of `char::is_alphanumeric`.
pub uninterp spec fn is_alphanumeric(c: char) -> bool;

/// Relies on `char::is_whitespace`: returns whether `c` has the Unicode
/// `White_Space` property, a function of the character alone.
#[verifier::external_body]
pub fn char_is_whitespace(c: char) -> (r: bool)
    ensures
        r == is_whitespace(c),
{
    c.is_whitespace()
}

/// Relies on `char::is_alphabetic`: returns whether `c` has the Unicode
/// `Alphabetic` property, a function of the character alone.
#[verifier::external_body]
pub fn char_is_alphabetic(c: char) -> (r: bool)
    ensures
        r == is_alphabetic(c),
{
    c.is_alphabetic()
}

/// Relies on `char::is_alphanumeric`: returns whether `c` is alphanumeric
/// under Unicode, a function of the character alone.
#[verifier::external_body]
pub fn char_is_alphanumeric(c: char) -> (r: bool)
    ensures
        r == is_alphanumeric(c),
{
    c.is_alphanumeric()
}

/// A character that may start an identifier or keyword.
pub open spec fn is_ident_start(c: char) -> bool {
    is_alphabetic(c) || c == '_'
}

/// A character that may continue an identifier or keyword.
pub open spec fn is_ident_continue(c: char) -> bool {
    is_alphanumeric(c) || c == '_'
}

/// An ASCII decimal digit `0`..=`9`.
pub open spec fn is_dec_digit(c: char) -> bool {
    48 <= c as u32 && c as u32 <= 57
}

/// An ASCII hexadecimal digit `0`..=`9`, `a`..=`f` or `A`..=`F`.
pub open spec fn is_hex_digit(c: char) -> bool {
    is_dec_digit(c) || (97 <= c as u32 && c as u32 <= 102) || (65 <= c as u32 && c as u32 <= 70)
}

/// Decides `is_dec_digit`.
pub fn char_is_dec_digit(c: char) -> (r: bool)
    ensures
        r == is_dec_digit(c),
{
    let u: u32 = c as u32;
    48 <= u && u <= 57
}

/// Decides `is_hex_digit`.
pub fn char_is_hex_digit(c: char) -> (r: bool)
    ensures
        r == is_hex_digit(c),
{
    let u: u32 = c as u32;
    (48 <= u && u <= 57) || (97 <= u && u <= 102) || (65 <= u && u <= 70)
}

} // verus!
