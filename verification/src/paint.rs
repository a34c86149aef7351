//! Rendering helpers that lean on outside code: Braille characters
//! from code points, and colored glyphs through the `colored` crate.

use vstd::prelude::*;
use colored::Colorize;

verus! {

/// Relies on `char::from_u32`: every value below the surrogate range
/// is a valid scalar value and converts to the character with that
/// code.
#[verifier::external_body]
pub(crate) fn char_from_code(code: u32) -> (c: char)
    requires
        code < 0xD800,
    ensures
        c == code as char,
        c as u32 == code,
{
    char::from_u32(code).unwrap()
}

/// Relies on `String::push`: appends exactly the one character.
#[verifier::external_body]
pub(crate) fn push_char(s: &mut String, c: char)
    ensures
        final(s)@ == old(s)@.push(c),
{
    s.push(c);
}

/// Relies on `Colorize::color` for `&str` and on `ColoredString`'s
/// `Display`: the output holds the input glyph, wrapped in the color's
/// escape sequence wherever the terminal takes colors, bare otherwise.
#[verifier::external_body]
pub(crate) fn paint(glyph: char, color: &colored::Color) -> (r: String)
    ensures
        r@.contains(glyph),
{
    let mut s = String::new();
    s.push(glyph);
    format!("{}", s.as_str().color(*color))
}

} // verus!
