//! Character classes, taken from the standard library's `char` methods.
use vstd::prelude::*;

verus! {

/// The characters with the Unicode White_Space property, of which
/// `char::is_whitespace` is documented to hold.
pub open spec fn whitespace_char(c: char) -> bool {
    ('\u{9}' <= c && c <= '\u{d}') || c == ' ' || c == '\u{85}' || c == '\u{a0}' || c == '\u{1680}'
        || ('\u{2000}' <= c && c <= '\u{200a}') || c == '\u{2028}' || c == '\u{2029}' || c == '\u{202f}'
        || c == '\u{205f}' || c == '\u{3000}'
}

/// Whether `char::is_alphabetic` holds of a character (the Unicode Alphabetic property).
pub uninterp spec fn alphabetic_char(c: char) -> bool;

/// Whether `char::is_numeric` holds of a character (general categories Nd, Nl and No).
pub uninterp spec fn numeric_char(c: char) -> bool;

/// Relies on `char::is_whitespace`, documented as the White_Space property.
#[verifier::external_body]
pub(crate) fn is_whitespace(c: char) -> (r: bool)
    ensures
        r == whitespace_char(c),
{
    c.is_whitespace()
}

/// Relies on `char::is_alphabetic`: the answer depends on the character alone.
#[verifier::external_body]
pub(crate) fn is_alphabetic(c: char) -> (r: bool)
    ensures
        r == alphabetic_char(c),
{
    c.is_alphabetic()
}

/// Relies on `char::is_numeric`: the answer depends on the character alone.
#[verifier::external_body]
pub(crate) fn is_numeric(c: char) -> (r: bool)
    ensures
        r == numeric_char(c),
{
    c.is_numeric()
}

/// Relies on `char::is_alphanumeric`, documented as `is_alphabetic() || is_numeric()`.
#[verifier::external_body]
pub(crate) fn is_alphanumeric(c: char) -> (r: bool)
    ensures
        r == (alphabetic_char(c) || numeric_char(c)),
{
    c.is_alphanumeric()
}

/// Relies on `String::push`: appends one character at the end.
#[verifier::external_body]
pub(crate) fn push_char(s: &mut String, c: char)
    ensures
        final(s)@ == old(s)@.push(c),
{
    s.push(c)
}

/// A character that may begin a symbol: alphabetic, or an underscore.
pub open spec fn symbol_head(c: char) -> bool {
    alphabetic_char(c) || c == '_'
}

/// A character that may continue a symbol: alphanumeric, or an underscore.
pub open spec fn symbol_tail(c: char) -> bool {
    alphabetic_char(c) || numeric_char(c) || c == '_'
}

/// A character that may begin a number: numeric, or a minus sign.
pub open spec fn number_head(c: char) -> bool {
    numeric_char(c) || c == '-'
}

/// A character that may continue a number: numeric, a point, a minus sign or an exponent mark.
pub open spec fn number_tail(c: char) -> bool {
    numeric_char(c) || c == '.' || c == '-' || c == 'e' || c == 'E'
}

/// What an escape character inside a quoted string stands for.
pub open spec fn escaped(c: char) -> Option<char> {
    if c == '\\' {
        Some('\\')
    } else if c == 'n' {
        Some('\n')
    } else if c == 'r' {
        Some('\r')
    } else if c == '0' {
        Some('\0')
    } else if c == 't' {
        Some('\t')
    } else if c == '"' {
        Some('"')
    } else {
        None
    }
}

/// Whether `c` may continue a symbol.
pub fn is_symbol_tail(c: char) -> (r: bool)
    ensures
        r == symbol_tail(c),
{
    is_alphanumeric(c) || c == '_'
}

/// Whether `c` may continue a number.
pub fn is_number_tail(c: char) -> (r: bool)
    ensures
        r == number_tail(c),
{
    is_numeric(c) || c == '.' || c == '-' || c == 'e' || c == 'E'
}

/// The character that the escape character `c` stands for, if any.
pub fn escape_of(c: char) -> (r: Option<char>)
    ensures
        r == escaped(c),
{
    if c == '\\' {
        Some('\\')
    } else if c == 'n' {
        Some('\n')
    } else if c == 'r' {
        Some('\r')
    } else if c == '0' {
        Some('\0')
    } else if c == 't' {
        Some('\t')
    } else if c == '"' {
        Some('"')
    } else {
        None
    }
}

} // verus!
