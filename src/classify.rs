//! Character classes of the lexical grammar. Each byte of the source is one
//! character; the classes are those of ASCII, so a byte above 127 belongs to
//! none of them.
use vstd::prelude::*;

verus! {

/// The character that one byte of the source stands for: bytes are read
/// one for one, with no multi-byte decoding.
pub open spec fn byte_char(b: u8) -> char {
    b as char
}

/// The characters of a byte sequence, one per byte.
pub open spec fn chars_of(bytes: Seq<u8>) -> Seq<char> {
    bytes.map_values(|b: u8| byte_char(b))
}

/// An ASCII decimal digit.
pub open spec fn digit(c: char) -> bool {
    '0' <= c && c <= '9'
}

/// An ASCII letter.
pub open spec fn letter(c: char) -> bool {
    ('a' <= c && c <= 'z') || ('A' <= c && c <= 'Z')
}

/// A letter or a digit.
pub open spec fn alphanumeric(c: char) -> bool {
    letter(c) || digit(c)
}

/// Space, tab, and the line terminators (line feed, vertical tab, form
/// feed, carriage return).
pub open spec fn whitespace(c: char) -> bool {
    c == ' ' || ('\t' <= c && c <= '\r')
}

/// The character that ends a line and resets the column counter.
pub open spec fn line_end(c: char) -> bool {
    c == '\n'
}

/// The numeric value of a digit character.
pub open spec fn digit_value(c: char) -> nat {
    (c as u32 - '0' as u32) as nat
}

/// The value of a run of decimal digits, most significant first.
pub open spec fn digits_value(s: Seq<char>) -> nat
    decreases s.len(),
{
    if s.len() == 0 {
        0
    } else {
        10 * digits_value(s.drop_last()) + digit_value(s.last())
    }
}

pub fn to_char(b: u8) -> (c: char)
    ensures
        c == byte_char(b),
{
    b as char
}

pub fn is_digit(c: char) -> (r: bool)
    ensures
        r == digit(c),
{
    '0' <= c && c <= '9'
}

pub fn is_alphanumeric(c: char) -> (r: bool)
    ensures
        r == alphanumeric(c),
{
    ('a' <= c && c <= 'z') || ('A' <= c && c <= 'Z') || ('0' <= c && c <= '9')
}

pub fn is_whitespace(c: char) -> (r: bool)
    ensures
        r == whitespace(c),
{
    c == ' ' || ('\t' <= c && c <= '\r')
}

pub fn is_end_of_line(c: char) -> (r: bool)
    ensures
        r == line_end(c),
{
    c == '\n'
}

pub fn to_digit(c: char) -> (d: u64)
    requires
        digit(c),
    ensures
        d == digit_value(c),
        d <= 9,
{
    (c as u32 - '0' as u32) as u64
}

} // verus!
