//! Small trusted bridges to character operations of the standard library
//! that vstd gives no specification: building a `char` from its scalar
//! value, the Unicode character classes the word motions rely on, and
//! appending one character to a `String`.

use vstd::prelude::*;

verus! {

use vstd::utf8::is_scalar;

/// What `char::is_whitespace` returns; a fixed function of the character
/// (the Unicode `White_Space` property).
pub uninterp spec fn is_whitespace_char(c: char) -> bool;

/// What `char::is_alphanumeric` returns; a fixed function of the character
/// (the Unicode letter and number categories).
pub uninterp spec fn is_alphanumeric_char(c: char) -> bool;

/// Relies on char::from_u32: returns Some exactly on Unicode scalar values,
/// and the returned character has the given scalar value.
#[verifier::external_body]
pub fn char_from_u32(v: u32) -> (r: Option<char>)
    ensures
        (r is Some) <==> is_scalar(v),
        r matches Some(c) ==> c as u32 == v,
{
    char::from_u32(v)
}

/// Relies on char::is_whitespace: a pure predicate of the character.  Space,
/// tab, line feed and carriage return are documented as whitespace; ASCII
/// letters, digits and the underscore are not.
#[verifier::external_body]
pub fn is_whitespace(c: char) -> (r: bool)
    ensures
        r == is_whitespace_char(c),
        (c == ' ' || c == '\t' || c == '\n' || c == '\r') ==> r,
        ('0' <= c <= '9' || 'a' <= c <= 'z' || 'A' <= c <= 'Z' || c == '_') ==> !r,
{
    c.is_whitespace()
}

/// Relies on char::is_alphanumeric: a pure predicate of the character.
/// ASCII letters and digits are documented as alphanumeric; whitespace and
/// ASCII punctuation are not.
#[verifier::external_body]
pub fn is_alphanumeric(c: char) -> (r: bool)
    ensures
        r == is_alphanumeric_char(c),
        ('0' <= c <= '9' || 'a' <= c <= 'z' || 'A' <= c <= 'Z') ==> r,
        (c == ' ' || c == '\t' || c == '\n' || c == '\r') ==> !r,
        ('!' <= c <= '/' || ':' <= c <= '@' || '[' <= c <= '`' || '{' <= c <= '~') ==> !r,
{
    c.is_alphanumeric()
}

/// Relies on String::push: appends exactly the given character.
#[verifier::external_body]
pub fn push_char(s: &mut String, c: char)
    ensures
        final(s)@ == old(s)@ + seq![c],
{
    s.push(c);
}

} // verus!
