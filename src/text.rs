//! Characters and strings: the separator and trim sets, and the few std
//! character and string operations the tokenizer relies on.

use vstd::prelude::*;

verus! {

/// Characters that split a word into fragments.
pub open spec fn separator(c: char) -> bool {
    c == '(' || c == ')' || c == '[' || c == ']' || c == '{' || c == '}' || c == '<' || c == '>'
        || c == ',' || c == ';' || c == ':' || c == '.' || c == '!' || c == '?' || c == '"'
        || c == '\'' || c == '`' || c == ' ' || c == '\t' || c == '\n'
}

/// Characters stripped from both ends of a fragment.
pub open spec fn trimmer(c: char) -> bool {
    c == '_' || c == '-' || c == '=' || c == '+' || c == '*' || c == '/' || c == '\\' || c == '|'
        || c == '&' || c == '%' || c == '$' || c == '#' || c == '@' || c == '^' || c == '~'
        || c == ' '
}

pub fn is_separator(c: char) -> (r: bool)
    ensures
        r == separator(c),
{
    c == '(' || c == ')' || c == '[' || c == ']' || c == '{' || c == '}' || c == '<' || c == '>'
        || c == ',' || c == ';' || c == ':' || c == '.' || c == '!' || c == '?' || c == '"'
        || c == '\'' || c == '`' || c == ' ' || c == '\t' || c == '\n'
}

pub fn is_trimmer(c: char) -> (r: bool)
    ensures
        r == trimmer(c),
{
    c == '_' || c == '-' || c == '=' || c == '+' || c == '*' || c == '/' || c == '\\' || c == '|'
        || c == '&' || c == '%' || c == '$' || c == '#' || c == '@' || c == '^' || c == '~'
        || c == ' '
}

/// Whether `char::is_whitespace` holds of a character.
pub uninterp spec fn whitespace(c: char) -> bool;

/// Whether `char::is_numeric` holds of a character.
pub uninterp spec fn numeric(c: char) -> bool;

/// Relies on `char::is_whitespace`: Unicode `White_Space`, a property of the
/// character alone.
#[verifier::external_body]
pub(crate) fn is_whitespace(c: char) -> (r: bool)
    ensures
        r == whitespace(c),
{
    c.is_whitespace()
}

/// Relies on `char::is_numeric`: the general categories `Nd`, `Nl` and `No`,
/// which hold the ASCII digits.
#[verifier::external_body]
pub(crate) fn is_numeric(c: char) -> (r: bool)
    ensures
        r == numeric(c),
        '0' <= c <= '9' ==> r,
{
    c.is_numeric()
}

/// Relies on `str::chars`: the characters of a string, in order.
#[verifier::external_body]
pub(crate) fn chars_of(s: &str) -> (r: Vec<char>)
    ensures
        r@ == s@,
{
    s.chars().collect()
}

/// Relies on `String::push`: the character is appended.
#[verifier::external_body]
pub(crate) fn push_char(s: &mut String, c: char)
    ensures
        final(s)@ == old(s)@.push(c),
{
    s.push(c)
}

/// A string of the given characters.
pub fn string_of(v: &Vec<char>) -> (r: String)
    ensures
        r@ == v@,
{
    let mut r = String::new();
    let mut i: usize = 0;
    while i < v.len()
        invariant
            i <= v@.len(),
            r@ == v@.take(i as int),
        decreases v@.len() - i,
    {
        push_char(&mut r, v[i]);
        i = i + 1;
        assert(r@ =~= v@.take(i as int));
    }
    assert(v@.take(v@.len() as int) =~= v@);
    r
}

/// Number of bytes of a character in UTF-8.
pub open spec fn char_utf8_len(c: char) -> nat {
    if (c as u32) < 0x80 {
        1
    } else if (c as u32) < 0x800 {
        2
    } else if (c as u32) < 0x10000 {
        3
    } else {
        4
    }
}

/// Number of bytes of a character sequence in UTF-8.
pub open spec fn utf8_len(s: Seq<char>) -> nat
    decreases s.len(),
{
    if s.len() == 0 {
        0
    } else {
        utf8_len(s.drop_last()) + char_utf8_len(s.last())
    }
}

pub fn char_len_utf8(c: char) -> (r: u8)
    ensures
        r as nat == char_utf8_len(c),
{
    let u = c as u32;
    if u < 0x80 {
        1
    } else if u < 0x800 {
        2
    } else if u < 0x10000 {
        3
    } else {
        4
    }
}

} // verus!
