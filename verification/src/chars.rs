//! The character classes the exposition format is built from.

use vstd::prelude::*;

verus! {

/// Space, tab, line feed or carriage return: separates tokens, is never one.
pub open spec fn blank(c: char) -> bool {
    c == ' ' || c == '\t' || c == '\n' || c == '\r'
}

/// An ASCII letter or the underscore.
pub open spec fn letter(c: char) -> bool {
    ('a' <= c && c <= 'z') || ('A' <= c && c <= 'Z') || c == '_'
}

/// An ASCII decimal digit.
pub open spec fn digit(c: char) -> bool {
    '0' <= c && c <= '9'
}

/// One of the six structural characters, each a token by itself.
pub open spec fn punct(c: char) -> bool {
    c == '=' || c == '{' || c == '}' || c == '"' || c == ',' || c == '.'
}

/// A character that ends whatever token stands before it.
pub open spec fn delimiter(c: char) -> bool {
    blank(c) || punct(c)
}

/// A character that belongs to no token shape.
pub open spec fn stray(c: char) -> bool {
    !blank(c) && !letter(c) && !digit(c) && !punct(c)
}

/// The value of a digit character.
pub open spec fn digit_value(c: char) -> nat {
    (c as nat - '0' as nat) as nat
}

/// The digit character for a value below ten.
pub open spec fn digit_char(d: nat) -> char {
    (d + '0' as nat) as char
}

/// The character that a byte stands for when read on its own.
pub open spec fn byte_char(b: u8) -> char {
    b as char
}

/// Every character of `text` is a digit.
pub open spec fn all_digits(text: Seq<char>) -> bool {
    forall|i: int| 0 <= i < text.len() ==> digit(#[trigger] text[i])
}

/// `text` is a letter followed by letters and digits.
pub open spec fn word(text: Seq<char>) -> bool {
    &&& text.len() > 0
    &&& letter(text[0])
    &&& forall|i: int| 0 <= i < text.len() ==> letter(#[trigger] text[i]) || digit(text[i])
}

} // verus!
