//! Character classes: the only thing about a character that the tokenizer's
//! rules depend on.

use vstd::prelude::*;

verus! {

/// The class of one input character.
#[derive(Clone, Copy, Debug, PartialEq, Eq, Structural)]
pub enum CharClass {
    /// Tab, line feed, carriage return or space.
    Blank,
    /// `(`
    Open,
    /// `)`
    Close,
    /// `@`
    At,
    /// `$`
    Dollar,
    /// `;`
    Semicolon,
    /// `x` or `X`, which may turn a leading `0` into a hexadecimal prefix.
    HexMark,
    /// `.`
    Dot,
    /// `"`
    Quote,
    /// `0` to `9`.
    Digit,
    /// `e` or `E`: the exponent marker of a decimal number, a digit of a
    /// hexadecimal one.
    DecExponent,
    /// `p` or `P`: the exponent marker of a hexadecimal number.
    HexExponent,
    /// `a` to `f` in either case, without `e`.
    HexLetter,
    /// The other ASCII letters: `g` to `z` in either case, without `p` and `x`.
    Letter,
    /// `\`
    Backslash,
    /// `+` or `-`.
    Sign,
    /// `_`
    Underscore,
    /// One of ``! # % & ' * / : < = > ? ^ ` | ~``.
    Punct,
    /// Anything else: the remaining ASCII characters and all of non-ASCII.
    Other,
}

/// The class that a character belongs to.
pub open spec fn class_of(ch: char) -> CharClass {
    if ch == '\t' || ch == '\n' || ch == '\r' || ch == ' ' {
        CharClass::Blank
    } else if ch == '(' {
        CharClass::Open
    } else if ch == ')' {
        CharClass::Close
    } else if ch == '@' {
        CharClass::At
    } else if ch == '$' {
        CharClass::Dollar
    } else if ch == ';' {
        CharClass::Semicolon
    } else if ch == 'x' || ch == 'X' {
        CharClass::HexMark
    } else if ch == '.' {
        CharClass::Dot
    } else if ch == '"' {
        CharClass::Quote
    } else if '0' <= ch <= '9' {
        CharClass::Digit
    } else if ch == 'e' || ch == 'E' {
        CharClass::DecExponent
    } else if ch == 'p' || ch == 'P' {
        CharClass::HexExponent
    } else if 'a' <= ch <= 'f' || 'A' <= ch <= 'F' {
        CharClass::HexLetter
    } else if 'g' <= ch <= 'z' || 'G' <= ch <= 'Z' {
        CharClass::Letter
    } else if ch == '\\' {
        CharClass::Backslash
    } else if ch == '+' || ch == '-' {
        CharClass::Sign
    } else if ch == '_' {
        CharClass::Underscore
    } else if is_punct(ch) {
        CharClass::Punct
    } else {
        CharClass::Other
    }
}

/// The ASCII punctuation that may stand inside a word but opens none of the
/// structured tokens.
pub open spec fn is_punct(ch: char) -> bool {
    ch == '!' || ch == '#' || ch == '%' || ch == '&' || ch == '\'' || ch == '*' || ch == '/'
        || ch == ':' || ch == '<' || ch == '=' || ch == '>' || ch == '?' || ch == '^' || ch == '`'
        || ch == '|' || ch == '~'
}

/// Tells the class of `ch`.
pub fn classify(ch: char) -> (class: CharClass)
    ensures
        class == class_of(ch),
{
    if ch == '\t' || ch == '\n' || ch == '\r' || ch == ' ' {
        CharClass::Blank
    } else if ch == '(' {
        CharClass::Open
    } else if ch == ')' {
        CharClass::Close
    } else if ch == '@' {
        CharClass::At
    } else if ch == '$' {
        CharClass::Dollar
    } else if ch == ';' {
        CharClass::Semicolon
    } else if ch == 'x' || ch == 'X' {
        CharClass::HexMark
    } else if ch == '.' {
        CharClass::Dot
    } else if ch == '"' {
        CharClass::Quote
    } else if '0' <= ch && ch <= '9' {
        CharClass::Digit
    } else if ch == 'e' || ch == 'E' {
        CharClass::DecExponent
    } else if ch == 'p' || ch == 'P' {
        CharClass::HexExponent
    } else if ('a' <= ch && ch <= 'f') || ('A' <= ch && ch <= 'F') {
        CharClass::HexLetter
    } else if ('g' <= ch && ch <= 'z') || ('G' <= ch && ch <= 'Z') {
        CharClass::Letter
    } else if ch == '\\' {
        CharClass::Backslash
    } else if ch == '+' || ch == '-' {
        CharClass::Sign
    } else if ch == '_' {
        CharClass::Underscore
    } else if ch == '!' || ch == '#' || ch == '%' || ch == '&' || ch == '\'' || ch == '*'
        || ch == '/' || ch == ':' || ch == '<' || ch == '=' || ch == '>' || ch == '?' || ch == '^'
        || ch == '`' || ch == '|' || ch == '~' {
        CharClass::Punct
    } else {
        CharClass::Other
    }
}

} // verus!
