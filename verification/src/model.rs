//! The mathematical model of the tokenizer.
//!
//! A token sequence is a `Seq<TokenView>`. Reading one character changes only
//! the end of the sequence: [`advance`] says what the last token turns into,
//! and [`step`] puts that in the last token's place. [`scan`] reads a whole
//! text this way, [`finish`] settles the last token and removes the whitespace
//! markers, and [`lex`] is the two together.

use vstd::prelude::*;
use crate::chars::{class_of, CharClass};

verus! {

/// What a token is, with its text as a sequence of characters.
pub enum TokenView {
    LParen,
    RParen,
    Identifier(Seq<char>),
    Annotation(Seq<char>),
    Instruction(Seq<char>),
    /// The text holds the quotes. `escape_next_char` says that the text ends in
    /// a backslash that is not itself escaped; `last_char_escaped` says that
    /// the last character of the text stands behind such a backslash.
    StringLiteral { text: Seq<char>, escape_next_char: bool, last_char_escaped: bool },
    /// The flags say how much of the number grammar the text has used up.
    NumberLiteral {
        text: Seq<char>,
        hex: bool,
        dec_point: bool,
        exponent: bool,
        last_char_is_exponent: bool,
        signed: bool,
    },
    /// A line comment has depth 0; a block comment counts its open `(;`.
    Comment { text: Seq<char>, multiline: bool, nested_level: int },
    Reserved(Seq<char>),
    /// A run of whitespace, or an empty marker that ends the token before it.
    Space(Seq<char>),
}

impl TokenView {
    /// The characters of the source that the token stands for.
    pub open spec fn text(self) -> Seq<char> {
        match self {
            TokenView::LParen => seq!['('],
            TokenView::RParen => seq![')'],
            TokenView::Identifier(text) => text,
            TokenView::Annotation(text) => text,
            TokenView::Instruction(text) => text,
            TokenView::StringLiteral { text, .. } => text,
            TokenView::NumberLiteral { text, .. } => text,
            TokenView::Comment { text, .. } => text,
            TokenView::Reserved(text) => text,
            TokenView::Space(text) => text,
        }
    }

    /// The same kind of token, with the same flags, over another text. A
    /// parenthesis has no text of its own and stays as it is.
    pub open spec fn with_text(self, text: Seq<char>) -> TokenView {
        match self {
            TokenView::LParen => self,
            TokenView::RParen => self,
            TokenView::Identifier(_) => TokenView::Identifier(text),
            TokenView::Annotation(_) => TokenView::Annotation(text),
            TokenView::Instruction(_) => TokenView::Instruction(text),
            TokenView::StringLiteral { escape_next_char, last_char_escaped, .. } => {
                TokenView::StringLiteral { text, escape_next_char, last_char_escaped }
            },
            TokenView::NumberLiteral {
                hex,
                dec_point,
                exponent,
                last_char_is_exponent,
                signed,
                ..
            } => TokenView::NumberLiteral {
                text,
                hex,
                dec_point,
                exponent,
                last_char_is_exponent,
                signed,
            },
            TokenView::Comment { multiline, nested_level, .. } => {
                TokenView::Comment { text, multiline, nested_level }
            },
            TokenView::Reserved(_) => TokenView::Reserved(text),
            TokenView::Space(_) => TokenView::Space(text),
        }
    }

    /// Identifier, annotation, instruction or reserved: the tokens that take
    /// up any character a word may hold.
    pub open spec fn is_word(self) -> bool {
        self is Identifier || self is Annotation || self is Instruction || self is Reserved
    }

    /// Whitespace or a parenthesis: what a new token may follow directly.
    pub open spec fn is_boundary(self) -> bool {
        self is Space || self is LParen || self is RParen
    }
}

/// The empty whitespace marker. It stands for the start of the text, and it is
/// put behind a string or block comment that has just been closed, so that
/// nothing can be added to that token.
pub open spec fn marker() -> TokenView {
    TokenView::Space(Seq::empty())
}

/// A number with no flag set.
pub open spec fn plain_number(text: Seq<char>) -> TokenView {
    TokenView::NumberLiteral {
        text,
        hex: false,
        dec_point: false,
        exponent: false,
        last_char_is_exponent: false,
        signed: false,
    }
}

/// A string that holds its opening quote and nothing else.
pub open spec fn fresh_string() -> TokenView {
    TokenView::StringLiteral {
        text: seq!['"'],
        escape_next_char: false,
        last_char_escaped: false,
    }
}

/// `text` reads `nan` or `inf`, in any mix of cases.
pub open spec fn is_nan_or_inf(text: Seq<char>) -> bool {
    &&& text.len() == 3
    &&& {
        ||| (text[0] == 'n' || text[0] == 'N') && (text[1] == 'a' || text[1] == 'A') && (text[2]
            == 'n' || text[2] == 'N')
        ||| (text[0] == 'i' || text[0] == 'I') && (text[1] == 'n' || text[1] == 'N') && (text[2]
            == 'f' || text[2] == 'F')
    }
}

/// `text` reads `+inf` or `-inf`, in any mix of cases.
pub open spec fn is_signed_inf(text: Seq<char>) -> bool {
    &&& text.len() == 4
    &&& (text[0] == '+' || text[0] == '-')
    &&& (text[1] == 'i' || text[1] == 'I')
    &&& (text[2] == 'n' || text[2] == 'N')
    &&& (text[3] == 'f' || text[3] == 'F')
}

/// The text of a string ends in a quote that no backslash escapes.
pub open spec fn ends_unescaped(text: Seq<char>, last_char_escaped: bool) -> bool {
    text.len() > 0 && text.last() == '"' && !last_char_escaped
}

/// What a token becomes at the moment it is closed. An instruction that reads
/// `nan` or `inf` and a reserved token that reads `+inf` or `-inf` become
/// numbers with no flag set; a string that does not end in an unescaped quote
/// becomes a reserved token. Every other token stays as it is, and the text
/// never changes.
pub open spec fn reclassify(token: TokenView) -> TokenView {
    match token {
        TokenView::Instruction(text) => if is_nan_or_inf(text) {
            plain_number(text)
        } else {
            token
        },
        TokenView::Reserved(text) => if is_signed_inf(text) {
            plain_number(text)
        } else {
            token
        },
        TokenView::StringLiteral { text, last_char_escaped, .. } => if ends_unescaped(
            text,
            last_char_escaped,
        ) {
            token
        } else {
            TokenView::Reserved(text)
        },
        _ => token,
    }
}

/// The token that `ch` opens when it follows whitespace or a parenthesis.
pub open spec fn opening(ch: char) -> TokenView {
    match class_of(ch) {
        CharClass::Blank => TokenView::Space(seq![ch]),
        CharClass::Open => TokenView::LParen,
        CharClass::Close => TokenView::RParen,
        CharClass::At => TokenView::Annotation(seq![ch]),
        CharClass::Dollar => TokenView::Identifier(seq![ch]),
        CharClass::Quote => fresh_string(),
        CharClass::Digit => plain_number(seq![ch]),
        CharClass::Sign => TokenView::NumberLiteral {
            text: seq![ch],
            hex: false,
            dec_point: false,
            exponent: false,
            last_char_is_exponent: false,
            signed: true,
        },
        CharClass::HexMark
        | CharClass::DecExponent
        | CharClass::HexExponent
        | CharClass::HexLetter
        | CharClass::Letter => TokenView::Instruction(seq![ch]),
        CharClass::Semicolon
        | CharClass::Dot
        | CharClass::Backslash
        | CharClass::Underscore
        | CharClass::Punct
        | CharClass::Other => TokenView::Reserved(seq![ch]),
    }
}

/// `last` is closed and `next` is opened behind it.
pub open spec fn closed_then(last: TokenView, next: TokenView) -> Seq<TokenView> {
    seq![reclassify(last), next]
}

/// Whitespace or a parenthesis, followed by `ch`. Whitespace takes up more
/// whitespace, `(` and `;` together open a block comment of depth 1, and
/// everything else opens a token of its own.
pub open spec fn advance_boundary(last: TokenView, ch: char) -> Seq<TokenView> {
    match class_of(ch) {
        CharClass::Blank => if last is Space {
            seq![TokenView::Space(last.text().push(ch))]
        } else {
            seq![last, opening(ch)]
        },
        CharClass::Semicolon => if last is LParen {
            seq![TokenView::Comment { text: seq!['(', ';'], multiline: true, nested_level: 1 }]
        } else {
            seq![last, opening(ch)]
        },
        _ => seq![last, opening(ch)],
    }
}

/// An identifier, annotation, instruction or reserved token, followed by `ch`.
/// Whitespace, a parenthesis, a quote and `;` end the word, and a second `;`
/// behind a lone `;` opens a line comment. A character of class `Other` leaves
/// a reserved token, whatever the word was; any other character is taken up.
pub open spec fn advance_word(last: TokenView, ch: char) -> Seq<TokenView> {
    let text = last.text();
    match class_of(ch) {
        CharClass::Blank | CharClass::Open | CharClass::Close | CharClass::Quote => closed_then(
            last,
            opening(ch),
        ),
        CharClass::Semicolon => if last is Reserved && text.len() == 1 && text[0] == ';' {
            seq![TokenView::Comment { text: seq![';', ';'], multiline: false, nested_level: 0 }]
        } else {
            closed_then(last, opening(ch))
        },
        CharClass::Other => seq![TokenView::Reserved(text.push(ch))],
        _ => seq![last.with_text(text.push(ch))],
    }
}

/// The text of a number is a lone `0`, behind the sign if the number has one:
/// the only place where `x` may follow.
pub open spec fn is_lone_zero(text: Seq<char>, signed: bool) -> bool {
    if signed {
        text.len() == 2 && text[1] == '0'
    } else {
        text.len() == 1 && text[0] == '0'
    }
}

/// A number, followed by `ch`. A character that the number grammar allows at
/// this point is taken up and the flags follow; one that it does not allow,
/// but that a word may hold, is taken up too and leaves a reserved token with
/// the whole text. The rest end the number and open a token of their own, a
/// reserved one for `@`, `$`, `;` and the class `Other`.
pub open spec fn advance_number(
    text: Seq<char>,
    hex: bool,
    dec_point: bool,
    exponent: bool,
    last_char_is_exponent: bool,
    signed: bool,
    ch: char,
) -> Seq<TokenView> {
    let last = TokenView::NumberLiteral {
        text,
        hex,
        dec_point,
        exponent,
        last_char_is_exponent,
        signed,
    };
    let grown = text.push(ch);
    let merged = seq![TokenView::Reserved(grown)];
    match class_of(ch) {
        CharClass::Blank | CharClass::Open | CharClass::Close | CharClass::Quote => seq![
            last,
            opening(ch),
        ],
        CharClass::At | CharClass::Dollar | CharClass::Semicolon | CharClass::Other => seq![
            last,
            TokenView::Reserved(seq![ch]),
        ],
        CharClass::HexMark => if !hex && is_lone_zero(text, signed) {
            seq![
                TokenView::NumberLiteral {
                    text: grown,
                    hex: true,
                    dec_point,
                    exponent,
                    last_char_is_exponent,
                    signed,
                },
            ]
        } else {
            merged
        },
        CharClass::Dot => if !dec_point && !exponent {
            seq![
                TokenView::NumberLiteral {
                    text: grown,
                    hex,
                    dec_point: true,
                    exponent,
                    last_char_is_exponent,
                    signed,
                },
            ]
        } else {
            merged
        },
        CharClass::Digit => seq![
            TokenView::NumberLiteral {
                text: grown,
                hex,
                dec_point,
                exponent,
                last_char_is_exponent: false,
                signed,
            },
        ],
        CharClass::DecExponent => if hex {
            seq![last.with_text(grown)]
        } else if !exponent {
            seq![
                TokenView::NumberLiteral {
                    text: grown,
                    hex,
                    dec_point,
                    exponent: true,
                    last_char_is_exponent: true,
                    signed,
                },
            ]
        } else {
            merged
        },
        CharClass::HexExponent => if hex && !exponent {
            seq![
                TokenView::NumberLiteral {
                    text: grown,
                    hex,
                    dec_point,
                    exponent: true,
                    last_char_is_exponent: true,
                    signed,
                },
            ]
        } else {
            merged
        },
        CharClass::HexLetter => if hex {
            seq![
                TokenView::NumberLiteral {
                    text: grown,
                    hex,
                    dec_point,
                    exponent,
                    last_char_is_exponent: false,
                    signed,
                },
            ]
        } else {
            merged
        },
        CharClass::Sign => if exponent && last_char_is_exponent {
            seq![
                TokenView::NumberLiteral {
                    text: grown,
                    hex,
                    dec_point,
                    exponent,
                    last_char_is_exponent: false,
                    signed,
                },
            ]
        } else {
            merged
        },
        CharClass::Underscore => if last_char_is_exponent || (signed && text.len() == 1) {
            merged
        } else {
            seq![last.with_text(grown)]
        },
        CharClass::Letter | CharClass::Backslash | CharClass::Punct => merged,
    }
}

/// The text of a block comment ends in `;` that is not the `;` of an opening
/// `(;`, so that a `)` behind it closes one level.
pub open spec fn ends_in_closer(text: Seq<char>) -> bool {
    text.len() >= 2 && text[text.len() - 1] == ';' && text[text.len() - 2] != '('
}

/// A comment, followed by `ch`. The comment takes up every character but a
/// quote, which opens a string behind it, and a character of class `Other`,
/// which leaves a reserved token with the whole text. In a block comment `;`
/// behind `(` opens one more level, `)` behind a closing `;` closes one, and
/// at depth 0 the comment is over: a marker is put behind it.
pub open spec fn advance_comment(
    text: Seq<char>,
    multiline: bool,
    nested_level: int,
    ch: char,
) -> Seq<TokenView> {
    let grown = text.push(ch);
    match class_of(ch) {
        CharClass::Quote => seq![
            TokenView::Comment { text, multiline, nested_level },
            fresh_string(),
        ],
        CharClass::Other => seq![TokenView::Reserved(grown)],
        CharClass::Semicolon => {
            let depth = if multiline && text.len() > 0 && text.last() == '(' {
                nested_level + 1
            } else {
                nested_level
            };
            seq![TokenView::Comment { text: grown, multiline, nested_level: depth }]
        },
        CharClass::Close => if multiline {
            let depth = if ends_in_closer(text) {
                nested_level - 1
            } else {
                nested_level
            };
            let comment = TokenView::Comment { text: grown, multiline, nested_level: depth };
            if depth == 0 {
                seq![comment, marker()]
            } else {
                seq![comment]
            }
        } else {
            seq![TokenView::Comment { text: grown, multiline, nested_level }]
        },
        _ => seq![TokenView::Comment { text: grown, multiline, nested_level }],
    }
}

/// An open string, followed by `ch`. The string takes up every character. The
/// character is escaped when the text before it ends in an unescaped
/// backslash, and only a backslash that is not escaped escapes what follows.
/// A quote that is not escaped closes the string: a marker is put behind it.
pub open spec fn advance_string(text: Seq<char>, escape_next_char: bool, ch: char) -> Seq<
    TokenView,
> {
    let string = TokenView::StringLiteral {
        text: text.push(ch),
        escape_next_char: class_of(ch) is Backslash && !escape_next_char,
        last_char_escaped: escape_next_char,
    };
    if class_of(ch) is Quote && !escape_next_char {
        seq![string, marker()]
    } else {
        seq![string]
    }
}

/// What the last token of a sequence turns into when `ch` is read: one token
/// where `ch` is taken up, two where `ch` ends the token.
pub open spec fn advance(last: TokenView, ch: char) -> Seq<TokenView> {
    match last {
        TokenView::StringLiteral { text, escape_next_char, .. } => advance_string(
            text,
            escape_next_char,
            ch,
        ),
        TokenView::Comment { text, multiline, nested_level } => advance_comment(
            text,
            multiline,
            nested_level,
            ch,
        ),
        TokenView::NumberLiteral {
            text,
            hex,
            dec_point,
            exponent,
            last_char_is_exponent,
            signed,
        } => advance_number(text, hex, dec_point, exponent, last_char_is_exponent, signed, ch),
        TokenView::Identifier(_)
        | TokenView::Annotation(_)
        | TokenView::Instruction(_)
        | TokenView::Reserved(_) => advance_word(last, ch),
        TokenView::Space(_) | TokenView::LParen | TokenView::RParen => advance_boundary(last, ch),
    }
}

/// The last token of a sequence, or the empty marker where there is none.
pub open spec fn current(tokens: Seq<TokenView>) -> TokenView {
    if tokens.len() == 0 {
        marker()
    } else {
        tokens.last()
    }
}

/// The tokens before the last one.
pub open spec fn settled(tokens: Seq<TokenView>) -> Seq<TokenView> {
    if tokens.len() == 0 {
        tokens
    } else {
        tokens.drop_last()
    }
}

/// The sequence after `ch` has been read: only its last token changes.
pub open spec fn step(tokens: Seq<TokenView>, ch: char) -> Seq<TokenView> {
    settled(tokens) + advance(current(tokens), ch)
}

/// The sequence after every character of `text` has been read in order,
/// starting from `tokens`.
pub open spec fn scan_from(tokens: Seq<TokenView>, text: Seq<char>) -> Seq<TokenView>
    decreases text.len(),
{
    if text.len() == 0 {
        tokens
    } else {
        step(scan_from(tokens, text.drop_last()), text.last())
    }
}

/// The sequence that reading `src` from the start leaves, whitespace markers
/// included and the last token still open.
pub open spec fn scan(src: Seq<char>) -> Seq<TokenView> {
    scan_from(Seq::empty(), src)
}

/// The sequence with its last token closed.
pub open spec fn close_last(tokens: Seq<TokenView>) -> Seq<TokenView> {
    if tokens.len() == 0 {
        tokens
    } else {
        tokens.update(tokens.len() - 1, reclassify(tokens.last()))
    }
}

/// The sequence without its whitespace tokens.
pub open spec fn strip(tokens: Seq<TokenView>) -> Seq<TokenView> {
    tokens.filter(|t: TokenView| !(t is Space))
}

/// The end of the input: the last token is closed and the whitespace goes.
pub open spec fn finish(tokens: Seq<TokenView>) -> Seq<TokenView> {
    strip(close_last(tokens))
}

/// The tokens of `src`.
pub open spec fn lex(src: Seq<char>) -> Seq<TokenView> {
    finish(scan(src))
}

/// The texts of `tokens` in order, one behind the other.
pub open spec fn concat(tokens: Seq<TokenView>) -> Seq<char>
    decreases tokens.len(),
{
    if tokens.len() == 0 {
        Seq::empty()
    } else {
        concat(tokens.drop_last()) + tokens.last().text()
    }
}

/// The texts of `tokens` in order, with one space between each two.
pub open spec fn spaced(tokens: Seq<TokenView>) -> Seq<char>
    decreases tokens.len(),
{
    if tokens.len() == 0 {
        Seq::empty()
    } else if tokens.len() == 1 {
        tokens[0].text()
    } else {
        spaced(tokens.drop_last()) + seq![' '] + tokens.last().text()
    }
}

} // verus!
