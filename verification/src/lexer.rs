//! The tokenizer: the token type, the scanner that reads one character at a
//! time, and the token list that a whole source text gives.

use vstd::prelude::*;
use vstd::std_specs::convert::FromSpecImpl;
use vstd::string::StrSliceExecFns;
use crate::chars::{class_of, classify, CharClass};
use crate::model;
use crate::model::TokenView;
use crate::text::{byte_len, pair, single};

verus! {

/// One classified piece of the source text.
#[derive(Debug, PartialEq, Eq, Clone)]
pub enum Token {
    LParen,
    RParen,
    Identifier(String),
    Annotation(String),
    Instruction(String),
    /// The string holds the quotes and the escapes as they were written.
    StringLiteral { string: String, escape_next_char: bool, last_char_escaped: bool },
    /// The string is the number as it was written.
    NumberLiteral {
        string: String,
        hex: bool,
        dec_point: bool,
        exponent: bool,
        last_char_is_exponent: bool,
        signed: bool,
    },
    Comment { string: String, multiline: bool, nested_level: i64 },
    /// Text that fits no other kind.
    Reserved(String),
    /// Whitespace, or an empty marker behind a closed string or comment. A
    /// finished token list holds none.
    Space(String),
}

impl View for Token {
    type V = TokenView;

    open spec fn view(&self) -> TokenView {
        match self {
            Token::LParen => TokenView::LParen,
            Token::RParen => TokenView::RParen,
            Token::Identifier(string) => TokenView::Identifier(string@),
            Token::Annotation(string) => TokenView::Annotation(string@),
            Token::Instruction(string) => TokenView::Instruction(string@),
            Token::StringLiteral { string, escape_next_char, last_char_escaped } => {
                TokenView::StringLiteral {
                    text: string@,
                    escape_next_char: *escape_next_char,
                    last_char_escaped: *last_char_escaped,
                }
            },
            Token::NumberLiteral {
                string,
                hex,
                dec_point,
                exponent,
                last_char_is_exponent,
                signed,
            } => TokenView::NumberLiteral {
                text: string@,
                hex: *hex,
                dec_point: *dec_point,
                exponent: *exponent,
                last_char_is_exponent: *last_char_is_exponent,
                signed: *signed,
            },
            Token::Comment { string, multiline, nested_level } => TokenView::Comment {
                text: string@,
                multiline: *multiline,
                nested_level: *nested_level as int,
            },
            Token::Reserved(string) => TokenView::Reserved(string@),
            Token::Space(string) => TokenView::Space(string@),
        }
    }
}

/// The views of `tokens`, in the same order.
pub open spec fn views(tokens: Seq<Token>) -> Seq<TokenView> {
    tokens.map_values(|t: Token| t@)
}

/// `s` reads `nan` or `inf`, in any mix of cases.
fn reads_nan_or_inf(s: &String) -> (b: bool)
    ensures
        b == model::is_nan_or_inf(s@),
{
    let text = s.as_str();
    if text.unicode_len() != 3 {
        return false;
    }
    let a = text.get_char(0);
    let b = text.get_char(1);
    let c = text.get_char(2);
    ((a == 'n' || a == 'N') && (b == 'a' || b == 'A') && (c == 'n' || c == 'N')) || ((a == 'i' || a
        == 'I') && (b == 'n' || b == 'N') && (c == 'f' || c == 'F'))
}

/// `s` reads `+inf` or `-inf`, in any mix of cases.
fn reads_signed_inf(s: &String) -> (b: bool)
    ensures
        b == model::is_signed_inf(s@),
{
    let text = s.as_str();
    if text.unicode_len() != 4 {
        return false;
    }
    let sign = text.get_char(0);
    let a = text.get_char(1);
    let b = text.get_char(2);
    let c = text.get_char(3);
    (sign == '+' || sign == '-') && (a == 'i' || a == 'I') && (b == 'n' || b == 'N') && (c == 'f'
        || c == 'F')
}

/// `s` ends in a quote, and `last_char_escaped` does not say that it is
/// escaped.
fn string_is_closed(s: &String, last_char_escaped: bool) -> (b: bool)
    ensures
        b == model::ends_unescaped(s@, last_char_escaped),
{
    let text = s.as_str();
    let n: usize = text.unicode_len();
    n > 0 && !last_char_escaped && text.get_char(n - 1) == '"'
}

/// Settles what a token is at the moment it is closed: `nan`, `inf`, `+inf`
/// and `-inf` become numbers, and a string that no unescaped quote ends
/// becomes a reserved token. The text of the token is kept.
pub fn reclassify(token: Token) -> (closed: Token)
    ensures
        closed@ == model::reclassify(token@),
{
    match token {
        Token::Instruction(string) => {
            if reads_nan_or_inf(&string) {
                Token::NumberLiteral {
                    string,
                    hex: false,
                    dec_point: false,
                    exponent: false,
                    last_char_is_exponent: false,
                    signed: false,
                }
            } else {
                Token::Instruction(string)
            }
        },
        Token::Reserved(string) => {
            if reads_signed_inf(&string) {
                Token::NumberLiteral {
                    string,
                    hex: false,
                    dec_point: false,
                    exponent: false,
                    last_char_is_exponent: false,
                    signed: false,
                }
            } else {
                Token::Reserved(string)
            }
        },
        Token::StringLiteral { string, escape_next_char, last_char_escaped } => {
            if string_is_closed(&string, last_char_escaped) {
                Token::StringLiteral { string, escape_next_char, last_char_escaped }
            } else {
                Token::Reserved(string)
            }
        },
        other => other,
    }
}

/// Removes the whitespace tokens and keeps the others in their order.
pub fn strip(tokens: Vec<Token>) -> (kept: Vec<Token>)
    ensures
        views(kept@) == model::strip(views(tokens@)),
        forall|i: int| 0 <= i < kept@.len() ==> !(#[trigger] kept@[i] is Space),
{
    let ghost all = tokens@;
    let ghost keep = |t: TokenView| !(t is Space);
    let mut kept: Vec<Token> = Vec::new();
    proof {
        reveal(Seq::filter);
        assert(views(all.take(0)) =~= Seq::<TokenView>::empty());
        assert(views(kept@) =~= Seq::<TokenView>::empty());
    }
    for token in it: tokens
        invariant
            it.seq() == all,
            keep == |t: TokenView| !(t is Space),
            views(kept@) == views(all.take(it.index() as int)).filter(keep),
            forall|i: int| 0 <= i < kept@.len() ==> !(#[trigger] kept@[i] is Space),
    {
        let ghost i = it.index() as int;
        let ghost before = views(kept@);
        proof {
            assert(views(all.take(i + 1)) =~= views(all.take(i)).push(token@));
            views(all.take(i)).lemma_filter_push(token@, keep);
        }
        match token {
            Token::Space(_) => {},
            other => {
                kept.push(other);
                assert(views(kept@) =~= before.push(token@));
            },
        }
    }
    proof {
        assert(all.take(all.len() as int) =~= all);
    }
    kept
}

/// The end of the text of the last token: how long the text is, up to 3, and
/// its last two characters. This is all that reading one more character needs
/// to know of the text.
#[derive(Clone, Copy)]
struct Tail {
    len: u8,
    last: char,
    prev: char,
}

impl Tail {
    spec fn describes(self, text: Seq<char>) -> bool {
        &&& self.len as int == if text.len() < 3 {
            text.len() as int
        } else {
            3
        }
        &&& text.len() >= 1 ==> self.last == text[text.len() - 1]
        &&& text.len() >= 2 ==> self.prev == text[text.len() - 2]
    }

    fn empty() -> (tail: Tail)
        ensures
            tail.describes(Seq::empty()),
    {
        Tail { len: 0, last: ' ', prev: ' ' }
    }

    fn one(ch: char) -> (tail: Tail)
        ensures
            tail.describes(seq![ch]),
    {
        Tail { len: 1, last: ch, prev: ' ' }
    }

    fn two(first: char, second: char) -> (tail: Tail)
        ensures
            tail.describes(seq![first, second]),
    {
        Tail { len: 2, last: second, prev: first }
    }

    fn push(self, ch: char, Ghost(text): Ghost<Seq<char>>) -> (tail: Tail)
        requires
            self.describes(text),
        ensures
            tail.describes(text.push(ch)),
    {
        let len: u8 = if self.len < 3 {
            self.len + 1
        } else {
            3
        };
        Tail { len, last: ch, prev: self.last }
    }
}

/// The depth of an open block comment is at least 1 and never more than the
/// pairs of characters that the text has room for. This is what keeps the
/// depth within `i64`.
spec fn depth_fits(token: TokenView) -> bool {
    token matches TokenView::Comment { text, multiline, nested_level } ==> (multiline ==> {
        &&& nested_level >= 1
        &&& 2 * nested_level + (if text.len() > 0 && text.last() == '(' {
            1int
        } else {
            0int
        }) <= text.len()
    })
}

/// What reading `ch` has to leave where `last` was the last token and
/// `before` the tokens before it: what `last` turns into stands behind
/// `before`, and `next` describes the text of the token that is now the last.
spec fn fed(
    before: Seq<TokenView>,
    last: TokenView,
    ch: char,
    after: Seq<TokenView>,
    next: Tail,
) -> bool {
    let turned = model::advance(last, ch);
    &&& after == before + turned
    &&& next.describes(turned.last().text())
    &&& depth_fits(turned.last())
}

/// Puts `token` at the end of `tokens`.
fn push_token(tokens: &mut Vec<Token>, token: Token)
    ensures
        views(final(tokens)@) == views(old(tokens)@).push(token@),
{
    tokens.push(token);
    assert(views(tokens@) =~= views(old(tokens)@).push(token@));
}

/// The token that `ch` opens behind whitespace or a parenthesis.
fn open_token(class: CharClass, ch: char) -> (token: Token)
    requires
        class == class_of(ch),
    ensures
        token@ == model::opening(ch),
        token@.text() == seq![ch],
{
    match class {
        CharClass::Blank => Token::Space(single(ch)),
        CharClass::Open => Token::LParen,
        CharClass::Close => Token::RParen,
        CharClass::At => Token::Annotation(single(ch)),
        CharClass::Dollar => Token::Identifier(single(ch)),
        CharClass::Quote => Token::StringLiteral {
            string: single(ch),
            escape_next_char: false,
            last_char_escaped: false,
        },
        CharClass::Digit => Token::NumberLiteral {
            string: single(ch),
            hex: false,
            dec_point: false,
            exponent: false,
            last_char_is_exponent: false,
            signed: false,
        },
        CharClass::Sign => Token::NumberLiteral {
            string: single(ch),
            hex: false,
            dec_point: false,
            exponent: false,
            last_char_is_exponent: false,
            signed: true,
        },
        CharClass::HexMark
        | CharClass::DecExponent
        | CharClass::HexExponent
        | CharClass::HexLetter
        | CharClass::Letter => Token::Instruction(single(ch)),
        CharClass::Semicolon
        | CharClass::Dot
        | CharClass::Backslash
        | CharClass::Underscore
        | CharClass::Punct
        | CharClass::Other => Token::Reserved(single(ch)),
    }
}

/// Whitespace or a parenthesis is the last token, and `ch` is read.
fn feed_boundary(
    tokens: &mut Vec<Token>,
    tail: Tail,
    last: Token,
    class: CharClass,
    ch: char,
) -> (next: Tail)
    requires
        last@.is_boundary(),
        tail.describes(last@.text()),
        class == class_of(ch),
    ensures
        fed(views(old(tokens)@), last@, ch, views(final(tokens)@), next),
{
    let ghost before = views(tokens@);
    let ghost text = last@.text();
    match (class, last) {
        (CharClass::Blank, Token::Space(mut string)) => {
            string.push(ch);
            push_token(tokens, Token::Space(string));
            assert(views(tokens@) =~= before + model::advance_boundary(last@, ch));
            tail.push(ch, Ghost(text))
        },
        (CharClass::Semicolon, Token::LParen) => {
            push_token(
                tokens,
                Token::Comment { string: pair('(', ';'), multiline: true, nested_level: 1 },
            );
            assert(views(tokens@) =~= before + model::advance_boundary(last@, ch));
            Tail::two('(', ';')
        },
        (class, last) => {
            push_token(tokens, last);
            push_token(tokens, open_token(class, ch));
            assert(views(tokens@) =~= before + model::advance_boundary(last@, ch));
            Tail::one(ch)
        },
    }
}

/// The same token with `ch` added to its text.
fn grow(token: Token, ch: char) -> (grown: Token)
    requires
        token@.is_word(),
    ensures
        grown@ == token@.with_text(token@.text().push(ch)),
{
    match token {
        Token::Identifier(mut string) => {
            string.push(ch);
            Token::Identifier(string)
        },
        Token::Annotation(mut string) => {
            string.push(ch);
            Token::Annotation(string)
        },
        Token::Instruction(mut string) => {
            string.push(ch);
            Token::Instruction(string)
        },
        Token::Reserved(mut string) => {
            string.push(ch);
            Token::Reserved(string)
        },
        other => other,
    }
}

/// A reserved token with the text of `token` and `ch` behind it.
fn merge(token: Token, ch: char) -> (merged: Token)
    requires
        token@.is_word(),
    ensures
        merged@ == TokenView::Reserved(token@.text().push(ch)),
{
    match token {
        Token::Identifier(mut string)
        | Token::Annotation(mut string)
        | Token::Instruction(mut string)
        | Token::Reserved(mut string) => {
            string.push(ch);
            Token::Reserved(string)
        },
        other => other,
    }
}

/// An identifier, annotation, instruction or reserved token is the last
/// token, and `ch` is read.
fn feed_word(
    tokens: &mut Vec<Token>,
    tail: Tail,
    last: Token,
    class: CharClass,
    ch: char,
) -> (next: Tail)
    requires
        last@.is_word(),
        tail.describes(last@.text()),
        class == class_of(ch),
    ensures
        fed(views(old(tokens)@), last@, ch, views(final(tokens)@), next),
{
    let ghost before = views(tokens@);
    let ghost text = last@.text();
    let lone_semicolon = match &last {
        Token::Reserved(_) => tail.len == 1 && tail.last == ';',
        _ => false,
    };
    match class {
        CharClass::Semicolon if lone_semicolon => {
            push_token(
                tokens,
                Token::Comment { string: pair(';', ';'), multiline: false, nested_level: 0 },
            );
            assert(views(tokens@) =~= before + model::advance_word(last@, ch));
            Tail::two(';', ';')
        },
        CharClass::Blank
        | CharClass::Open
        | CharClass::Close
        | CharClass::Quote
        | CharClass::Semicolon => {
            push_token(tokens, reclassify(last));
            push_token(tokens, open_token(class, ch));
            assert(views(tokens@) =~= before + model::advance_word(last@, ch));
            Tail::one(ch)
        },
        CharClass::Other => {
            push_token(tokens, merge(last, ch));
            assert(views(tokens@) =~= before + model::advance_word(last@, ch));
            tail.push(ch, Ghost(text))
        },
        _ => {
            push_token(tokens, grow(last, ch));
            assert(views(tokens@) =~= before + model::advance_word(last@, ch));
            tail.push(ch, Ghost(text))
        },
    }
}

/// A number is the last token, and `ch` is read.
fn feed_number(
    tokens: &mut Vec<Token>,
    tail: Tail,
    string: String,
    hex: bool,
    dec_point: bool,
    exponent: bool,
    last_char_is_exponent: bool,
    signed: bool,
    class: CharClass,
    ch: char,
) -> (next: Tail)
    requires
        tail.describes(string@),
        class == class_of(ch),
    ensures
        fed(
            views(old(tokens)@),
            TokenView::NumberLiteral {
                text: string@,
                hex,
                dec_point,
                exponent,
                last_char_is_exponent,
                signed,
            },
            ch,
            views(final(tokens)@),
            next,
        ),
{
    let ghost before = views(tokens@);
    let ghost text = string@;
    let ghost after = before + model::advance_number(
        text,
        hex,
        dec_point,
        exponent,
        last_char_is_exponent,
        signed,
        ch,
    );
    let mut string = string;
    // Whether `ch` is taken up as part of the number, and the flags if it is.
    let mut fits = true;
    let mut hex = hex;
    let mut dec_point = dec_point;
    let mut exponent = exponent;
    let mut last_char_is_exponent = last_char_is_exponent;
    match class {
        CharClass::Blank | CharClass::Open | CharClass::Close | CharClass::Quote => {
            push_token(
                tokens,
                Token::NumberLiteral {
                    string,
                    hex,
                    dec_point,
                    exponent,
                    last_char_is_exponent,
                    signed,
                },
            );
            push_token(tokens, open_token(class, ch));
            assert(views(tokens@) =~= after);
            return Tail::one(ch);
        },
        CharClass::At | CharClass::Dollar | CharClass::Semicolon | CharClass::Other => {
            push_token(
                tokens,
                Token::NumberLiteral {
                    string,
                    hex,
                    dec_point,
                    exponent,
                    last_char_is_exponent,
                    signed,
                },
            );
            push_token(tokens, Token::Reserved(single(ch)));
            assert(views(tokens@) =~= after);
            return Tail::one(ch);
        },
        CharClass::HexMark => {
            let lone_zero = tail.last == '0' && (if signed {
                tail.len == 2
            } else {
                tail.len == 1
            });
            if !hex && lone_zero {
                hex = true;
            } else {
                fits = false;
            }
        },
        CharClass::Dot => {
            if !dec_point && !exponent {
                dec_point = true;
            } else {
                fits = false;
            }
        },
        CharClass::Digit => {
            last_char_is_exponent = false;
        },
        CharClass::DecExponent => {
            if hex {
            } else if !exponent {
                exponent = true;
                last_char_is_exponent = true;
            } else {
                fits = false;
            }
        },
        CharClass::HexExponent => {
            if hex && !exponent {
                exponent = true;
                last_char_is_exponent = true;
            } else {
                fits = false;
            }
        },
        CharClass::HexLetter => {
            if hex {
                last_char_is_exponent = false;
            } else {
                fits = false;
            }
        },
        CharClass::Sign => {
            if exponent && last_char_is_exponent {
                last_char_is_exponent = false;
            } else {
                fits = false;
            }
        },
        CharClass::Underscore => {
            if last_char_is_exponent || (signed && tail.len == 1) {
                fits = false;
            }
        },
        CharClass::Letter | CharClass::Backslash | CharClass::Punct => {
            fits = false;
        },
    }
    string.push(ch);
    if fits {
        push_token(
            tokens,
            Token::NumberLiteral {
                string,
                hex,
                dec_point,
                exponent,
                last_char_is_exponent,
                signed,
            },
        );
    } else {
        push_token(tokens, Token::Reserved(string));
    }
    assert(views(tokens@) =~= after);
    tail.push(ch, Ghost(text))
}

/// A comment is the last token, and `ch` is read.
fn feed_comment(
    tokens: &mut Vec<Token>,
    tail: Tail,
    string: String,
    multiline: bool,
    nested_level: i64,
    class: CharClass,
    ch: char,
) -> (next: Tail)
    requires
        tail.describes(string@),
        depth_fits(
            TokenView::Comment { text: string@, multiline, nested_level: nested_level as int },
        ),
        class == class_of(ch),
    ensures
        fed(
            views(old(tokens)@),
            TokenView::Comment { text: string@, multiline, nested_level: nested_level as int },
            ch,
            views(final(tokens)@),
            next,
        ),
{
    let ghost before = views(tokens@);
    let ghost text = string@;
    let ghost after = before + model::advance_comment(text, multiline, nested_level as int, ch);
    let mut string = string;
    match class {
        CharClass::Quote => {
            push_token(tokens, Token::Comment { string, multiline, nested_level });
            push_token(tokens, open_token(class, ch));
            assert(views(tokens@) =~= after);
            Tail::one(ch)
        },
        CharClass::Other => {
            string.push(ch);
            push_token(tokens, Token::Reserved(string));
            assert(views(tokens@) =~= after);
            tail.push(ch, Ghost(text))
        },
        CharClass::Semicolon => {
            let opens = multiline && tail.len >= 1 && tail.last == '(';
            string.push(ch);
            let depth = if opens {
                // Each level takes two characters of the text, and the text
                // has no more characters than bytes: the depth stays within
                // `i64`.
                let _ = byte_len(&string);
                nested_level + 1
            } else {
                nested_level
            };
            push_token(tokens, Token::Comment { string, multiline, nested_level: depth });
            assert(views(tokens@) =~= after);
            tail.push(ch, Ghost(text))
        },
        CharClass::Close => {
            let closes = multiline && tail.len >= 2 && tail.last == ';' && tail.prev != '(';
            let depth = if closes {
                nested_level - 1
            } else {
                nested_level
            };
            string.push(ch);
            push_token(tokens, Token::Comment { string, multiline, nested_level: depth });
            if multiline && depth == 0 {
                push_token(tokens, Token::Space(String::new()));
                assert(views(tokens@) =~= after);
                Tail::empty()
            } else {
                assert(views(tokens@) =~= after);
                tail.push(ch, Ghost(text))
            }
        },
        _ => {
            string.push(ch);
            push_token(tokens, Token::Comment { string, multiline, nested_level });
            assert(views(tokens@) =~= after);
            tail.push(ch, Ghost(text))
        },
    }
}

/// An open string is the last token, and `ch` is read.
fn feed_string(
    tokens: &mut Vec<Token>,
    tail: Tail,
    string: String,
    escape_next_char: bool,
    last_char_escaped: bool,
    class: CharClass,
    ch: char,
) -> (next: Tail)
    requires
        tail.describes(string@),
        class == class_of(ch),
    ensures
        fed(
            views(old(tokens)@),
            TokenView::StringLiteral { text: string@, escape_next_char, last_char_escaped },
            ch,
            views(final(tokens)@),
            next,
        ),
{
    let ghost before = views(tokens@);
    let ghost text = string@;
    let ghost after = before + model::advance_string(text, escape_next_char, ch);
    let mut string = string;
    let escapes = match class {
        CharClass::Backslash => !escape_next_char,
        _ => false,
    };
    let closes = match class {
        CharClass::Quote => !escape_next_char,
        _ => false,
    };
    string.push(ch);
    push_token(
        tokens,
        Token::StringLiteral {
            string,
            escape_next_char: escapes,
            last_char_escaped: escape_next_char,
        },
    );
    if closes {
        push_token(tokens, Token::Space(String::new()));
        assert(views(tokens@) =~= after);
        Tail::empty()
    } else {
        assert(views(tokens@) =~= after);
        tail.push(ch, Ghost(text))
    }
}

/// A scanner: the tokens of the text read so far, the last of them still
/// open. Its view is the token sequence, whitespace included.
pub struct Lexer {
    tokens: Vec<Token>,
    tail: Tail,
}

impl View for Lexer {
    type V = Seq<TokenView>;

    closed spec fn view(&self) -> Seq<TokenView> {
        views(self.tokens@)
    }
}

impl Lexer {
    /// What the scanner keeps beside the tokens agrees with the text of the
    /// last token, and the depth of an open block comment is within what its
    /// text has room for. `new` establishes this and `feed` keeps it.
    pub closed spec fn wf(&self) -> bool {
        &&& self.tail.describes(model::current(self@).text())
        &&& depth_fits(model::current(self@))
    }

    /// A scanner that has read nothing.
    pub fn new() -> (lexer: Lexer)
        ensures
            lexer.wf(),
            lexer@ == Seq::<TokenView>::empty(),
    {
        let lexer = Lexer { tokens: Vec::new(), tail: Tail::empty() };
        assert(lexer@ =~= Seq::<TokenView>::empty());
        lexer
    }

    /// Reads one character: the last token takes it up, or is closed and a new
    /// one opened, as [`model::step`] says.
    pub fn feed(&mut self, ch: char)
        requires
            old(self).wf(),
        ensures
            final(self).wf(),
            final(self)@ == model::step(old(self)@, ch),
    {
        let class = classify(ch);
        let tail = self.tail;
        let last = match self.tokens.pop() {
            Some(token) => token,
            None => Token::Space(String::new()),
        };
        let ghost before = model::settled(old(self)@);
        let ghost turned = model::advance(last@, ch);
        assert(last@ == model::current(old(self)@));
        assert(views(self.tokens@) =~= before);
        let next = match last {
            Token::StringLiteral { string, escape_next_char, last_char_escaped } => feed_string(
                &mut self.tokens,
                tail,
                string,
                escape_next_char,
                last_char_escaped,
                class,
                ch,
            ),
            Token::Comment { string, multiline, nested_level } => feed_comment(
                &mut self.tokens,
                tail,
                string,
                multiline,
                nested_level,
                class,
                ch,
            ),
            Token::NumberLiteral {
                string,
                hex,
                dec_point,
                exponent,
                last_char_is_exponent,
                signed,
            } => feed_number(
                &mut self.tokens,
                tail,
                string,
                hex,
                dec_point,
                exponent,
                last_char_is_exponent,
                signed,
                class,
                ch,
            ),
            Token::Space(_) | Token::LParen | Token::RParen => feed_boundary(
                &mut self.tokens,
                tail,
                last,
                class,
                ch,
            ),
            _ => feed_word(&mut self.tokens, tail, last, class, ch),
        };
        assert(views(self.tokens@) == before + turned);
        assert(turned.len() > 0);
        assert(model::current(before + turned) == turned.last());
        self.tail = next;
    }

    /// Ends the input: the last token is closed and the whitespace removed.
    pub fn finish(self) -> (tokens: Vec<Token>)
        ensures
            views(tokens@) == model::finish(self@),
            forall|i: int| 0 <= i < tokens@.len() ==> !(#[trigger] tokens@[i] is Space),
    {
        let mut tokens = self.tokens;
        let ghost before = views(tokens@);
        match tokens.pop() {
            Some(last) => {
                push_token(&mut tokens, reclassify(last));
                assert(views(tokens@) =~= model::close_last(before));
            },
            None => {},
        }
        strip(tokens)
    }
}

/// The tokens of a source text, together with the text itself.
#[derive(Clone)]
pub struct TokenList(Vec<Token>, String);

/// What a token list holds.
pub struct TokenListView {
    pub tokens: Seq<TokenView>,
    pub src: Seq<char>,
}

impl View for TokenList {
    type V = TokenListView;

    closed spec fn view(&self) -> TokenListView {
        TokenListView { tokens: views(self.0@), src: self.1@ }
    }
}

impl TokenList {
    /// The tokens, in the order of the source.
    pub fn list(self) -> (tokens: Vec<Token>)
        ensures
            views(tokens@) == self@.tokens,
    {
        self.0
    }

    /// The source text, as it was given.
    pub fn src(self) -> (src: String)
        ensures
            src@ == self@.src,
    {
        self.1
    }
}

impl From<String> for TokenList {
    /// Tokenizes `src`. The list holds the tokens of [`model::lex`], none of
    /// them whitespace, and `src` itself.
    fn from(src: String) -> (list: TokenList)
        ensures
            list@.tokens == model::lex(src@),
            list@.src == src@,
            forall|i: int| 0 <= i < list@.tokens.len() ==> !(#[trigger] list@.tokens[i] is Space),
    {
        let mut lexer = Lexer::new();
        assert(src@.take(0) =~= Seq::<char>::empty());
        for ch in it: src.as_str().chars()
            invariant
                it.seq() == src@,
                lexer.wf(),
                lexer@ == model::scan(src@.take(it.index() as int)),
        {
            let ghost i = it.index() as int;
            assert(src@.take(i + 1).drop_last() =~= src@.take(i));
            lexer.feed(ch);
        }
        assert(src@.take(src@.len() as int) =~= src@);
        let tokens = lexer.finish();
        assert forall|i: int| 0 <= i < views(tokens@).len() implies !(#[trigger] views(
            tokens@,
        )[i] is Space) by {
            assert(tokens@[i] is Space <==> views(tokens@)[i] is Space);
        }
        TokenList(tokens, src)
    }
}

impl FromSpecImpl<String> for TokenList {
    /// The tokens are held in a `Vec`, which no specification function can
    /// build: what `from` returns is stated on `from` itself.
    open spec fn obeys_from_spec() -> bool {
        false
    }

    open spec fn from_spec(src: String) -> TokenList {
        arbitrary()
    }
}

} // verus!
