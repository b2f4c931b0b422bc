//! The scanner one character at a time, and the steps that close a token and
//! remove the whitespace, on tokens made by hand.

use wasmtools::chars::{classify, CharClass};
use wasmtools::lexer::{reclassify, strip, Lexer, Token};

fn feed_all(lexer: &mut Lexer, text: &str) {
    for ch in text.chars() {
        lexer.feed(ch);
    }
}

fn unflagged(text: &str) -> Token {
    Token::NumberLiteral {
        string: text.to_string(),
        hex: false,
        dec_point: false,
        exponent: false,
        last_char_is_exponent: false,
        signed: false,
    }
}

#[test]
fn new_scanner_finishes_empty() {
    assert_eq!(Lexer::new().finish(), vec![]);
}

#[test]
fn scanner_reads_in_pieces() {
    let mut lexer = Lexer::new();
    feed_all(&mut lexer, "(i32.co");
    feed_all(&mut lexer, "nst 0x");
    feed_all(&mut lexer, "10)");
    assert_eq!(
        lexer.finish(),
        vec![
            Token::LParen,
            Token::Instruction("i32.const".to_string()),
            Token::NumberLiteral {
                string: "0x10".to_string(),
                hex: true,
                dec_point: false,
                exponent: false,
                last_char_is_exponent: false,
                signed: false,
            },
            Token::RParen,
        ]
    );
}

#[test]
fn scanner_closes_the_last_token_at_the_end() {
    let mut lexer = Lexer::new();
    feed_all(&mut lexer, "a inf");
    assert_eq!(lexer.finish(), vec![Token::Instruction("a".to_string()), unflagged("inf")]);
}

#[test]
fn classes_of_characters() {
    assert_eq!(classify('\t'), CharClass::Blank);
    assert_eq!(classify('\n'), CharClass::Blank);
    assert_eq!(classify('\r'), CharClass::Blank);
    assert_eq!(classify(' '), CharClass::Blank);
    assert_eq!(classify('('), CharClass::Open);
    assert_eq!(classify(')'), CharClass::Close);
    assert_eq!(classify('@'), CharClass::At);
    assert_eq!(classify('$'), CharClass::Dollar);
    assert_eq!(classify(';'), CharClass::Semicolon);
    assert_eq!(classify('x'), CharClass::HexMark);
    assert_eq!(classify('X'), CharClass::HexMark);
    assert_eq!(classify('.'), CharClass::Dot);
    assert_eq!(classify('"'), CharClass::Quote);
    assert_eq!(classify('0'), CharClass::Digit);
    assert_eq!(classify('9'), CharClass::Digit);
    assert_eq!(classify('e'), CharClass::DecExponent);
    assert_eq!(classify('E'), CharClass::DecExponent);
    assert_eq!(classify('p'), CharClass::HexExponent);
    assert_eq!(classify('P'), CharClass::HexExponent);
    assert_eq!(classify('a'), CharClass::HexLetter);
    assert_eq!(classify('f'), CharClass::HexLetter);
    assert_eq!(classify('D'), CharClass::HexLetter);
    assert_eq!(classify('g'), CharClass::Letter);
    assert_eq!(classify('z'), CharClass::Letter);
    assert_eq!(classify('G'), CharClass::Letter);
    assert_eq!(classify('Z'), CharClass::Letter);
    assert_eq!(classify('\\'), CharClass::Backslash);
    assert_eq!(classify('+'), CharClass::Sign);
    assert_eq!(classify('-'), CharClass::Sign);
    assert_eq!(classify('_'), CharClass::Underscore);
}

#[test]
fn classes_of_punctuation_and_the_rest() {
    for ch in "!#%&'*/:<=>?^`|~".chars() {
        assert_eq!(classify(ch), CharClass::Punct);
    }
    for ch in ",[]{}\u{0}\u{7f}\u{b}\u{c}\u{e9}\u{212a}\u{1f600}".chars() {
        assert_eq!(classify(ch), CharClass::Other);
    }
}

#[test]
fn reclassify_instruction() {
    assert_eq!(reclassify(Token::Instruction("nan".to_string())), unflagged("nan"));
    assert_eq!(reclassify(Token::Instruction("iNf".to_string())), unflagged("iNf"));
    assert_eq!(
        reclassify(Token::Instruction("nat".to_string())),
        Token::Instruction("nat".to_string())
    );
    assert_eq!(
        reclassify(Token::Instruction("nans".to_string())),
        Token::Instruction("nans".to_string())
    );
    assert_eq!(
        reclassify(Token::Instruction("na".to_string())),
        Token::Instruction("na".to_string())
    );
}

#[test]
fn reclassify_reserved() {
    assert_eq!(reclassify(Token::Reserved("+inf".to_string())), unflagged("+inf"));
    assert_eq!(reclassify(Token::Reserved("-Inf".to_string())), unflagged("-Inf"));
    assert_eq!(
        reclassify(Token::Reserved("+nan".to_string())),
        Token::Reserved("+nan".to_string())
    );
    assert_eq!(reclassify(Token::Reserved("inf".to_string())), Token::Reserved("inf".to_string()));
    assert_eq!(
        reclassify(Token::Reserved("\u{e9}inf".to_string())),
        Token::Reserved("\u{e9}inf".to_string())
    );
}

#[test]
fn reclassify_string() {
    let closed = Token::StringLiteral {
        string: "\"a\"".to_string(),
        escape_next_char: false,
        last_char_escaped: false,
    };
    assert_eq!(reclassify(closed.clone()), closed);
    let open = Token::StringLiteral {
        string: "\"a".to_string(),
        escape_next_char: false,
        last_char_escaped: false,
    };
    assert_eq!(reclassify(open), Token::Reserved("\"a".to_string()));
    let escaped = Token::StringLiteral {
        string: "\"a\\\"".to_string(),
        escape_next_char: false,
        last_char_escaped: true,
    };
    assert_eq!(reclassify(escaped), Token::Reserved("\"a\\\"".to_string()));
    let empty = Token::StringLiteral {
        string: String::new(),
        escape_next_char: false,
        last_char_escaped: false,
    };
    assert_eq!(reclassify(empty), Token::Reserved(String::new()));
}

#[test]
fn reclassify_leaves_the_other_kinds() {
    let tokens = vec![
        Token::LParen,
        Token::RParen,
        Token::Identifier("inf".to_string()),
        Token::Annotation("nan".to_string()),
        Token::Comment { string: "nan".to_string(), multiline: false, nested_level: 0 },
        Token::Space("inf".to_string()),
        Token::NumberLiteral {
            string: "nan".to_string(),
            hex: true,
            dec_point: true,
            exponent: true,
            last_char_is_exponent: true,
            signed: true,
        },
    ];
    for token in tokens {
        assert_eq!(reclassify(token.clone()), token);
    }
}

#[test]
fn strip_removes_whitespace_only() {
    let tokens = vec![
        Token::Space(String::new()),
        Token::LParen,
        Token::Space(" \n".to_string()),
        Token::Space("\t".to_string()),
        Token::Instruction("a".to_string()),
        Token::RParen,
        Token::Space(String::new()),
    ];
    assert_eq!(
        strip(tokens),
        vec![Token::LParen, Token::Instruction("a".to_string()), Token::RParen]
    );
    assert_eq!(strip(vec![]), vec![]);
    assert_eq!(strip(vec![Token::Space("x".to_string())]), vec![]);
}

#[test]
fn reclassify_does_not_look_twice() {
    let odd = Token::StringLiteral {
        string: "+inf".to_string(),
        escape_next_char: false,
        last_char_escaped: false,
    };
    assert_eq!(reclassify(odd), Token::Reserved("+inf".to_string()));
}
