//! What holds of every input, on chosen inputs.

use wasmtools::lexer::{reclassify, Token, TokenList};

fn lex(src: &str) -> Vec<Token> {
    TokenList::from(src.to_string()).list()
}

fn text_of(token: &Token) -> String {
    match token {
        Token::LParen => "(".to_string(),
        Token::RParen => ")".to_string(),
        Token::Identifier(string)
        | Token::Annotation(string)
        | Token::Instruction(string)
        | Token::Reserved(string)
        | Token::Space(string) => string.clone(),
        Token::StringLiteral { string, .. } => string.clone(),
        Token::NumberLiteral { string, .. } => string.clone(),
        Token::Comment { string, .. } => string.clone(),
    }
}

fn spaced(tokens: &[Token]) -> String {
    let texts: Vec<String> = tokens.iter().map(text_of).collect();
    texts.join(" ")
}

fn respaced(src: &str) -> Vec<Token> {
    lex(&spaced(&lex(src)))
}

#[test]
fn whitespace_alone_has_no_tokens() {
    for src in ["", " ", "\n", "\t", "\r", "   ", " \t\r\n \n\n\t"] {
        assert_eq!(lex(src), vec![]);
    }
}

#[test]
fn no_whitespace_token_is_left() {
    for src in [" a  b ", "\"s\" \"t\"", "(; c ;) (; d ;)", "1 2\t3\n"] {
        for token in lex(src) {
            assert!(!matches!(token, Token::Space(_)));
        }
    }
}

#[test]
fn texts_spell_the_source_without_its_whitespace() {
    let src = " (func\t$f (param i32)\n  \"a b\" (; c d ;) 0x1p+3 ) ";
    let texts: Vec<String> = lex(src).iter().map(text_of).collect();
    assert_eq!(texts.concat(), "(func$f(parami32)\"a b\"(; c d ;)0x1p+3)");
}

#[test]
fn respacing_keeps_the_tokens() {
    for src in [
        "",
        "(module (func $add (param i32) (result i32)))",
        "(a)b\"c\"d(;e;)f",
        "  nan +inf\t-inf 0x1.8p-3 3fooo 1e+e ",
        "a,b @c\u{e9} $d[0] 1\u{e9}",
        "\"a\\\"b\" \"c\\\\\" x",
        "(; a (; b ;) c ;) d ;; e\tf\ng",
        "x (; never closed",
        "x \"never closed",
        "x \"",
        "; ;",
        "( ;",
    ] {
        assert_eq!(respaced(src), lex(src));
    }
}

#[test]
fn respacing_spells_single_spaces() {
    assert_eq!(spaced(&lex(" ( a\t\tb )\n")), "( a b )");
    assert_eq!(spaced(&lex("a")), "a");
    assert_eq!(spaced(&lex("")), "");
}

#[test]
fn respacing_changes_a_name_behind_a_number() {
    assert_eq!(
        lex("1@a"),
        vec![
            Token::NumberLiteral {
                string: "1".to_string(),
                hex: false,
                dec_point: false,
                exponent: false,
                last_char_is_exponent: false,
                signed: false,
            },
            Token::Reserved("@a".to_string()),
        ]
    );
    assert_eq!(respaced("1@a")[1], Token::Annotation("@a".to_string()));
    assert_eq!(respaced("1$a")[1], Token::Identifier("$a".to_string()));
}

#[test]
fn respacing_changes_a_comment_that_a_quote_ended() {
    assert_eq!(
        respaced(";;a\"b\""),
        vec![
            Token::Comment { string: ";;a ".to_string(), multiline: false, nested_level: 0 },
            Token::StringLiteral {
                string: "\"b\"".to_string(),
                escape_next_char: false,
                last_char_escaped: false,
            },
        ]
    );
}

#[test]
fn each_token_comes_back_from_its_text() {
    let src = "(module $m (; c ;) \"s\\\"t\" nan +inf 0x1p+3 3fooo a,b @x ;; end\t";
    let tokens = lex(src);
    assert_eq!(tokens.len(), 12);
    for token in tokens {
        assert_eq!(lex(&text_of(&token)), vec![token]);
    }
}

#[test]
fn name_behind_a_number_does_not_come_back() {
    let tokens = lex("7$x");
    assert_eq!(tokens[1], Token::Reserved("$x".to_string()));
    assert_eq!(lex("$x"), vec![Token::Identifier("$x".to_string())]);
}

fn count_openers(text: &str) -> i64 {
    let chars: Vec<char> = text.chars().collect();
    let mut n = 0;
    for i in 1..chars.len() {
        if chars[i - 1] == '(' && chars[i] == ';' {
            n += 1;
        }
    }
    n
}

fn count_closers(text: &str) -> i64 {
    let chars: Vec<char> = text.chars().collect();
    let mut n = 0;
    for i in 2..chars.len() {
        if chars[i - 2] != '(' && chars[i - 1] == ';' && chars[i] == ')' {
            n += 1;
        }
    }
    n
}

#[test]
fn depth_is_openers_less_closers() {
    for src in [
        "(;",
        "(;)",
        "(;;)",
        "(; a ;)",
        "(;(;(;",
        "(; (; ;) ;",
        "(; (; (; ;) ;) x",
        "(;(;);)",
        "(; ;) (; (; ;)",
        ";; (; (; ;)",
    ] {
        for token in lex(src) {
            if let Token::Comment { string, multiline, nested_level } = token {
                let expected = if multiline {
                    count_openers(&string) - count_closers(&string)
                } else {
                    0
                };
                assert_eq!(nested_level, expected);
                assert!(nested_level >= 0);
            }
        }
    }
}

#[test]
fn depth_of_chosen_comments() {
    assert_eq!(
        lex("(;(;);)"),
        vec![Token::Comment { string: "(;(;);)".to_string(), multiline: true, nested_level: 1 }]
    );
    assert_eq!(
        lex("(; (; ;) ;"),
        vec![Token::Comment { string: "(; (; ;) ;".to_string(), multiline: true, nested_level: 1 }]
    );
}

#[test]
fn quote_closes_behind_an_even_number_of_backslashes() {
    for k in 0..8 {
        let string = format!("\"a{}\"", "\\".repeat(k));
        let src = format!("{} b", string);
        if k % 2 == 0 {
            assert_eq!(
                lex(&src),
                vec![
                    Token::StringLiteral {
                        string,
                        escape_next_char: false,
                        last_char_escaped: false,
                    },
                    Token::Instruction("b".to_string()),
                ]
            );
        } else {
            assert_eq!(lex(&src), vec![Token::Reserved(src.clone())]);
        }
    }
}

#[test]
fn number_flags_say_what_the_text_holds() {
    let src =
        "0 +1 -0x1F 1.5 0x1.8 1e5 1E-5 0x1p3 0xeP+e 0x1pe 1_0 +0.5e+5 nan inf +inf -INF 0xe.e";
    let tokens = lex(src);
    assert_eq!(tokens.len(), 17);
    for token in tokens {
        match token {
            Token::NumberLiteral {
                string,
                hex,
                dec_point,
                exponent,
                last_char_is_exponent,
                signed,
            } => {
                let lower = string.to_lowercase();
                let keyword = lower == "+inf" || lower == "-inf";
                assert_eq!(hex, lower.contains('x'));
                assert_eq!(dec_point, lower.contains('.'));
                assert_eq!(exponent, lower.contains(if hex { 'p' } else { 'e' }));
                assert_eq!(signed, (lower.starts_with('+') || lower.starts_with('-')) && !keyword);
                assert!(!last_char_is_exponent || exponent);
            }
            other => panic!("{:?} is no number", other),
        }
    }
}

#[test]
fn every_token_is_closed() {
    for src in [
        "nan inf +inf -inf (nan) \"a\" \"b",
        "a nan\"s\" ;; c \"",
        "1 0x1 +inf; -inf\u{e9} NAN(; c ;)INF",
    ] {
        for token in lex(src) {
            assert_eq!(reclassify(token.clone()), token);
        }
    }
}

#[test]
fn anything_but_whitespace_has_tokens() {
    for src in ["(", " ; ", "\t\"", "\u{a0}", " \u{b} ", "(;", "\n_\n", "\u{2028}"] {
        assert!(!lex(src).is_empty());
    }
}
