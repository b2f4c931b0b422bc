//! The tokenizer on single tokens of every kind.

use wasmtools::lexer::{Token, TokenList};

#[test]
fn lparen() {
    let s = "(".to_string();
    let l = TokenList::from(s.clone());
    assert_eq!(l.clone().list().len(), 1);
    assert!(matches!(l.clone().list().get(0).unwrap(), Token::LParen));
}

#[test]
fn rparen() {
    let s = ")".to_string();
    let l = TokenList::from(s.clone());
    assert_eq!(l.clone().list().len(), 1);
    assert!(matches!(l.clone().list().get(0).unwrap(), Token::RParen));
}

#[test]
fn space() {
    let s = " ".to_string();
    let l = TokenList::from(s.clone());
    assert_eq!(l.clone().list().len(), 0);
}

#[test]
fn nl() {
    let s = "\n".to_string();
    let l = TokenList::from(s.clone());
    assert_eq!(l.clone().list().len(), 0);
}

#[test]
fn decimal_int() {
    let s = "1024375869".to_string();
    let l = TokenList::from(s.clone());
    assert_eq!(l.clone().list().len(), 1);
    assert!(matches!(
        l.clone().list().get(0).unwrap(),
        Token::NumberLiteral { string, .. } if *string == s
    ));
}

#[test]
fn hex_int() {
    let s = "0x1024a65b98cd37ef".to_string();
    let l = TokenList::from(s.clone());
    assert_eq!(l.clone().list().len(), 1);
    assert!(matches!(
        l.clone().list().get(0).unwrap(),
        Token::NumberLiteral { string, .. } if *string == s
    ));
}

#[test]
fn float() {
    let s = "3.14".to_string();
    let l = TokenList::from(s.clone());
    assert_eq!(l.clone().list().len(), 1);
    assert!(matches!(
        l.clone().list().get(0).unwrap(),
        Token::NumberLiteral { string, .. } if *string == s
    ));
}

#[test]
fn float_dot_exponent() {
    let s = "3.5e7".to_string();
    let l = TokenList::from(s.clone());
    assert_eq!(l.clone().list().len(), 1);
    assert!(matches!(
        l.clone().list().get(0).unwrap(),
        Token::NumberLiteral { string, .. } if *string == s
    ));
}

#[test]
fn float_exponent() {
    let s = "4e7".to_string();
    let l = TokenList::from(s.clone());
    assert_eq!(l.clone().list().len(), 1);
    assert!(matches!(
        l.clone().list().get(0).unwrap(),
        Token::NumberLiteral { string, .. } if *string == s
    ));
}

#[test]
fn hex_float() {
    let s = "0x3.e".to_string();
    let l = TokenList::from(s.clone());
    assert_eq!(l.clone().list().len(), 1);
    assert!(matches!(
        l.clone().list().get(0).unwrap(),
        Token::NumberLiteral { string, .. } if *string == s
    ));
}

#[test]
fn hex_float_dot_exponent() {
    let s = "0xa.43pd7".to_string();
    let l = TokenList::from(s.clone());
    assert_eq!(l.clone().list().len(), 1);
    assert!(matches!(
        l.clone().list().get(0).unwrap(),
        Token::NumberLiteral { string, .. } if *string == s
    ));
}

#[test]
fn hex_float_exponent() {
    let s = "0x5ap9b".to_string();
    let l = TokenList::from(s.clone());
    assert_eq!(l.clone().list().len(), 1);
    assert!(matches!(
        l.clone().list().get(0).unwrap(),
        Token::NumberLiteral { string, .. } if *string == s
    ));
}

#[test]
fn signed_int() {
    let s = "+1024375869".to_string();
    let l = TokenList::from(s.clone());
    assert_eq!(l.clone().list().len(), 1);
    assert!(matches!(
        l.clone().list().get(0).unwrap(),
        Token::NumberLiteral { string, .. } if *string == s
    ));
    let s = "-1024375869".to_string();
    let l = TokenList::from(s.clone());
    assert_eq!(l.clone().list().len(), 1);
    assert!(matches!(
        l.clone().list().get(0).unwrap(),
        Token::NumberLiteral { string, .. } if *string == s
    ));
}

#[test]
fn signed_hex_int() {
    let s = "+0x1024a65b98cd37ef".to_string();
    let l = TokenList::from(s.clone());
    assert_eq!(l.clone().list().len(), 1);
    assert!(matches!(
        l.clone().list().get(0).unwrap(),
        Token::NumberLiteral { string, .. } if *string == s
    ));
    let s = "-0x1024a65b98cd37ef".to_string();
    let l = TokenList::from(s.clone());
    assert_eq!(l.clone().list().len(), 1);
    assert!(matches!(
        l.clone().list().get(0).unwrap(),
        Token::NumberLiteral { string, .. } if *string == s
    ));
}

#[test]
fn signed_float() {
    let s = "+3.14".to_string();
    let l = TokenList::from(s.clone());
    assert_eq!(l.clone().list().len(), 1);
    assert!(matches!(
        l.clone().list().get(0).unwrap(),
        Token::NumberLiteral { string, .. } if *string == s
    ));
    let s = "-3.14".to_string();
    let l = TokenList::from(s.clone());
    assert_eq!(l.clone().list().len(), 1);
    assert!(matches!(
        l.clone().list().get(0).unwrap(),
        Token::NumberLiteral { string, .. } if *string == s
    ));
}

#[test]
fn signed_float_dot_exponent() {
    let s = "+3.5e7".to_string();
    let l = TokenList::from(s.clone());
    assert_eq!(l.clone().list().len(), 1);
    assert!(matches!(
        l.clone().list().get(0).unwrap(),
        Token::NumberLiteral { string, .. } if *string == s
    ));
    let s = "-3.5e7".to_string();
    let l = TokenList::from(s.clone());
    assert_eq!(l.clone().list().len(), 1);
    assert!(matches!(
        l.clone().list().get(0).unwrap(),
        Token::NumberLiteral { string, .. } if *string == s
    ));
}

#[test]
fn signed_float_dot_signed_exponent() {
    let s = "+3.5e+7".to_string();
    let l = TokenList::from(s.clone());
    assert_eq!(l.clone().list().len(), 1);
    assert!(matches!(
        l.clone().list().get(0).unwrap(),
        Token::NumberLiteral { string, .. } if *string == s
    ));
    let s = "-3.5e+7".to_string();
    let l = TokenList::from(s.clone());
    assert_eq!(l.clone().list().len(), 1);
    assert!(matches!(
        l.clone().list().get(0).unwrap(),
        Token::NumberLiteral { string, .. } if *string == s
    ));
    let s = "+3.5e-7".to_string();
    let l = TokenList::from(s.clone());
    assert_eq!(l.clone().list().len(), 1);
    assert!(matches!(
        l.clone().list().get(0).unwrap(),
        Token::NumberLiteral { string, .. } if *string == s
    ));
    let s = "-3.5e-7".to_string();
    let l = TokenList::from(s.clone());
    assert_eq!(l.clone().list().len(), 1);
    assert!(matches!(
        l.clone().list().get(0).unwrap(),
        Token::NumberLiteral { string, .. } if *string == s
    ));
}

#[test]
fn signed_float_exponent() {
    let s = "+4e7".to_string();
    let l = TokenList::from(s.clone());
    assert_eq!(l.clone().list().len(), 1);
    assert!(matches!(
        l.clone().list().get(0).unwrap(),
        Token::NumberLiteral { string, .. } if *string == s
    ));
    let s = "-4e7".to_string();
    let l = TokenList::from(s.clone());
    assert_eq!(l.clone().list().len(), 1);
    assert!(matches!(
        l.clone().list().get(0).unwrap(),
        Token::NumberLiteral { string, .. } if *string == s
    ));
}

#[test]
fn signed_float_signed_exponent() {
    let s = "+4e+7".to_string();
    let l = TokenList::from(s.clone());
    assert_eq!(l.clone().list().len(), 1);
    assert!(matches!(
        l.clone().list().get(0).unwrap(),
        Token::NumberLiteral { string, .. } if *string == s
    ));
    let s = "-4e+7".to_string();
    let l = TokenList::from(s.clone());
    assert_eq!(l.clone().list().len(), 1);
    assert!(matches!(
        l.clone().list().get(0).unwrap(),
        Token::NumberLiteral { string, .. } if *string == s
    ));
    let s = "+4e-7".to_string();
    let l = TokenList::from(s.clone());
    assert_eq!(l.clone().list().len(), 1);
    assert!(matches!(
        l.clone().list().get(0).unwrap(),
        Token::NumberLiteral { string, .. } if *string == s
    ));
    let s = "-4e-7".to_string();
    let l = TokenList::from(s.clone());
    assert_eq!(l.clone().list().len(), 1);
    assert!(matches!(
        l.clone().list().get(0).unwrap(),
        Token::NumberLiteral { string, .. } if *string == s
    ));
}

#[test]
fn signed_hex_float() {
    let s = "+0x3.e".to_string();
    let l = TokenList::from(s.clone());
    assert_eq!(l.clone().list().len(), 1);
    assert!(matches!(
        l.clone().list().get(0).unwrap(),
        Token::NumberLiteral { string, .. } if *string == s
    ));
    let s = "-0x3.e".to_string();
    let l = TokenList::from(s.clone());
    assert_eq!(l.clone().list().len(), 1);
    assert!(matches!(
        l.clone().list().get(0).unwrap(),
        Token::NumberLiteral { string, .. } if *string == s
    ));
}

#[test]
fn signed_hex_float_dot_exponent() {
    let s = "+0xa.43pd7".to_string();
    let l = TokenList::from(s.clone());
    assert_eq!(l.clone().list().len(), 1);
    assert!(matches!(
        l.clone().list().get(0).unwrap(),
        Token::NumberLiteral { string, .. } if *string == s
    ));
    let s = "-0xa.43pd7".to_string();
    let l = TokenList::from(s.clone());
    assert_eq!(l.clone().list().len(), 1);
    assert!(matches!(
        l.clone().list().get(0).unwrap(),
        Token::NumberLiteral { string, .. } if *string == s
    ));
}

#[test]
fn signed_hex_float_dot_signed_exponent() {
    let s = "+0xa.43p+d7".to_string();
    let l = TokenList::from(s.clone());
    assert_eq!(l.clone().list().len(), 1);
    assert!(matches!(
        l.clone().list().get(0).unwrap(),
        Token::NumberLiteral { string, .. } if *string == s
    ));
    let s = "-0xa.43p+d7".to_string();
    let l = TokenList::from(s.clone());
    assert_eq!(l.clone().list().len(), 1);
    assert!(matches!(
        l.clone().list().get(0).unwrap(),
        Token::NumberLiteral { string, .. } if *string == s
    ));
    let s = "+0xa.43p-d7".to_string();
    let l = TokenList::from(s.clone());
    assert_eq!(l.clone().list().len(), 1);
    assert!(matches!(
        l.clone().list().get(0).unwrap(),
        Token::NumberLiteral { string, .. } if *string == s
    ));
    let s = "-0xa.43p-d7".to_string();
    let l = TokenList::from(s.clone());
    assert_eq!(l.clone().list().len(), 1);
    assert!(matches!(
        l.clone().list().get(0).unwrap(),
        Token::NumberLiteral { string, .. } if *string == s
    ));
}

#[test]
fn hex_float_signed_exponent() {
    let s = "0x5ap+9b".to_string();
    let l = TokenList::from(s.clone());
    assert_eq!(l.clone().list().len(), 1);
    assert!(matches!(
        l.clone().list().get(0).unwrap(),
        Token::NumberLiteral { string, .. } if *string == s
    ));
    let s = "0x5ap-b".to_string();
    let l = TokenList::from(s.clone());
    assert_eq!(l.clone().list().len(), 1);
    assert!(matches!(
        l.clone().list().get(0).unwrap(),
        Token::NumberLiteral { string, .. } if *string == s
    ));
}

#[test]
fn nan() {
    let s = "nan".to_string();
    let l = TokenList::from(s.clone());
    assert_eq!(l.clone().list().len(), 1);
    assert!(matches!(
        l.clone().list().get(0).unwrap(),
        Token::NumberLiteral { string, .. } if *string == s
    ));
}

#[test]
fn inf() {
    let s = "inf".to_string();
    let l = TokenList::from(s.clone());
    assert_eq!(l.clone().list().len(), 1);
    assert!(matches!(
        l.clone().list().get(0).unwrap(),
        Token::NumberLiteral { string, .. } if *string == s
    ));
    let s = "+inf".to_string();
    let l = TokenList::from(s.clone());
    assert_eq!(l.clone().list().len(), 1);
    assert!(matches!(
        l.clone().list().get(0).unwrap(),
        Token::NumberLiteral { string, .. } if *string == s
    ));
    let s = "-inf".to_string();
    let l = TokenList::from(s.clone());
    assert_eq!(l.clone().list().len(), 1);
    assert!(matches!(
        l.clone().list().get(0).unwrap(),
        Token::NumberLiteral { string, .. } if *string == s
    ));
}

#[test]
fn numbers_with_underscores() {
    let s = "3.141_592_653_589_794_232".to_string();
    let l = TokenList::from(s.clone());
    assert_eq!(l.clone().list().len(), 1);
    assert!(matches!(
        l.clone().list().get(0).unwrap(),
        Token::NumberLiteral { string, .. } if *string == s
    ));
    let s = "0x1fd_a4c_0b8_afe_794_36d".to_string();
    let l = TokenList::from(s.clone());
    assert_eq!(l.clone().list().len(), 1);
    assert!(matches!(
        l.clone().list().get(0).unwrap(),
        Token::NumberLiteral { string, .. } if *string == s
    ));
}

#[test]
fn string() {
    let s = r#""Hello, wørld!""#.to_string();
    let l = TokenList::from(s.clone());
    assert_eq!(l.clone().list().len(), 1);
    assert!(matches!(
        l.clone().list().get(0).unwrap(),
        Token::StringLiteral { string, .. } if *string == s
    ));
}

#[test]
fn string_hex() {
    let s = r#""\a2\f6.""#.to_string();
    let l = TokenList::from(s.clone());
    assert_eq!(l.clone().list().len(), 1);
    assert!(matches!(
        l.clone().list().get(0).unwrap(),
        Token::StringLiteral { string, .. } if *string == s
    ));
}

#[test]
fn string_escaped_quote() {
    let s = r#""Hello, \"world\"!""#.to_string();
    let l = TokenList::from(s.clone());
    assert_eq!(l.clone().list().len(), 1);
    assert!(matches!(
        l.clone().list().get(0).unwrap(),
        Token::StringLiteral { string, .. } if *string == s
    ));
}

#[test]
fn string_double_escape_next_char() {
    let s = r#""\\ \\""#.to_string();
    let l = TokenList::from(s.clone());
    assert_eq!(l.clone().list().len(), 1);
    assert!(matches!(
        l.clone().list().get(0).unwrap(),
        Token::StringLiteral { string, .. } if *string == s
    ));
}

#[test]
fn unterminated_string() {
    let s = r#""this should be reserved"#.to_string();
    let l = TokenList::from(s.clone());
    assert_eq!(l.clone().list().len(), 1);
    assert!(matches!(
        l.clone().list().get(0).unwrap(),
        Token::Reserved(string) if *string == s
    ));
}

#[test]
fn identifier() {
    let s = "$this_isAn-identifier".to_string();
    let l = TokenList::from(s.clone());
    assert_eq!(l.clone().list().len(), 1);
    assert!(matches!(
        l.clone().list().get(0).unwrap(),
        Token::Identifier(string) if *string == s
    ));
}

#[test]
fn annotation() {
    let s = "@annotation".to_string();
    let l = TokenList::from(s.clone());
    assert_eq!(l.clone().list().len(), 1);
    assert!(matches!(
        l.clone().list().get(0).unwrap(),
        Token::Annotation(string) if *string == s
    ));
}

#[test]
fn comment() {
    let s = ";; $this is @ comment(!)".to_string();
    let l = TokenList::from(s.clone());
    assert_eq!(l.clone().list().len(), 1);
    assert!(matches!(
        l.clone().list().get(0).unwrap(),
        Token::Comment { string, .. } if *string == s
    ));
}

#[test]
fn multiline_comment() {
    let s = "(;$this is @ multiline comment(!)\n\tso exciting.\n;)".to_string();
    let l = TokenList::from(s.clone());
    assert_eq!(l.clone().list().len(), 1);
    assert!(matches!(
        l.clone().list().get(0).unwrap(),
        Token::Comment { string, .. } if *string == s
    ));
}

#[test]
fn nested_comment() {
    let s = "(; nested (; block (; comment ;)\n;)\n\t;)".to_string();
    let l = TokenList::from(s.clone());
    assert_eq!(l.clone().list().len(), 1);
    assert!(matches!(
        l.clone().list().get(0).unwrap(),
        Token::Comment { string, .. } if *string == s
    ));
}
