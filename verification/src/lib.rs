//! A tokenizer for a parenthesized, S-expression-like textual assembly format.
//!
//! The tokenizer reads source text one character at a time and keeps an ordered
//! sequence of classified tokens: parentheses, identifiers, annotations,
//! instruction words, numbers, strings, comments, and reserved tokens for
//! everything else. Malformed input never fails: it degrades to reserved
//! tokens.
//!
//! - [`chars`] sorts the characters into the classes that the rules speak of.
//! - [`model`] is the mathematical model: what reading a character does to a
//!   token sequence, and what the tokens of a text are.
//! - [`lexer`] holds the token type and the executable tokenizer, each
//!   function verified against the model.
//! - [`laws`] proves what holds of the model for every input, [`closing`]
//!   that every token is closed, and [`respacing`] what becomes of the tokens
//!   when their texts are tokenized again.
//! - [`escapes`], [`nesting`] and [`numbers`] say what the flags of a string,
//!   the depth of a comment and the flags of a number are in terms of the text
//!   alone.
//! - [`text`] holds the few things that the tokenizer asks of `String`.

pub mod chars;
pub mod model;
pub mod text;
pub mod lexer;
pub mod laws;
pub mod closing;
pub mod escapes;
pub mod nesting;
pub mod numbers;
pub mod respacing;
