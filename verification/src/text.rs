//! Small helpers over `String`: what the tokenizer needs to build the text of
//! a token.

use vstd::prelude::*;
use vstd::utf8::encode_utf8;

verus! {

/// `String::push` of the standard library, which vstd leaves without a
/// contract. Trusted: the call appends `ch` to the end of the string and
/// changes nothing else of it.
pub assume_specification[ String::push ](s: &mut String, ch: char)
    ensures
        final(s)@ == old(s)@.push(ch),
;

/// The string that holds `ch` alone.
pub(crate) fn single(ch: char) -> (s: String)
    ensures
        s@ == seq![ch],
{
    let mut s = String::new();
    s.push(ch);
    s
}

/// The string that holds `first` and then `second`.
pub(crate) fn pair(first: char, second: char) -> (s: String)
    ensures
        s@ == seq![first, second],
{
    let mut s = String::new();
    s.push(first);
    s.push(second);
    s
}

/// A text has at most as many characters as its UTF-8 encoding has bytes.
proof fn lemma_chars_within_bytes(chars: Seq<char>)
    ensures
        chars.len() <= encode_utf8(chars).len(),
    decreases chars.len(),
{
    if chars.len() > 0 {
        lemma_chars_within_bytes(chars.drop_first());
    }
}

/// The number of bytes of `s`, which is at least the number of its
/// characters: so that number fits in `usize` too.
pub(crate) fn byte_len(s: &String) -> (n: usize)
    ensures
        s@.len() <= n,
{
    proof {
        lemma_chars_within_bytes(s@);
    }
    s.as_str().as_bytes().len()
}

} // verus!
