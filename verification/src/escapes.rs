//! What the two flags of a string say, told by the text alone.
//!
//! The scanner keeps two flags while a string is open and never looks back at
//! the text. They follow the usual rule all the same: a character is escaped
//! when an odd number of backslashes stands directly before it.

use vstd::prelude::*;
use crate::laws::lemma_advance_len;
use crate::model::{
    advance, advance_string, close_last, current, fresh_string, lex, scan, settled, step,
    TokenView,
};

verus! {

/// The number of backslashes that `text` ends in.
pub open spec fn trailing_backslashes(text: Seq<char>) -> nat
    decreases text.len(),
{
    if text.len() == 0 || text.last() != '\\' {
        0
    } else {
        1 + trailing_backslashes(text.drop_last())
    }
}

/// An odd number of backslashes stands at the end of `text`: what comes next
/// is escaped.
pub open spec fn escapes_next(text: Seq<char>) -> bool {
    trailing_backslashes(text) % 2 == 1
}

/// The flags of a string are those that its text calls for. The text begins
/// with the opening quote, `escape_next_char` says that what comes next is
/// escaped, and `last_char_escaped` says the same of the last character.
pub open spec fn string_flags_follow_text(token: TokenView) -> bool {
    token matches TokenView::StringLiteral { text, escape_next_char, last_char_escaped } ==> {
        &&& text.len() > 0
        &&& text[0] == '"'
        &&& escape_next_char == escapes_next(text)
        &&& last_char_escaped == escapes_next(text.drop_last())
    }
}

/// The token, where it is a string, ends in a quote that is not escaped: it
/// has been closed.
pub open spec fn is_closed(token: TokenView) -> bool {
    token matches TokenView::StringLiteral { text, last_char_escaped, .. } ==> text.last() == '"'
        && !last_char_escaped
}

/// What holds of the strings of every sequence that a scan leaves.
spec fn strings_ok(tokens: Seq<TokenView>) -> bool {
    forall|i: int|
        0 <= i < tokens.len() ==> {
            &&& string_flags_follow_text(#[trigger] tokens[i])
            &&& i < tokens.len() - 1 ==> is_closed(tokens[i])
        }
}

/// The backslashes at the end of a text with one more character.
proof fn lemma_trailing_push(text: Seq<char>, ch: char)
    ensures
        trailing_backslashes(text.push(ch)) == if ch == '\\' {
            1 + trailing_backslashes(text)
        } else {
            0
        },
{
    assert(text.push(ch).drop_last() =~= text);
}

/// A string that has just been opened has the flags that its text calls for.
proof fn lemma_fresh_string()
    ensures
        string_flags_follow_text(fresh_string()),
{
    let quote = seq!['"'];
    assert(trailing_backslashes(quote) == 0);
    assert(quote.drop_last() =~= Seq::<char>::empty());
    assert(trailing_backslashes(quote.drop_last()) == 0);
}

/// An open string that takes up one more character has the flags that its
/// text calls for, and where the character closes it, it ends in an unescaped
/// quote.
proof fn lemma_advance_string_flags(text: Seq<char>, escape_next_char: bool, ch: char)
    requires
        text.len() > 0,
        text[0] == '"',
        escape_next_char == escapes_next(text),
    ensures
        string_flags_follow_text(advance_string(text, escape_next_char, ch)[0]),
        advance_string(text, escape_next_char, ch).len() == 2 ==> is_closed(
            advance_string(text, escape_next_char, ch)[0],
        ),
{
    lemma_trailing_push(text, ch);
    assert(text.push(ch).drop_last() =~= text);
    assert(text.push(ch)[0] == text[0]);
}

/// Whatever the last token turns into, the flags of a string in it are those
/// that its text calls for, and a string that is closed ends in an unescaped
/// quote.
proof fn lemma_advance_strings(last: TokenView, ch: char)
    requires
        string_flags_follow_text(last),
    ensures
        string_flags_follow_text(advance(last, ch)[0]),
        advance(last, ch).len() == 2 ==> is_closed(advance(last, ch)[0])
            && string_flags_follow_text(advance(last, ch)[1]),
{
    lemma_fresh_string();
    match last {
        TokenView::StringLiteral { text, escape_next_char, .. } => {
            lemma_advance_string_flags(text, escape_next_char, ch);
        },
        _ => {
            let next = advance(last, ch);
            assert(!(next[0] is StringLiteral));
            if next.len() == 2 {
                assert(next[1] is StringLiteral ==> next[1] == fresh_string());
            }
        },
    }
}

/// One step keeps the strings of a sequence in order.
proof fn lemma_step_strings(tokens: Seq<TokenView>, ch: char)
    requires
        strings_ok(tokens),
    ensures
        strings_ok(step(tokens, ch)),
{
    let kept = settled(tokens);
    let next = advance(current(tokens), ch);
    let after = step(tokens, ch);
    lemma_advance_len(current(tokens), ch);
    if tokens.len() > 0 {
        assert(string_flags_follow_text(tokens[tokens.len() - 1]));
    }
    lemma_advance_strings(current(tokens), ch);
    assert forall|i: int| 0 <= i < after.len() implies string_flags_follow_text(
        #[trigger] after[i],
    ) && (i < after.len() - 1 ==> is_closed(after[i])) by {
        if i < kept.len() {
            assert(after[i] == tokens[i]);
        } else {
            assert(after[i] == next[i - kept.len()]);
        }
    }
}

/// The strings of what a scan leaves are in order.
proof fn lemma_scan_strings(src: Seq<char>)
    ensures
        strings_ok(scan(src)),
    decreases src.len(),
{
    if src.len() > 0 {
        lemma_scan_strings(src.drop_last());
        lemma_step_strings(scan(src.drop_last()), src.last());
    }
}

/// While a text is read, the flags of every string are those that the text
/// of the string calls for: a character counts as escaped exactly when an odd
/// number of backslashes stands directly before it.
pub proof fn lemma_string_flags_follow_text(src: Seq<char>, i: int)
    requires
        0 <= i < scan(src).len(),
    ensures
        string_flags_follow_text(scan(src)[i]),
{
    lemma_scan_strings(src);
}

/// A string of a finished sequence begins with a quote and ends with a quote
/// that is not escaped: an even number of backslashes stands before it. No
/// flag of it is set.
pub proof fn lemma_strings_are_closed(src: Seq<char>, i: int)
    requires
        0 <= i < lex(src).len(),
        lex(src)[i] is StringLiteral,
    ensures
        lex(src)[i] matches TokenView::StringLiteral {
            text,
            escape_next_char,
            last_char_escaped,
        } && text[0] == '"' && text.last() == '"' && !escape_next_char && !last_char_escaped
            && !escapes_next(text.drop_last()),
{
    let left = close_last(scan(src));
    let keep = |t: TokenView| !(t is Space);
    let token = lex(src)[i];
    lemma_scan_strings(src);
    assert(left.filter(keep).contains(token));
    left.lemma_filter_contains_rev(keep, token);
    let j = choose|j: int| 0 <= j < left.len() && left[j] == token;
    if j < left.len() - 1 {
        assert(left[j] == scan(src)[j]);
    } else {
        assert(string_flags_follow_text(scan(src)[j]));
    }
}

} // verus!
