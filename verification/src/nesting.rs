//! What the depth of a block comment says, told by the text alone.
//!
//! The scanner counts the depth up and down as the characters come and never
//! looks back further than two characters. The depth is all the same the
//! number of `(;` in the text less the number of `;)`, where a `;` that opens
//! a level cannot close one.

use vstd::prelude::*;
use crate::laws::lemma_advance_len;
use crate::model::{advance, close_last, current, lex, scan, settled, step, TokenView};

verus! {

/// The number of places where `text` reads `(;`.
pub open spec fn openers(text: Seq<char>) -> nat
    decreases text.len(),
{
    if text.len() < 2 {
        0
    } else {
        openers(text.drop_last()) + if text[text.len() - 2] == '(' && text[text.len() - 1] == ';' {
            1nat
        } else {
            0nat
        }
    }
}

/// The number of places where `text` reads `;)` and the `;` does not stand
/// behind `(`.
pub open spec fn closers(text: Seq<char>) -> nat
    decreases text.len(),
{
    if text.len() < 3 {
        0
    } else {
        closers(text.drop_last()) + if text[text.len() - 3] != '(' && text[text.len() - 2] == ';'
            && text[text.len() - 1] == ')' {
            1nat
        } else {
            0nat
        }
    }
}

/// The depth of a comment is the one that its text calls for: 0 for a line
/// comment, and for a block comment the levels opened less the levels closed.
pub open spec fn depth_follows_text(token: TokenView) -> bool {
    token matches TokenView::Comment { text, multiline, nested_level } ==> {
        &&& text.len() >= 2
        &&& nested_level == if multiline {
            openers(text) - closers(text)
        } else {
            0
        }
    }
}

/// An open block comment is at least one level deep.
spec fn is_open(token: TokenView) -> bool {
    token matches TokenView::Comment { multiline, nested_level, .. } ==> (multiline
        ==> nested_level >= 1)
}

/// The depth of a comment is as its text says, and not negative.
spec fn comment_ok(token: TokenView) -> bool {
    &&& depth_follows_text(token)
    &&& token matches TokenView::Comment { nested_level, .. } ==> nested_level >= 0
}

/// What holds of the comments of every sequence that a scan leaves.
spec fn comments_ok(tokens: Seq<TokenView>) -> bool {
    &&& forall|i: int| 0 <= i < tokens.len() ==> comment_ok(#[trigger] tokens[i])
    &&& tokens.len() > 0 ==> is_open(tokens.last())
}

/// The levels that a text with one more character opens and closes.
proof fn lemma_count_push(text: Seq<char>, ch: char)
    requires
        text.len() >= 2,
    ensures
        openers(text.push(ch)) == openers(text) + if text.last() == '(' && ch == ';' {
            1nat
        } else {
            0nat
        },
        closers(text.push(ch)) == closers(text) + if text[text.len() - 2] != '(' && text.last()
            == ';' && ch == ')' {
            1nat
        } else {
            0nat
        },
{
    assert(text.push(ch).drop_last() =~= text);
}

/// Whatever the last token turns into, the depth of a comment in it is the
/// one that its text calls for.
proof fn lemma_advance_comments(last: TokenView, ch: char)
    requires
        comment_ok(last),
        is_open(last),
    ensures
        comment_ok(advance(last, ch)[0]),
        advance(last, ch).len() == 2 ==> comment_ok(advance(last, ch)[1]),
        is_open(advance(last, ch).last()),
{
    let text = last.text();
    if last is Comment {
        lemma_count_push(text, ch);
    }
    let block = seq!['(', ';'];
    assert(openers(block) == 1 && closers(block) == 0) by {
        reveal_with_fuel(openers, 2);
        assert(block.drop_last() =~= seq!['(']);
    }
}

/// One step keeps the comments of a sequence in order.
proof fn lemma_step_comments(tokens: Seq<TokenView>, ch: char)
    requires
        comments_ok(tokens),
    ensures
        comments_ok(step(tokens, ch)),
{
    let kept = settled(tokens);
    let next = advance(current(tokens), ch);
    let after = step(tokens, ch);
    lemma_advance_len(current(tokens), ch);
    lemma_advance_comments(current(tokens), ch);
    assert forall|i: int| 0 <= i < after.len() implies comment_ok(#[trigger] after[i]) by {
        if i < kept.len() {
            assert(after[i] == tokens[i]);
        } else {
            assert(after[i] == next[i - kept.len()]);
        }
    }
    assert(after.last() == next.last());
}

/// The comments of what a scan leaves are in order.
proof fn lemma_scan_comments(src: Seq<char>)
    ensures
        comments_ok(scan(src)),
    decreases src.len(),
{
    if src.len() > 0 {
        lemma_scan_comments(src.drop_last());
        lemma_step_comments(scan(src.drop_last()), src.last());
    }
}

/// The depth of every comment of a finished sequence is the one that its text
/// calls for: 0 for a line comment, and for a block comment the number of
/// `(;` in the text less the number of `;)` that close a level. It is never
/// negative.
pub proof fn lemma_depth_follows_text(src: Seq<char>, i: int)
    requires
        0 <= i < lex(src).len(),
    ensures
        depth_follows_text(lex(src)[i]),
        lex(src)[i] matches TokenView::Comment { nested_level, .. } ==> nested_level >= 0,
{
    let left = close_last(scan(src));
    let keep = |t: TokenView| !(t is Space);
    let token = lex(src)[i];
    lemma_scan_comments(src);
    assert(left.filter(keep).contains(token));
    left.lemma_filter_contains_rev(keep, token);
    let j = choose|j: int| 0 <= j < left.len() && left[j] == token;
    assert(comment_ok(scan(src)[j]));
}

} // verus!
