//! Closing a token: every token that another one follows, and every token of
//! a finished sequence, is what [`reclassify`] makes of it.

use vstd::prelude::*;
use crate::escapes::lemma_string_flags_follow_text;
use crate::laws::lemma_advance_len;
use crate::model::{
    advance, close_last, current, is_signed_inf, lex, reclassify, scan, settled, step, TokenView,
};

verus! {

/// A token that has been closed stays as it is when it is closed again. Only
/// a string whose text reads `+inf` or `-inf` would not, and no text that
/// begins with a quote does.
pub proof fn lemma_reclassify_twice(token: TokenView)
    requires
        token is StringLiteral ==> !is_signed_inf(token.text()),
    ensures
        reclassify(reclassify(token)) == reclassify(token),
{
}

/// Where a character ends the last token, that token is closed.
proof fn lemma_advance_closes(last: TokenView, ch: char)
    ensures
        advance(last, ch).len() == 2 ==> reclassify(advance(last, ch)[0]) == advance(last, ch)[0],
{
    match last {
        TokenView::StringLiteral { text, .. } => {
            assert(text.push(ch).last() == ch);
        },
        TokenView::Identifier(_)
        | TokenView::Annotation(_)
        | TokenView::Instruction(_)
        | TokenView::Reserved(_) => {
            lemma_reclassify_twice(last);
        },
        _ => {},
    }
}

/// Each token of the sequence but the last is closed.
pub open spec fn all_closed(tokens: Seq<TokenView>) -> bool {
    forall|i: int| 0 <= i < tokens.len() - 1 ==> reclassify(#[trigger] tokens[i]) == tokens[i]
}

/// One step keeps the tokens before the last closed.
proof fn lemma_step_closes(tokens: Seq<TokenView>, ch: char)
    requires
        all_closed(tokens),
    ensures
        all_closed(step(tokens, ch)),
{
    let kept = settled(tokens);
    let next = advance(current(tokens), ch);
    let after = step(tokens, ch);
    lemma_advance_len(current(tokens), ch);
    lemma_advance_closes(current(tokens), ch);
    assert forall|i: int| 0 <= i < after.len() - 1 implies reclassify(#[trigger] after[i])
        == after[i] by {
        if i < kept.len() {
            assert(after[i] == tokens[i]);
        } else {
            assert(after[i] == next[0]);
        }
    }
}

/// While a text is read, every token that another one follows has been
/// closed: it is what [`reclassify`] makes of it.
pub proof fn lemma_scan_closes(src: Seq<char>)
    ensures
        all_closed(scan(src)),
    decreases src.len(),
{
    if src.len() > 0 {
        lemma_scan_closes(src.drop_last());
        lemma_step_closes(scan(src.drop_last()), src.last());
    }
}

/// Every token of a finished sequence is closed: no instruction reads `nan`
/// or `inf`, no reserved token reads `+inf` or `-inf`, and every string ends
/// in a quote that is not escaped.
pub proof fn lemma_tokens_are_closed(src: Seq<char>, i: int)
    requires
        0 <= i < lex(src).len(),
    ensures
        reclassify(lex(src)[i]) == lex(src)[i],
{
    let left = close_last(scan(src));
    let keep = |t: TokenView| !(t is Space);
    let token = lex(src)[i];
    lemma_scan_closes(src);
    assert(left.filter(keep).contains(token));
    left.lemma_filter_contains_rev(keep, token);
    let j = choose|j: int| 0 <= j < left.len() && left[j] == token;
    if j == left.len() - 1 {
        lemma_string_flags_follow_text(src, j);
        lemma_reclassify_twice(scan(src)[j]);
    } else {
        assert(left[j] == scan(src)[j]);
    }
}

} // verus!
