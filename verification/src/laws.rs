//! What holds of the tokenizer for every input, proved over the model.

use vstd::prelude::*;
use crate::chars::class_of;
use crate::model::{
    advance, advance_boundary, advance_comment, advance_number, advance_string, advance_word,
    close_last, concat, current, finish, lex, marker, reclassify, scan, scan_from, settled, step,
    TokenView,
};

verus! {

/// Reading one character leaves at least one token at the end of the
/// sequence, and at most two.
pub proof fn lemma_advance_len(last: TokenView, ch: char)
    ensures
        1 <= advance(last, ch).len() <= 2,
{
}

/// Reading `text` and then `ch` is one more step.
pub proof fn lemma_scan_push(tokens: Seq<TokenView>, text: Seq<char>, ch: char)
    ensures
        scan_from(tokens, text.push(ch)) == step(scan_from(tokens, text), ch),
{
    assert(text.push(ch).drop_last() =~= text);
}

/// Reading `first + second` is reading `first` and then `second`.
pub proof fn lemma_scan_concat(tokens: Seq<TokenView>, first: Seq<char>, second: Seq<char>)
    ensures
        scan_from(tokens, first + second) == scan_from(scan_from(tokens, first), second),
    decreases second.len(),
{
    if second.len() > 0 {
        lemma_scan_concat(tokens, first, second.drop_last());
        assert((first + second).drop_last() =~= first + second.drop_last());
    }
}

/// Once a character has been read the sequence is never empty.
pub proof fn lemma_scan_nonempty(tokens: Seq<TokenView>, text: Seq<char>)
    requires
        tokens.len() > 0 || text.len() > 0,
    ensures
        scan_from(tokens, text).len() > 0,
{
    if text.len() > 0 {
        lemma_advance_len(current(scan_from(tokens, text.drop_last())), text.last());
    }
}

/// Reading touches only the last token: what stands before it stays.
pub proof fn lemma_scan_prefix(before: Seq<TokenView>, tokens: Seq<TokenView>, text: Seq<char>)
    requires
        tokens.len() > 0,
    ensures
        scan_from(before + tokens, text) == before + scan_from(tokens, text),
    decreases text.len(),
{
    if text.len() > 0 {
        let rest = text.drop_last();
        let done = scan_from(tokens, rest);
        lemma_scan_prefix(before, tokens, rest);
        lemma_scan_nonempty(tokens, rest);
        assert(settled(before + done) =~= before + settled(done));
        assert(step(before + done, text.last()) =~= before + step(done, text.last()));
    }
}

/// The texts of two sequences, one behind the other.
pub proof fn lemma_concat_add(first: Seq<TokenView>, second: Seq<TokenView>)
    ensures
        concat(first + second) == concat(first) + concat(second),
    decreases second.len(),
{
    if second.len() > 0 {
        lemma_concat_add(first, second.drop_last());
        assert((first + second).drop_last() =~= first + second.drop_last());
    }
}

/// Closing a token keeps its text.
pub proof fn lemma_reclassify_keeps_text(token: TokenView)
    ensures
        reclassify(token).text() == token.text(),
{
}

/// The text of a sequence of one or two tokens.
pub proof fn lemma_concat_short(tokens: Seq<TokenView>)
    requires
        1 <= tokens.len() <= 2,
    ensures
        tokens.len() == 1 ==> concat(tokens) == tokens[0].text(),
        tokens.len() == 2 ==> concat(tokens) == tokens[0].text() + tokens[1].text(),
{
    if tokens.len() == 1 {
        assert(concat(tokens.drop_last()) =~= Seq::<char>::empty());
    } else {
        let head = tokens.drop_last();
        assert(concat(head.drop_last()) =~= Seq::<char>::empty());
        assert(concat(head) =~= tokens[0].text());
    }
}

/// The texts of the one or two tokens that the last token turns into.
spec fn joined(next: Seq<TokenView>) -> Seq<char> {
    if next.len() == 1 {
        next[0].text()
    } else {
        next[0].text() + next[1].text()
    }
}

/// Whitespace or a parenthesis and `ch`: the texts of what they turn into.
proof fn lemma_advance_boundary_keeps_text(last: TokenView, ch: char)
    requires
        last.is_boundary(),
    ensures
        joined(advance_boundary(last, ch)) =~= last.text().push(ch),
{
}

/// A word and `ch`: the texts of what they turn into.
proof fn lemma_advance_word_keeps_text(last: TokenView, ch: char)
    requires
        last.is_word(),
    ensures
        joined(advance_word(last, ch)) =~= last.text().push(ch),
{
}

/// A number and `ch`: the texts of what they turn into.
proof fn lemma_advance_number_keeps_text(
    text: Seq<char>,
    hex: bool,
    dec_point: bool,
    exponent: bool,
    last_char_is_exponent: bool,
    signed: bool,
    ch: char,
)
    ensures
        joined(
            advance_number(text, hex, dec_point, exponent, last_char_is_exponent, signed, ch),
        ) =~= text.push(ch),
{
}

/// A comment and `ch`: the texts of what they turn into.
proof fn lemma_advance_comment_keeps_text(
    text: Seq<char>,
    multiline: bool,
    nested_level: int,
    ch: char,
)
    ensures
        joined(advance_comment(text, multiline, nested_level, ch)) =~= text.push(ch),
{
}

/// An open string and `ch`: the texts of what they turn into.
proof fn lemma_advance_string_keeps_text(text: Seq<char>, escape_next_char: bool, ch: char)
    ensures
        joined(advance_string(text, escape_next_char, ch)) =~= text.push(ch),
{
}

/// Whatever the last token turns into, it holds the old text and `ch`.
pub proof fn lemma_advance_keeps_text(last: TokenView, ch: char)
    ensures
        concat(advance(last, ch)) == last.text().push(ch),
{
    lemma_advance_len(last, ch);
    lemma_concat_short(advance(last, ch));
    match last {
        TokenView::StringLiteral { text, escape_next_char, .. } => {
            lemma_advance_string_keeps_text(text, escape_next_char, ch);
        },
        TokenView::Comment { text, multiline, nested_level } => {
            lemma_advance_comment_keeps_text(text, multiline, nested_level, ch);
        },
        TokenView::NumberLiteral {
            text,
            hex,
            dec_point,
            exponent,
            last_char_is_exponent,
            signed,
        } => {
            lemma_advance_number_keeps_text(
                text,
                hex,
                dec_point,
                exponent,
                last_char_is_exponent,
                signed,
                ch,
            );
        },
        TokenView::Identifier(_)
        | TokenView::Annotation(_)
        | TokenView::Instruction(_)
        | TokenView::Reserved(_) => {
            lemma_advance_word_keeps_text(last, ch);
        },
        TokenView::Space(_) | TokenView::LParen | TokenView::RParen => {
            lemma_advance_boundary_keeps_text(last, ch);
        },
    }
}

/// One step adds exactly the character read to the text of the sequence.
pub proof fn lemma_step_keeps_text(tokens: Seq<TokenView>, ch: char)
    ensures
        concat(step(tokens, ch)) == concat(tokens).push(ch),
{
    lemma_concat_add(settled(tokens), advance(current(tokens), ch));
    lemma_advance_keeps_text(current(tokens), ch);
}

/// Before the whitespace is removed, the texts of the tokens, one behind the
/// other, are the source text: nothing is lost, added or reordered.
pub proof fn lemma_scan_keeps_text(src: Seq<char>)
    ensures
        concat(scan(src)) == src,
    decreases src.len(),
{
    if src.len() > 0 {
        lemma_scan_keeps_text(src.drop_last());
        lemma_step_keeps_text(scan(src.drop_last()), src.last());
    }
}

/// Every character of `text` is whitespace.
pub open spec fn is_blank(text: Seq<char>) -> bool {
    forall|i: int| 0 <= i < text.len() ==> class_of(#[trigger] text[i]) is Blank
}

/// Reading whitespace alone leaves one whitespace token that holds it all.
pub proof fn lemma_scan_blank(src: Seq<char>)
    requires
        is_blank(src),
        src.len() > 0,
    ensures
        scan(src) == seq![TokenView::Space(src)],
    decreases src.len(),
{
    let rest = src.drop_last();
    if rest.len() == 0 {
        assert(scan(rest) =~= Seq::<TokenView>::empty());
        assert(marker().text().push(src.last()) =~= src);
    } else {
        assert(is_blank(rest));
        lemma_scan_blank(rest);
        assert(rest.push(src.last()) =~= src);
    }
}

/// A source text that holds nothing but whitespace has no tokens.
pub proof fn lemma_blank_source_has_no_tokens(src: Seq<char>)
    requires
        is_blank(src),
    ensures
        lex(src) == Seq::<TokenView>::empty(),
{
    reveal_with_fuel(Seq::filter, 2);
    if src.len() > 0 {
        lemma_scan_blank(src);
    }
}

/// A finished token sequence holds no whitespace token.
pub proof fn lemma_finish_has_no_space(tokens: Seq<TokenView>, i: int)
    requires
        0 <= i < finish(tokens).len(),
    ensures
        !(finish(tokens)[i] is Space),
{
    let keep = |t: TokenView| !(t is Space);
    close_last(tokens).lemma_filter_pred(keep, i);
}

/// Every whitespace token of the sequence holds whitespace only.
pub open spec fn spaces_are_blank(tokens: Seq<TokenView>) -> bool {
    forall|i: int|
        0 <= i < tokens.len() ==> (#[trigger] tokens[i] is Space ==> is_blank(tokens[i].text()))
}

/// Whitespace with one more character of whitespace.
proof fn lemma_blank_push(text: Seq<char>, ch: char)
    requires
        is_blank(text),
        class_of(ch) is Blank,
    ensures
        is_blank(text.push(ch)),
{
    let grown = text.push(ch);
    assert forall|i: int| 0 <= i < grown.len() implies class_of(#[trigger] grown[i]) is Blank by {
        if i < text.len() {
            assert(grown[i] == text[i]);
        }
    }
}

/// Whatever the last token turns into, a whitespace token in it holds
/// whitespace only.
proof fn lemma_advance_spaces(last: TokenView, ch: char)
    requires
        last is Space ==> is_blank(last.text()),
    ensures
        spaces_are_blank(advance(last, ch)),
{
    let next = advance(last, ch);
    lemma_advance_len(last, ch);
    if class_of(ch) is Blank {
        if last is Space {
            lemma_blank_push(last.text(), ch);
        }
        lemma_blank_push(Seq::empty(), ch);
        assert(Seq::<char>::empty().push(ch) =~= seq![ch]);
    }
    assert forall|i: int| 0 <= i < next.len() && #[trigger] next[i] is Space implies is_blank(
        next[i].text(),
    ) by {
        if next[i] != last {
            assert(next[i] == marker() || (class_of(ch) is Blank && (next[i].text() == seq![ch]
                || next[i].text() == last.text().push(ch))));
        }
    }
}

/// One step keeps the whitespace tokens free of anything else.
proof fn lemma_step_spaces(tokens: Seq<TokenView>, ch: char)
    requires
        spaces_are_blank(tokens),
    ensures
        spaces_are_blank(step(tokens, ch)),
{
    let kept = settled(tokens);
    let next = advance(current(tokens), ch);
    let after = step(tokens, ch);
    if tokens.len() > 0 {
        assert(tokens[tokens.len() - 1] is Space ==> is_blank(tokens[tokens.len() - 1].text()));
    }
    lemma_advance_spaces(current(tokens), ch);
    assert forall|i: int| 0 <= i < after.len() && #[trigger] after[i] is Space implies is_blank(
        after[i].text(),
    ) by {
        if i < kept.len() {
            assert(after[i] == tokens[i]);
        } else {
            assert(after[i] == next[i - kept.len()]);
        }
    }
}

/// While a text is read, the whitespace tokens hold whitespace only: every
/// other character of the source stands in a token that is kept.
pub proof fn lemma_scan_spaces(src: Seq<char>)
    ensures
        spaces_are_blank(scan(src)),
    decreases src.len(),
{
    if src.len() > 0 {
        lemma_scan_spaces(src.drop_last());
        lemma_step_spaces(scan(src.drop_last()), src.last());
    }
}

/// The texts of whitespace tokens, one behind the other, are whitespace.
proof fn lemma_concat_blank(tokens: Seq<TokenView>)
    requires
        spaces_are_blank(tokens),
        forall|i: int| 0 <= i < tokens.len() ==> #[trigger] tokens[i] is Space,
    ensures
        is_blank(concat(tokens)),
    decreases tokens.len(),
{
    if tokens.len() > 0 {
        let rest = tokens.drop_last();
        let text = tokens.last().text();
        assert forall|i: int| 0 <= i < rest.len() implies #[trigger] rest[i] is Space && is_blank(
            rest[i].text(),
        ) by {
            assert(rest[i] == tokens[i]);
        }
        lemma_concat_blank(rest);
        assert(tokens[tokens.len() - 1] is Space);
        let all = concat(tokens);
        assert forall|i: int| 0 <= i < all.len() implies class_of(#[trigger] all[i]) is Blank by {
            if i < concat(rest).len() {
                assert(all[i] == concat(rest)[i]);
            } else {
                assert(all[i] == text[i - concat(rest).len()]);
            }
        }
    }
}

/// A source text that has no tokens holds nothing but whitespace. With
/// [`lemma_blank_source_has_no_tokens`]: the tokens are none exactly when the
/// source is whitespace.
pub proof fn lemma_no_tokens_means_blank(src: Seq<char>)
    requires
        lex(src).len() == 0,
    ensures
        is_blank(src),
{
    let tokens = scan(src);
    let left = close_last(tokens);
    let keep = |t: TokenView| !(t is Space);
    lemma_scan_spaces(src);
    lemma_scan_keeps_text(src);
    assert forall|i: int| 0 <= i < tokens.len() implies #[trigger] tokens[i] is Space by {
        if !(left[i] is Space) {
            left.lemma_filter_contains(keep, i);
        }
    }
    lemma_concat_blank(tokens);
}

} // verus!
