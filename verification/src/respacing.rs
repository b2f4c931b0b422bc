//! Tokenizing again what the tokens spell.
//!
//! The texts of a finished token sequence, written out with one space between
//! each two, are tokenized into the same sequence, kind by kind, text by text
//! and flag by flag: [`lemma_respacing_keeps_tokens`]. Two things stand in the
//! way, and [`respaceable`] rules them out: a reserved token that would be
//! read as an annotation or an identifier once whitespace stands before it,
//! and a comment that is still open where another token follows it, which
//! would take the space up. Nothing else does:
//! [`lemma_respacing_changes_the_rest`] shows that every sequence that is
//! ruled out is in fact changed.

use vstd::prelude::*;
use crate::chars::class_of;
use crate::laws::{
    lemma_advance_len, lemma_scan_concat, lemma_scan_nonempty, lemma_scan_prefix, lemma_scan_push,
};
use crate::model::{
    advance, advance_boundary, advance_word, close_last, current, finish, lex, marker, opening,
    reclassify, scan, scan_from, settled, spaced, step, strip, TokenView,
};

verus! {

/// No character of `text` is of the class `Other`.
pub open spec fn no_other(text: Seq<char>) -> bool {
    forall|i: int| 0 <= i < text.len() ==> !(class_of(#[trigger] text[i]) is Other)
}

/// A reserved token that begins with `@` or `$` and holds no character that
/// an annotation or identifier could not hold. Such a token stands directly
/// behind a number; behind whitespace the same text is an annotation or an
/// identifier.
pub open spec fn reads_as_name(token: TokenView) -> bool {
    &&& token matches TokenView::Reserved(text)
    &&& text.len() > 0
    &&& (class_of(text[0]) is At || class_of(text[0]) is Dollar)
    &&& no_other(text)
}

/// A comment that is still open: a line comment, or a block comment whose
/// depth is not 0. It takes up any whitespace that follows it.
pub open spec fn takes_blank(token: TokenView) -> bool {
    token matches TokenView::Comment { multiline, nested_level, .. } && !(multiline && nested_level
        == 0)
}

/// The token at `i` is one that respacing changes: a reserved token that
/// would be read as an annotation or an identifier, or a comment that is
/// still open where another token follows it.
pub open spec fn spoils(tokens: Seq<TokenView>, i: int) -> bool {
    reads_as_name(tokens[i]) || (i < tokens.len() - 1 && takes_blank(tokens[i]))
}

/// No token of the sequence is one that respacing changes.
pub open spec fn respaceable(tokens: Seq<TokenView>) -> bool {
    forall|i: int| 0 <= i < tokens.len() ==> !#[trigger] spoils(tokens, i)
}

/// Adding a character keeps a text free of `Other` exactly when the character
/// is not of that class.
proof fn lemma_no_other_push(text: Seq<char>, ch: char)
    ensures
        no_other(text.push(ch)) <==> no_other(text) && !(class_of(ch) is Other),
{
    let grown = text.push(ch);
    if no_other(text) && !(class_of(ch) is Other) {
        assert forall|i: int| 0 <= i < grown.len() implies !(class_of(#[trigger] grown[i])
            is Other) by {
            if i < text.len() {
                assert(grown[i] == text[i]);
            }
        }
    }
    if no_other(grown) {
        assert(grown[text.len() as int] == ch);
        assert forall|i: int| 0 <= i < text.len() implies !(class_of(#[trigger] text[i])
            is Other) by {
            assert(grown[i] == text[i]);
        }
    }
}

/// Removing the whitespace from a sequence with one more token.
proof fn lemma_strip_push(tokens: Seq<TokenView>, token: TokenView)
    ensures
        strip(tokens.push(token)) == if token is Space {
            strip(tokens)
        } else {
            strip(tokens).push(token)
        },
{
    tokens.lemma_filter_push(token, |t: TokenView| !(t is Space));
}

/// Removing the whitespace from two sequences, one behind the other.
proof fn lemma_strip_add(first: Seq<TokenView>, second: Seq<TokenView>)
    ensures
        strip(first + second) == strip(first) + strip(second),
{
    Seq::filter_distributes_over_add(first, second, |t: TokenView| !(t is Space));
}

/// Removing the whitespace from nothing and from one token.
proof fn lemma_strip_one(token: TokenView)
    ensures
        strip(Seq::<TokenView>::empty()) == Seq::<TokenView>::empty(),
        strip(seq![token]) == if token is Space {
            Seq::<TokenView>::empty()
        } else {
            seq![token]
        },
{
    let none = Seq::<TokenView>::empty();
    assert(strip(none) == none) by {
        reveal(Seq::filter);
    }
    lemma_strip_push(none, token);
    assert(none.push(token) =~= seq![token]);
}

/// Removing the whitespace from two tokens.
proof fn lemma_strip_two(first: TokenView, second: TokenView)
    ensures
        strip(seq![first, second]) == strip(seq![first]) + strip(seq![second]),
{
    lemma_strip_add(seq![first], seq![second]);
    assert(seq![first] + seq![second] =~= seq![first, second]);
}

/// The first character of a text read from the start.
proof fn lemma_scan_one(ch: char)
    ensures
        scan(seq![ch]) == advance_boundary(marker(), ch),
        !(class_of(ch) is Blank) ==> scan(seq![ch]) == seq![marker(), opening(ch)],
{
    let none = Seq::<char>::empty();
    assert(seq![ch].drop_last() =~= none);
    assert(scan(none) =~= Seq::<TokenView>::empty());
    assert(scan(seq![ch]) =~= advance_boundary(marker(), ch));
}

/// One more character behind a text that left the start marker and one token.
proof fn lemma_scan_grown(text: Seq<char>, token: TokenView, ch: char)
    requires
        scan(text) == seq![marker(), token],
    ensures
        scan(text.push(ch)) == seq![marker()] + advance(token, ch),
{
    lemma_scan_push(Seq::empty(), text, ch);
    assert(settled(seq![marker(), token]) =~= seq![marker()]);
}

/// A text that does not begin with whitespace leaves the same tokens behind
/// any whitespace as behind the start.
proof fn lemma_scan_behind_space(before: Seq<TokenView>, text: Seq<char>)
    requires
        before.len() > 0,
        before.last() is Space,
        text.len() > 0,
        !(class_of(text[0]) is Blank),
    ensures
        scan(text).len() >= 2,
        scan(text)[0] == marker(),
        scan_from(before, text) == before + scan(text).drop_first(),
{
    let ch = text[0];
    let rest = text.drop_first();
    let opened = seq![opening(ch)];
    assert(seq![ch] + rest =~= text);
    lemma_scan_one(ch);
    // behind the start
    lemma_scan_concat(Seq::empty(), seq![ch], rest);
    assert(seq![marker(), opening(ch)] =~= seq![marker()] + opened);
    lemma_scan_prefix(seq![marker()], opened, rest);
    lemma_scan_nonempty(opened, rest);
    assert(scan(text) == seq![marker()] + scan_from(opened, rest));
    assert(scan(text).drop_first() =~= scan_from(opened, rest));
    // behind `before`
    lemma_scan_concat(before, seq![ch], rest);
    lemma_scan_push(before, Seq::empty(), ch);
    assert(Seq::<char>::empty().push(ch) =~= seq![ch]);
    assert(scan_from(before, Seq::empty()) == before);
    assert(step(before, ch) =~= before + opened) by {
        assert(advance(before.last(), ch) == seq![before.last(), opening(ch)]);
        assert(settled(before) + seq![before.last(), opening(ch)] =~= before + opened);
    }
    lemma_scan_prefix(before, opened, rest);
}

/// The token that the text of `token` gives when it is read from the start:
/// the token itself, but for a reserved token that would be read as an
/// annotation or an identifier.
spec fn read_alone(token: TokenView) -> TokenView {
    if reads_as_name(token) {
        if class_of(token.text()[0]) is At {
            TokenView::Annotation(token.text())
        } else {
            TokenView::Identifier(token.text())
        }
    } else {
        token
    }
}

/// The text of the token is not empty and does not begin with whitespace.
spec fn begins(token: TokenView) -> bool {
    token.text().len() > 0 && !(class_of(token.text()[0]) is Blank)
}

/// The text of the token, tokenized alone, gives the token back.
spec fn comes_back(token: TokenView) -> bool {
    lex(token.text()) == seq![token]
}

/// The text of the token and a space behind it leave the start marker, the
/// token, closed, and the space.
spec fn parts_cleanly(token: TokenView) -> bool {
    scan(token.text().push(' ')) == seq![marker(), token, TokenView::Space(seq![' '])]
}

/// What holds of the last token of a scan, which is still open: read from the
/// start, its text leaves the start marker and the token as it stands.
spec fn open_ok(token: TokenView) -> bool {
    token is Space || {
        &&& begins(token)
        &&& scan(token.text()) == seq![marker(), read_alone(token)]
        &&& (token is NumberLiteral || token is Comment || token is StringLiteral) ==> !(class_of(
            token.text()[0],
        ) is At) && !(class_of(token.text()[0]) is Dollar)
        &&& token matches TokenView::Comment { multiline, nested_level, .. } ==> (multiline
            ==> nested_level >= 1)
    }
}

/// What holds of a token that ends a finished sequence.
spec fn last_ok(token: TokenView) -> bool {
    &&& !(token is Space)
    &&& begins(token)
    &&& !reads_as_name(token) ==> comes_back(token)
    &&& reads_as_name(token) || takes_blank(token) ==> scan(token.text()) == seq![
        marker(),
        read_alone(token),
    ]
}

/// What holds of a token of a scan that has been closed.
spec fn settled_ok(token: TokenView) -> bool {
    token is Space || {
        &&& last_ok(token)
        &&& !reads_as_name(token) && !takes_blank(token) ==> parts_cleanly(token)
    }
}

/// A token that a character opens is in order.
proof fn lemma_opened_ok(token: TokenView, ch: char)
    requires
        token == opening(ch) || (token == TokenView::Reserved(seq![ch]) && (class_of(ch) is At
            || class_of(ch) is Dollar)),
    ensures
        open_ok(token),
{
    if !(class_of(ch) is Blank) {
        lemma_scan_one(ch);
        assert(token.text() =~= seq![ch]);
        if token != opening(ch) {
            assert(no_other(seq![ch]));
            assert(reads_as_name(token));
        }
        assert(read_alone(token) == opening(ch));
    }
}

/// A token that is closed while it is the last one comes back from its text.
proof fn lemma_closed_comes_back(token: TokenView)
    requires
        open_ok(token),
        !(token is Space),
    ensures
        last_ok(reclassify(token)),
{
    let closed = reclassify(token);
    if !reads_as_name(closed) {
        assert(!reads_as_name(token));
        let left = seq![marker(), token];
        assert(close_last(left) =~= seq![marker(), closed]);
        lemma_strip_two(marker(), closed);
        lemma_strip_one(marker());
        lemma_strip_one(closed);
        assert(strip(seq![marker(), closed]) =~= seq![closed]);
    }
}

/// A token that whitespace, a parenthesis, a quote or `;` closes is in order.
proof fn lemma_closed_ok(token: TokenView)
    requires
        open_ok(token),
        !(token is Space),
        !(token is StringLiteral),
    ensures
        settled_ok(reclassify(token)),
{
    let closed = reclassify(token);
    lemma_closed_comes_back(token);
    if !reads_as_name(closed) && !takes_blank(closed) {
        assert(!reads_as_name(token));
        lemma_scan_grown(token.text(), token, ' ');
        assert(advance(token, ' ') =~= seq![closed, TokenView::Space(seq![' '])]);
        assert(seq![marker()] + seq![closed, TokenView::Space(seq![' '])] =~= seq![
            marker(),
            closed,
            TokenView::Space(seq![' ']),
        ]);
    }
}

/// A string or block comment that its last character closes, with the marker
/// behind it, is in order.
proof fn lemma_ended_ok(text: Seq<char>, ended: TokenView)
    requires
        scan(text) == seq![marker(), ended, marker()],
        ended.text() == text,
        text.len() > 0,
        !(class_of(text[0]) is Blank),
        ended is StringLiteral || ended is Comment,
        !takes_blank(ended),
        reclassify(ended) == ended,
    ensures
        settled_ok(ended),
{
    let left = seq![marker(), ended, marker()];
    assert(comes_back(ended)) by {
        assert(close_last(left) =~= left);
        assert(left =~= seq![marker(), ended] + seq![marker()]);
        lemma_strip_add(seq![marker(), ended], seq![marker()]);
        lemma_strip_two(marker(), ended);
        lemma_strip_one(marker());
        lemma_strip_one(ended);
        assert(strip(left) =~= seq![ended]);
    }
    assert(parts_cleanly(ended)) by {
        lemma_scan_push(Seq::empty(), text, ' ');
        assert(settled(left) =~= seq![marker(), ended]);
        assert(marker().text().push(' ') =~= seq![' ']);
        assert(advance(marker(), ' ') =~= seq![TokenView::Space(seq![' '])]);
        assert(step(left, ' ') =~= seq![marker(), ended, TokenView::Space(seq![' '])]);
    }
    assert(!reads_as_name(ended));
}

/// The outcome of one character: a token that it closes, if there is one, and
/// the token that is then the last.
spec fn outcome_ok(next: Seq<TokenView>) -> bool {
    &&& 1 <= next.len() <= 2
    &&& next.len() == 2 ==> settled_ok(next[0])
    &&& open_ok(next.last())
}

/// Whitespace or a parenthesis is the last token, and `ch` is read.
proof fn lemma_advance_boundary_ok(last: TokenView, ch: char)
    requires
        open_ok(last),
        last.is_boundary(),
    ensures
        outcome_ok(advance_boundary(last, ch)),
{
    let next = advance_boundary(last, ch);
    if next.len() == 2 {
        lemma_opened_ok(opening(ch), ch);
        if !(last is Space) {
            lemma_closed_ok(last);
        }
    } else if last is LParen {
        let text = seq!['(', ';'];
        lemma_scan_grown(last.text(), last, ch);
        assert(last.text().push(ch) =~= text);
        assert(seq![marker()] + advance(last, ch) =~= seq![marker(), next[0]]);
    }
}

/// An identifier, annotation, instruction or reserved token is the last
/// token, and `ch` is read.
proof fn lemma_advance_word_ok(last: TokenView, ch: char)
    requires
        open_ok(last),
        last.is_word(),
    ensures
        outcome_ok(advance_word(last, ch)),
{
    let next = advance_word(last, ch);
    let text = last.text();
    let grown = text.push(ch);
    if next.len() == 2 {
        lemma_closed_ok(last);
        lemma_opened_ok(next[1], ch);
    } else {
        let alone = read_alone(last);
        lemma_scan_grown(text, alone, ch);
        lemma_no_other_push(text, ch);
        assert(alone.text() == text);
        assert(grown[0] == text[0]);
        if class_of(ch) is Semicolon {
            assert(grown =~= seq![';', ';']);
            assert(seq![marker()] + advance(alone, ch) =~= seq![marker(), next[0]]);
        } else {
            assert(next[0].text() == grown);
            assert(seq![marker()] + advance(alone, ch) =~= seq![marker(), read_alone(next[0])]);
        }
    }
}

/// A number is the last token, and `ch` is read.
proof fn lemma_advance_number_ok(last: TokenView, ch: char)
    requires
        open_ok(last),
        last is NumberLiteral,
    ensures
        outcome_ok(advance(last, ch)),
{
    let next = advance(last, ch);
    let text = last.text();
    let grown = text.push(ch);
    if next.len() == 2 {
        lemma_closed_ok(last);
        lemma_opened_ok(next[1], ch);
    } else {
        lemma_scan_grown(text, last, ch);
        assert(grown[0] == text[0]);
        assert(next[0].text() == grown);
        assert(seq![marker()] + advance(last, ch) =~= seq![marker(), read_alone(next[0])]);
    }
}

/// A comment is the last token, and `ch` is read.
proof fn lemma_advance_comment_ok(last: TokenView, ch: char)
    requires
        open_ok(last),
        last is Comment,
    ensures
        outcome_ok(advance(last, ch)),
{
    let next = advance(last, ch);
    let text = last.text();
    let grown = text.push(ch);
    lemma_scan_grown(text, last, ch);
    assert(grown[0] == text[0]);
    if class_of(ch) is Quote {
        lemma_closed_ok(last);
        lemma_opened_ok(next[1], ch);
    } else if next.len() == 2 {
        assert(seq![marker()] + next =~= seq![marker(), next[0], marker()]);
        lemma_ended_ok(grown, next[0]);
    } else {
        assert(next[0].text() == grown);
        assert(seq![marker()] + next =~= seq![marker(), read_alone(next[0])]);
    }
}

/// An open string is the last token, and `ch` is read.
proof fn lemma_advance_string_ok(last: TokenView, ch: char)
    requires
        open_ok(last),
        last is StringLiteral,
    ensures
        outcome_ok(advance(last, ch)),
{
    let next = advance(last, ch);
    let text = last.text();
    let grown = text.push(ch);
    lemma_scan_grown(text, last, ch);
    assert(grown[0] == text[0]);
    if next.len() == 2 {
        assert(seq![marker()] + next =~= seq![marker(), next[0], marker()]);
        assert(grown.last() == ch);
        lemma_ended_ok(grown, next[0]);
    } else {
        assert(next[0].text() == grown);
        assert(seq![marker()] + next =~= seq![marker(), read_alone(next[0])]);
    }
}

/// Whatever the last token turns into when a character is read is in order.
proof fn lemma_advance_ok(last: TokenView, ch: char)
    requires
        open_ok(last),
    ensures
        outcome_ok(advance(last, ch)),
{
    match last {
        TokenView::StringLiteral { .. } => lemma_advance_string_ok(last, ch),
        TokenView::Comment { .. } => lemma_advance_comment_ok(last, ch),
        TokenView::NumberLiteral { .. } => lemma_advance_number_ok(last, ch),
        TokenView::Identifier(_)
        | TokenView::Annotation(_)
        | TokenView::Instruction(_)
        | TokenView::Reserved(_) => lemma_advance_word_ok(last, ch),
        TokenView::Space(_) | TokenView::LParen | TokenView::RParen => lemma_advance_boundary_ok(
            last,
            ch,
        ),
    }
}

/// What holds of every sequence that a scan leaves: the tokens before the
/// last are closed and in order, and so is the last, which is open.
spec fn scan_ok(tokens: Seq<TokenView>) -> bool {
    &&& forall|i: int| 0 <= i < tokens.len() - 1 ==> settled_ok(#[trigger] tokens[i])
    &&& tokens.len() > 0 ==> open_ok(tokens.last())
}

/// One step keeps a sequence in order.
proof fn lemma_step_ok(tokens: Seq<TokenView>, ch: char)
    requires
        scan_ok(tokens),
    ensures
        scan_ok(step(tokens, ch)),
{
    let kept = settled(tokens);
    let next = advance(current(tokens), ch);
    let after = step(tokens, ch);
    lemma_advance_ok(current(tokens), ch);
    assert forall|i: int| 0 <= i < after.len() - 1 implies settled_ok(#[trigger] after[i]) by {
        if i < kept.len() {
            assert(after[i] == tokens[i]);
        } else {
            assert(after[i] == next[0]);
        }
    }
    assert(after.last() == next.last());
}

/// What a scan leaves is in order.
proof fn lemma_scan_ok(src: Seq<char>)
    ensures
        scan_ok(scan(src)),
    decreases src.len(),
{
    if src.len() > 0 {
        lemma_scan_ok(src.drop_last());
        lemma_step_ok(scan(src.drop_last()), src.last());
    }
}

/// What holds of every finished sequence: each token comes back from its
/// text, and each but the last parts cleanly from a space behind it, unless
/// it is one of those that [`respaceable`] rules out.
spec fn finished_ok(tokens: Seq<TokenView>) -> bool {
    forall|i: int|
        0 <= i < tokens.len() ==> {
            &&& last_ok(#[trigger] tokens[i])
            &&& i < tokens.len() - 1 ==> settled_ok(tokens[i])
        }
}

/// Removing the whitespace from closed tokens that are in order.
proof fn lemma_strip_settled(tokens: Seq<TokenView>)
    requires
        forall|i: int| 0 <= i < tokens.len() ==> settled_ok(#[trigger] tokens[i]),
    ensures
        forall|i: int|
            0 <= i < strip(tokens).len() ==> !(#[trigger] strip(tokens)[i] is Space) && settled_ok(
                strip(tokens)[i],
            ),
    decreases tokens.len(),
{
    if tokens.len() == 0 {
        lemma_strip_one(marker());
    } else {
        let rest = tokens.drop_last();
        assert forall|i: int| 0 <= i < rest.len() implies settled_ok(#[trigger] rest[i]) by {
            assert(rest[i] == tokens[i]);
        }
        lemma_strip_settled(rest);
        lemma_strip_push(rest, tokens.last());
        assert(rest.push(tokens.last()) =~= tokens);
    }
}

/// What is left at the end of the input is in order.
proof fn lemma_finish_ok(tokens: Seq<TokenView>)
    requires
        scan_ok(tokens),
    ensures
        finished_ok(finish(tokens)),
{
    if tokens.len() == 0 {
        lemma_strip_one(marker());
    } else {
        let rest = tokens.drop_last();
        let closed = reclassify(tokens.last());
        assert(close_last(tokens) =~= rest.push(closed));
        assert forall|i: int| 0 <= i < rest.len() implies settled_ok(#[trigger] rest[i]) by {
            assert(rest[i] == tokens[i]);
        }
        lemma_strip_settled(rest);
        lemma_strip_push(rest, closed);
        if !(tokens.last() is Space) {
            lemma_closed_comes_back(tokens.last());
        }
    }
}

/// Each token of a finished sequence, but for a reserved token that would be
/// read as an annotation or an identifier, is all that its own text is
/// tokenized into: the same kind, the same text and the same flags.
pub proof fn lemma_token_comes_back(src: Seq<char>, i: int)
    requires
        0 <= i < lex(src).len(),
        !reads_as_name(lex(src)[i]),
    ensures
        lex(lex(src)[i].text()) == seq![lex(src)[i]],
{
    lemma_scan_ok(src);
    lemma_finish_ok(scan(src));
    assert(last_ok(lex(src)[i]));
}

/// The start marker, and behind it each token with a space behind it: what
/// reading the spaced-out texts leaves, a space at the end included.
spec fn laid_out(tokens: Seq<TokenView>) -> Seq<TokenView>
    decreases tokens.len(),
{
    if tokens.len() == 0 {
        seq![marker()]
    } else {
        laid_out(tokens.drop_last()) + seq![tokens.last(), TokenView::Space(seq![' '])]
    }
}

/// Without its whitespace, the laid-out sequence is the tokens themselves.
proof fn lemma_strip_laid_out(tokens: Seq<TokenView>)
    requires
        forall|i: int| 0 <= i < tokens.len() ==> !(#[trigger] tokens[i] is Space),
    ensures
        strip(laid_out(tokens)) == tokens,
        laid_out(tokens).len() > 0,
        laid_out(tokens).last() is Space,
    decreases tokens.len(),
{
    if tokens.len() == 0 {
        lemma_strip_one(marker());
        assert(strip(laid_out(tokens)) =~= tokens);
    } else {
        let rest = tokens.drop_last();
        let space = TokenView::Space(seq![' ']);
        lemma_strip_laid_out(rest);
        lemma_strip_add(laid_out(rest), seq![tokens.last(), space]);
        lemma_strip_two(tokens.last(), space);
        lemma_strip_one(tokens.last());
        lemma_strip_one(space);
        assert(strip(laid_out(tokens)) =~= tokens);
    }
}

/// Reading the spaced-out texts of tokens that part cleanly, and a space.
proof fn lemma_scan_spaced(tokens: Seq<TokenView>)
    requires
        tokens.len() > 0,
        forall|i: int|
            0 <= i < tokens.len() ==> begins(#[trigger] tokens[i]) && parts_cleanly(tokens[i])
                && !(tokens[i] is Space),
    ensures
        scan(spaced(tokens).push(' ')) == laid_out(tokens),
    decreases tokens.len(),
{
    let last = tokens.last();
    let space = TokenView::Space(seq![' ']);
    let rest = tokens.drop_last();
    if tokens.len() == 1 {
        assert(laid_out(rest) =~= seq![marker()]);
        assert(laid_out(tokens) =~= seq![marker(), last, space]);
    } else {
        assert forall|i: int| 0 <= i < rest.len() implies begins(#[trigger] rest[i])
            && parts_cleanly(rest[i]) && !(rest[i] is Space) by {
            assert(rest[i] == tokens[i]);
        }
        lemma_scan_spaced(rest);
        lemma_strip_laid_out(rest);
        let text = last.text().push(' ');
        assert(spaced(tokens).push(' ') =~= spaced(rest).push(' ') + text);
        lemma_scan_concat(Seq::empty(), spaced(rest).push(' '), text);
        lemma_scan_behind_space(laid_out(rest), text);
        assert(scan(text).drop_first() =~= seq![last, space]);
    }
}

/// The texts of a finished token sequence, written out with one space between
/// each two, are tokenized into the same sequence, provided that none of its
/// tokens is one that whitespace in front of it or behind it would change.
pub proof fn lemma_respacing_keeps_tokens(src: Seq<char>)
    requires
        respaceable(lex(src)),
    ensures
        lex(spaced(lex(src))) == lex(src),
{
    let tokens = lex(src);
    lemma_scan_ok(src);
    lemma_finish_ok(scan(src));
    if tokens.len() == 0 {
        assert(scan(spaced(tokens)) =~= Seq::<TokenView>::empty());
        lemma_strip_one(marker());
        assert(lex(spaced(tokens)) =~= tokens);
    } else if tokens.len() == 1 {
        assert(!spoils(tokens, 0));
        assert(lex(spaced(tokens)) =~= tokens);
    } else {
        let rest = tokens.drop_last();
        let last = tokens.last();
        assert forall|i: int| 0 <= i < rest.len() implies begins(#[trigger] rest[i])
            && parts_cleanly(rest[i]) && !(rest[i] is Space) by {
            assert(rest[i] == tokens[i]);
            assert(!spoils(tokens, i));
        }
        lemma_scan_spaced(rest);
        lemma_strip_laid_out(rest);
        let before = laid_out(rest);
        let text = last.text();
        assert(spaced(tokens) =~= spaced(rest).push(' ') + text);
        lemma_scan_concat(Seq::empty(), spaced(rest).push(' '), text);
        lemma_scan_behind_space(before, text);
        // what the last token leaves, behind the start and behind `before`
        assert(!spoils(tokens, tokens.len() - 1));
        let alone = scan(text);
        let tail = alone.drop_first();
        assert(alone =~= seq![marker()] + tail);
        assert(close_last(alone) =~= seq![marker()] + close_last(tail));
        assert(close_last(before + tail) =~= before + close_last(tail));
        lemma_strip_add(seq![marker()], close_last(tail));
        lemma_strip_add(before, close_last(tail));
        lemma_strip_one(marker());
        assert(strip(close_last(tail)) =~= seq![last]);
        assert(lex(spaced(tokens)) =~= rest + seq![last]);
        assert(rest + seq![last] =~= tokens);
    }
}

/// What the spaced-out texts hold behind the first `from` tokens.
spec fn spaced_from(tokens: Seq<TokenView>, from: int) -> Seq<char>
    decreases tokens.len(),
{
    if tokens.len() <= from || tokens.len() == 0 {
        Seq::empty()
    } else {
        spaced_from(tokens.drop_last(), from) + seq![' '] + tokens.last().text()
    }
}

/// The spaced-out texts are those of the first `from` tokens and then the
/// rest, which begins with a space.
proof fn lemma_spaced_split(tokens: Seq<TokenView>, from: int)
    requires
        1 <= from <= tokens.len(),
    ensures
        spaced(tokens) == spaced(tokens.take(from)) + spaced_from(tokens, from),
        from < tokens.len() ==> spaced_from(tokens, from).len() > 0 && spaced_from(tokens, from)[0]
            == ' ',
    decreases tokens.len(),
{
    if from == tokens.len() {
        assert(tokens.take(from) =~= tokens);
        assert(spaced(tokens) =~= spaced(tokens) + spaced_from(tokens, from));
    } else {
        let rest = tokens.drop_last();
        lemma_spaced_split(rest, from);
        assert(rest.take(from) =~= tokens.take(from));
        assert(spaced(tokens) =~= spaced(tokens.take(from)) + spaced_from(tokens, from));
    }
}

/// What is to be shown of the first token that `last` turns into: it is no
/// whitespace and has at least the text that `last` had.
spec fn first_stays(last: TokenView, next: Seq<TokenView>) -> bool {
    !(next[0] is Space) && next[0].text().len() >= last.text().len()
}

/// The first token of what a parenthesis turns into.
proof fn lemma_first_of_boundary(last: TokenView, ch: char)
    requires
        last is LParen || last is RParen,
    ensures
        first_stays(last, advance_boundary(last, ch)),
{
}

/// The first token of what a word turns into.
proof fn lemma_first_of_word(last: TokenView, ch: char)
    requires
        last.is_word(),
    ensures
        first_stays(last, advance_word(last, ch)),
{
}

/// The first token of what a number turns into.
proof fn lemma_first_of_number(last: TokenView, ch: char)
    requires
        last is NumberLiteral,
    ensures
        first_stays(last, advance(last, ch)),
{
}

/// The first token of what a comment turns into.
proof fn lemma_first_of_comment(last: TokenView, ch: char)
    requires
        last is Comment,
    ensures
        first_stays(last, advance(last, ch)),
{
}

/// The first token of what an open string turns into.
proof fn lemma_first_of_string(last: TokenView, ch: char)
    requires
        last is StringLiteral,
    ensures
        first_stays(last, advance(last, ch)),
{
}

/// The first token of what one character leaves is no whitespace and has at
/// least the text that the token had.
proof fn lemma_advance_first(last: TokenView, ch: char)
    requires
        !(last is Space),
    ensures
        first_stays(last, advance(last, ch)),
{
    match last {
        TokenView::StringLiteral { .. } => lemma_first_of_string(last, ch),
        TokenView::Comment { .. } => lemma_first_of_comment(last, ch),
        TokenView::NumberLiteral { .. } => lemma_first_of_number(last, ch),
        TokenView::Identifier(_)
        | TokenView::Annotation(_)
        | TokenView::Instruction(_)
        | TokenView::Reserved(_) => lemma_first_of_word(last, ch),
        _ => lemma_first_of_boundary(last, ch),
    }
}

/// A token that is not whitespace stays in its place while more is read, and
/// its text gets no shorter.
proof fn lemma_first_grows(first: TokenView, text: Seq<char>)
    requires
        !(first is Space),
    ensures
        scan_from(seq![first], text).len() >= 1,
        !(scan_from(seq![first], text)[0] is Space),
        scan_from(seq![first], text)[0].text().len() >= first.text().len(),
    decreases text.len(),
{
    if text.len() > 0 {
        let before = scan_from(seq![first], text.drop_last());
        let next = advance(current(before), text.last());
        let after = scan_from(seq![first], text);
        lemma_first_grows(first, text.drop_last());
        lemma_advance_len(current(before), text.last());
        assert(after == settled(before) + next);
        if before.len() == 1 {
            lemma_advance_first(before[0], text.last());
            assert(after[0] == next[0]);
        } else {
            assert(after[0] == before[0]);
        }
    }
}

/// A first token that is no whitespace is still the first without the
/// whitespace.
proof fn lemma_strip_first(tokens: Seq<TokenView>)
    requires
        tokens.len() > 0,
        !(tokens[0] is Space),
    ensures
        strip(tokens).len() > 0,
        strip(tokens)[0] == tokens[0],
{
    assert(tokens =~= seq![tokens[0]] + tokens.drop_first());
    lemma_strip_add(seq![tokens[0]], tokens.drop_first());
    lemma_strip_one(tokens[0]);
}

/// The first token that respacing changes.
proof fn first_spoiled(tokens: Seq<TokenView>, from: int) -> (k: int)
    requires
        0 <= from <= tokens.len(),
        forall|i: int| 0 <= i < from ==> !#[trigger] spoils(tokens, i),
        !respaceable(tokens),
    ensures
        from <= k < tokens.len(),
        spoils(tokens, k),
        forall|i: int| 0 <= i < k ==> !#[trigger] spoils(tokens, i),
    decreases tokens.len() - from,
{
    if from < tokens.len() && spoils(tokens, from) {
        from
    } else {
        first_spoiled(tokens, from + 1)
    }
}

/// What reading the spaced-out texts of the first `k` tokens leaves, with the
/// space behind them if there are any.
spec fn read_before(tokens: Seq<TokenView>, k: int) -> Seq<TokenView> {
    if k == 0 {
        seq![marker()]
    } else {
        laid_out(tokens.take(k))
    }
}

/// Reading the spaced-out texts up to the first token that respacing changes:
/// the tokens before it are in their places, and the token itself is read as
/// its text alone is read.
proof fn lemma_read_up_to(tokens: Seq<TokenView>, k: int)
    requires
        finished_ok(tokens),
        0 <= k < tokens.len(),
        spoils(tokens, k),
        forall|i: int| 0 <= i < k ==> !#[trigger] spoils(tokens, i),
    ensures
        scan(spaced(tokens.take(k + 1))) == read_before(tokens, k) + seq![read_alone(tokens[k])],
        strip(read_before(tokens, k)) == tokens.take(k),
{
    let spoiled = tokens[k];
    let text = spoiled.text();
    let alone = read_alone(spoiled);
    let lead = tokens.take(k);
    let upto = tokens.take(k + 1);
    let before = read_before(tokens, k);
    assert(upto.last() == spoiled);
    assert(upto.drop_last() =~= lead);
    assert(scan(text) == seq![marker(), alone]);
    assert(scan(text).drop_first() =~= seq![alone]);
    if k == 0 {
        lemma_strip_one(marker());
        assert(strip(before) =~= lead);
        assert(scan(spaced(upto)) =~= before + seq![alone]);
    } else {
        assert forall|i: int| 0 <= i < lead.len() implies begins(#[trigger] lead[i])
            && parts_cleanly(lead[i]) && !(lead[i] is Space) by {
            assert(lead[i] == tokens[i]);
            assert(!spoils(tokens, i));
        }
        lemma_scan_spaced(lead);
        lemma_strip_laid_out(lead);
        assert(spaced(upto) =~= spaced(lead).push(' ') + text);
        lemma_scan_concat(Seq::empty(), spaced(lead).push(' '), text);
        lemma_scan_behind_space(before, text);
    }
}

/// A name that whitespace follows, or nothing, stays as it was read.
proof fn lemma_name_stays(name: TokenView, rest: Seq<char>)
    requires
        name is Annotation || name is Identifier,
        rest.len() > 0 ==> rest[0] == ' ',
    ensures
        close_last(scan_from(seq![name], rest)).len() > 0,
        close_last(scan_from(seq![name], rest))[0] == name,
{
    if rest.len() > 0 {
        let more = rest.drop_first();
        let space = TokenView::Space(seq![' ']);
        assert(rest =~= seq![' '] + more);
        lemma_scan_concat(seq![name], seq![' '], more);
        lemma_scan_push(seq![name], Seq::empty(), ' ');
        assert(Seq::<char>::empty().push(' ') =~= seq![' ']);
        assert(step(seq![name], ' ') =~= seq![name] + seq![space]);
        lemma_scan_prefix(seq![name], seq![space], more);
        lemma_scan_nonempty(seq![space], more);
    }
}

/// An open comment that a space follows takes it up: whatever is read behind
/// it, the text of the token in its place is longer than the comment was.
proof fn lemma_comment_grows(comment: TokenView, rest: Seq<char>)
    requires
        takes_blank(comment),
        rest.len() > 0,
        rest[0] == ' ',
    ensures
        close_last(scan_from(seq![comment], rest)).len() > 0,
        !(close_last(scan_from(seq![comment], rest))[0] is Space),
        close_last(scan_from(seq![comment], rest))[0].text().len() > comment.text().len(),
{
    let more = rest.drop_first();
    let grown = comment.with_text(comment.text().push(' '));
    assert(rest =~= seq![' '] + more);
    lemma_scan_concat(seq![comment], seq![' '], more);
    lemma_scan_push(seq![comment], Seq::empty(), ' ');
    assert(Seq::<char>::empty().push(' ') =~= seq![' ']);
    assert(step(seq![comment], ' ') =~= seq![grown]);
    lemma_first_grows(grown, more);
}

/// Where the token at `k` is the first that respacing changes, the token at
/// `k` of what the spaced-out texts are tokenized into is another one.
proof fn lemma_spoiled_changes(tokens: Seq<TokenView>, k: int)
    requires
        finished_ok(tokens),
        0 <= k < tokens.len(),
        spoils(tokens, k),
        forall|i: int| 0 <= i < k ==> !#[trigger] spoils(tokens, i),
    ensures
        lex(spaced(tokens)).len() > k,
        lex(spaced(tokens))[k] != tokens[k],
{
    let spoiled = tokens[k];
    let alone = read_alone(spoiled);
    let lead = tokens.take(k);
    let rest = spaced_from(tokens, k + 1);
    let before = read_before(tokens, k);
    let tail = scan_from(seq![alone], rest);
    lemma_spaced_split(tokens, k + 1);
    lemma_read_up_to(tokens, k);
    lemma_scan_concat(Seq::empty(), spaced(tokens.take(k + 1)), rest);
    lemma_scan_prefix(before, seq![alone], rest);
    lemma_scan_nonempty(seq![alone], rest);
    assert(scan(spaced(tokens)) == before + tail);
    assert(close_last(before + tail) =~= before + close_last(tail));
    lemma_strip_add(before, close_last(tail));
    if reads_as_name(spoiled) {
        lemma_name_stays(alone, rest);
    } else {
        lemma_comment_grows(spoiled, rest);
    }
    lemma_strip_first(close_last(tail));
    let again = lex(spaced(tokens));
    assert(again == lead + strip(close_last(tail)));
    assert(again[k] == strip(close_last(tail))[0]);
}

/// The sequences that [`respaceable`] rules out are those, and only those,
/// that respacing changes: where a token of the sequence would be read as
/// another kind, or is a comment that takes up the space behind it, the
/// spaced-out texts are tokenized into another sequence.
pub proof fn lemma_respacing_changes_the_rest(src: Seq<char>)
    requires
        !respaceable(lex(src)),
    ensures
        lex(spaced(lex(src))) != lex(src),
{
    let tokens = lex(src);
    lemma_scan_ok(src);
    lemma_finish_ok(scan(src));
    let k = first_spoiled(tokens, 0);
    lemma_spoiled_changes(tokens, k);
}

} // verus!
