//! What the flags of a number say, told by the text alone.
//!
//! The scanner sets the flags as the characters come. They say all the same
//! what stands in the text: the hexadecimal prefix, the point, the exponent
//! marker and the sign.

use vstd::prelude::*;
use crate::chars::{class_of, CharClass};
use crate::laws::lemma_advance_len;
use crate::model::{
    advance, advance_boundary, advance_word, close_last, current, is_lone_zero, is_signed_inf, lex,
    opening, reclassify, scan, settled, step, TokenView,
};

verus! {

/// Some character of `text` is of the class `class`.
pub open spec fn holds(text: Seq<char>, class: CharClass) -> bool {
    exists|i: int| 0 <= i < text.len() && class_of(#[trigger] text[i]) == class
}

/// The flags of a number are those that its text calls for: `hex` where the
/// text holds `x`, `dec_point` where it holds a point, `exponent` where it
/// holds the exponent marker that goes with `hex`, and `signed` where it
/// begins with a sign. The one exception is `+inf` and `-inf`, which begin
/// with a sign and are not `signed`.
pub open spec fn number_flags_follow_text(token: TokenView) -> bool {
    token matches TokenView::NumberLiteral {
        text,
        hex,
        dec_point,
        exponent,
        last_char_is_exponent,
        signed,
    } ==> {
        &&& text.len() > 0
        &&& hex == holds(text, CharClass::HexMark)
        &&& dec_point == holds(text, CharClass::Dot)
        &&& exponent == holds(
            text,
            if hex {
                CharClass::HexExponent
            } else {
                CharClass::DecExponent
            },
        )
        &&& last_char_is_exponent ==> exponent
        &&& signed ==> class_of(text[0]) is Sign
        &&& class_of(text[0]) is Sign ==> signed || is_signed_inf(text)
    }
}

/// What holds of the numbers of every sequence that a scan leaves.
spec fn numbers_ok(tokens: Seq<TokenView>) -> bool {
    &&& forall|i: int|
        0 <= i < tokens.len() ==> number_flags_follow_text(#[trigger] tokens[i])
    &&& tokens.len() > 0 && tokens.last() is NumberLiteral && class_of(tokens.last().text()[0])
        is Sign ==> tokens.last()->signed
}

/// The classes of a text with one more character.
proof fn lemma_holds_push(text: Seq<char>, ch: char, class: CharClass)
    ensures
        holds(text.push(ch), class) <==> holds(text, class) || class_of(ch) == class,
{
    let grown = text.push(ch);
    if holds(text, class) {
        let i = choose|i: int| 0 <= i < text.len() && class_of(#[trigger] text[i]) == class;
        assert(grown[i] == text[i]);
    }
    if class_of(ch) == class {
        assert(grown[text.len() as int] == ch);
    }
    if holds(grown, class) {
        let i = choose|i: int| 0 <= i < grown.len() && class_of(#[trigger] grown[i]) == class;
        if i < text.len() {
            assert(text[i] == grown[i]);
        }
    }
}

/// A text of one character holds the class of that character and no other.
proof fn lemma_holds_one(ch: char, class: CharClass)
    ensures
        holds(seq![ch], class) <==> class_of(ch) == class,
{
    let text = seq![ch];
    if class_of(ch) == class {
        assert(text[0] == ch);
    }
}

/// A number that has just been opened has the flags that its text calls for.
proof fn lemma_opening_flags(ch: char)
    ensures
        number_flags_follow_text(opening(ch)),
        opening(ch) is NumberLiteral && class_of(ch) is Sign ==> opening(ch)->signed,
{
    lemma_holds_one(ch, CharClass::HexMark);
    lemma_holds_one(ch, CharClass::Dot);
    lemma_holds_one(ch, CharClass::DecExponent);
    assert(opening(ch).text() =~= seq![ch]);
}

/// `nan`, `inf`, `+inf` and `-inf` hold nothing that would call for a flag.
proof fn lemma_reclassify_flags(token: TokenView)
    requires
        !(token is NumberLiteral),
    ensures
        number_flags_follow_text(reclassify(token)),
{
    let closed = reclassify(token);
    if closed is NumberLiteral {
        let text = token.text();
        assert forall|class: CharClass|
            class == CharClass::HexMark || class == CharClass::Dot || class
                == CharClass::DecExponent implies !holds(text, class) by {
            if holds(text, class) {
                let i = choose|i: int| 0 <= i < text.len() && class_of(#[trigger] text[i]) == class;
                assert(i == 0 || i == 1 || i == 2 || i == 3);
            }
        }
    }
}

/// A number that takes up one more character has the flags that its text
/// calls for.
proof fn lemma_advance_number_flags(last: TokenView, ch: char)
    requires
        last is NumberLiteral,
        number_flags_follow_text(last),
        class_of(last.text()[0]) is Sign ==> last->signed,
    ensures
        number_flags_follow_text(advance(last, ch)[0]),
        advance(last, ch).len() == 1 && advance(last, ch)[0] is NumberLiteral && class_of(
            advance(last, ch)[0].text()[0],
        ) is Sign ==> advance(last, ch)[0]->signed,
{
    let text = last.text();
    lemma_holds_push(text, ch, CharClass::HexMark);
    lemma_holds_push(text, ch, CharClass::Dot);
    lemma_holds_push(text, ch, CharClass::DecExponent);
    lemma_holds_push(text, ch, CharClass::HexExponent);
    assert(text.push(ch)[0] == text[0]);
    if class_of(ch) is HexMark && !last->hex && is_lone_zero(text, last->signed) {
        // before the prefix the text is a lone zero, behind the sign if there is one
        assert(!holds(text, CharClass::HexExponent)) by {
            if holds(text, CharClass::HexExponent) {
                let i = choose|i: int|
                    0 <= i < text.len() && class_of(#[trigger] text[i]) == CharClass::HexExponent;
                assert(i == 0 || i == 1);
            }
        }
    }
}

/// Whatever the last token turns into, the flags of a number in it are those
/// that its text calls for.
proof fn lemma_advance_numbers(last: TokenView, ch: char)
    requires
        number_flags_follow_text(last),
        last is NumberLiteral && class_of(last.text()[0]) is Sign ==> last->signed,
    ensures
        number_flags_follow_text(advance(last, ch)[0]),
        advance(last, ch).len() == 2 ==> number_flags_follow_text(
            advance(last, ch)[1],
        ),
        advance(last, ch).last() is NumberLiteral && class_of(advance(last, ch).last().text()[0])
            is Sign ==> advance(last, ch).last()->signed,
{
    let next = advance(last, ch);
    lemma_advance_len(last, ch);
    lemma_opening_flags(ch);
    match last {
        TokenView::NumberLiteral { .. } => {
            lemma_advance_number_flags(last, ch);
            if next.len() == 2 {
                assert(!(next[1] is NumberLiteral));
            }
        },
        TokenView::Identifier(_)
        | TokenView::Annotation(_)
        | TokenView::Instruction(_)
        | TokenView::Reserved(_) => {
            lemma_reclassify_flags(last);
            let turned = advance_word(last, ch);
            if turned.len() == 1 {
                assert(!(turned[0] is NumberLiteral));
            } else {
                assert(turned[0] == reclassify(last));
                assert(turned[1] == opening(ch));
            }
        },
        TokenView::Space(_) | TokenView::LParen | TokenView::RParen => {
            let turned = advance_boundary(last, ch);
            if turned.len() == 1 {
                assert(!(turned[0] is NumberLiteral));
            } else {
                assert(turned[0] == last);
                assert(turned[1] == opening(ch));
            }
        },
        _ => {
            assert(!(next[0] is NumberLiteral));
            if next.len() == 2 {
                assert(!(next[1] is NumberLiteral));
            }
        },
    }
}

/// One step keeps the numbers of a sequence in order.
proof fn lemma_step_numbers(tokens: Seq<TokenView>, ch: char)
    requires
        numbers_ok(tokens),
    ensures
        numbers_ok(step(tokens, ch)),
{
    let kept = settled(tokens);
    let next = advance(current(tokens), ch);
    let after = step(tokens, ch);
    lemma_advance_len(current(tokens), ch);
    if tokens.len() > 0 {
        assert(number_flags_follow_text(tokens[tokens.len() - 1]));
    }
    lemma_advance_numbers(current(tokens), ch);
    assert forall|i: int| 0 <= i < after.len() implies number_flags_follow_text(
        #[trigger] after[i],
    ) by {
        if i < kept.len() {
            assert(after[i] == tokens[i]);
        } else {
            assert(after[i] == next[i - kept.len()]);
        }
    }
    assert(after.last() == next.last());
}

/// The numbers of what a scan leaves are in order.
proof fn lemma_scan_numbers(src: Seq<char>)
    ensures
        numbers_ok(scan(src)),
    decreases src.len(),
{
    if src.len() > 0 {
        lemma_scan_numbers(src.drop_last());
        lemma_step_numbers(scan(src.drop_last()), src.last());
    }
}

/// The flags of every number of a finished sequence are those that its text
/// calls for.
pub proof fn lemma_number_flags_follow_text(src: Seq<char>, i: int)
    requires
        0 <= i < lex(src).len(),
    ensures
        number_flags_follow_text(lex(src)[i]),
{
    let left = close_last(scan(src));
    let keep = |t: TokenView| !(t is Space);
    let token = lex(src)[i];
    lemma_scan_numbers(src);
    assert(left.filter(keep).contains(token));
    left.lemma_filter_contains_rev(keep, token);
    let j = choose|j: int| 0 <= j < left.len() && left[j] == token;
    assert(number_flags_follow_text(scan(src)[j]));
    if j == left.len() - 1 && !(scan(src)[j] is NumberLiteral) {
        lemma_reclassify_flags(scan(src)[j]);
    }
}

} // verus!
