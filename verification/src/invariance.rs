//! What leaves a parse as it is: a pair of parentheses around the whole, and
//! blanks between tokens.

use vstd::prelude::*;
use crate::formula::Prop;
use crate::parser::{
    conjunction, conjunction_from, disjunction, disjunction_from, implication, lemma_progress,
    lemma_word_end, lex, or_sign, parse_tokens, text_of, token_is, unary, word_end, Glyph, Lexeme,
    Parsed, SyntaxError,
};

verus! {

/// Whether the token at `pos` is a binary sign, one that makes a formula go
/// on.
pub open spec fn continues(ts: Seq<Lexeme>, pos: int) -> bool {
    token_is(ts, pos, Lexeme::And) || or_sign(ts, pos) || token_is(ts, pos, Lexeme::Implies)
}

/// The tokens `ts` stand in `us` from position `d` on, and what follows them
/// there is no binary sign.
pub open spec fn embedded(ts: Seq<Lexeme>, us: Seq<Lexeme>, d: int) -> bool {
    &&& d >= 0
    &&& us.len() >= ts.len() + d
    &&& forall|i: int| 0 <= i < ts.len() ==> us[i + d] == #[trigger] ts[i]
    &&& !continues(us, ts.len() + d)
}

/// Where `r` succeeds, `shifted` succeeds with the same formula, `d` tokens
/// further on.
pub open spec fn carried(r: Parsed, shifted: Parsed, d: int) -> bool {
    r matches Ok((f, p)) ==> shifted == Ok::<(Prop, int), SyntaxError>((f, p + d))
}

proof fn lemma_embedded_unary(ts: Seq<Lexeme>, us: Seq<Lexeme>, d: int, pos: int)
    requires
        embedded(ts, us, d),
        0 <= pos,
    ensures
        carried(unary(ts, pos), unary(us, pos + d), d),
    decreases ts.len() - pos, 0nat,
{
    if pos < ts.len() {
        assert(us[pos + d] == ts[pos]);
        match ts[pos] {
            Lexeme::Not => {
                lemma_embedded_unary(ts, us, d, pos + 1);
            },
            Lexeme::LParen => {
                lemma_embedded(ts, us, d, pos + 1);
                if let Ok((f, p)) = implication(ts, pos + 1) {
                    if token_is(ts, p, Lexeme::RParen) {
                        assert(us[p + d] == ts[p]);
                    }
                }
            },
            _ => {},
        }
    }
}

proof fn lemma_embedded_conjunction_from(
    ts: Seq<Lexeme>,
    us: Seq<Lexeme>,
    d: int,
    left: Prop,
    pos: int,
)
    requires
        embedded(ts, us, d),
        0 <= pos <= ts.len(),
    ensures
        carried(conjunction_from(ts, left, pos), conjunction_from(us, left, pos + d), d),
    decreases ts.len() - pos, 1nat,
{
    if pos < ts.len() {
        assert(us[pos + d] == ts[pos]);
    }
    if token_is(ts, pos, Lexeme::And) {
        lemma_embedded_unary(ts, us, d, pos + 1);
        lemma_progress(ts, pos + 1);
        if let Ok((right, p)) = unary(ts, pos + 1) {
            lemma_embedded_conjunction_from(
                ts,
                us,
                d,
                Prop::And(Box::new(left), Box::new(right)),
                p,
            );
        }
    }
}

proof fn lemma_embedded_conjunction(ts: Seq<Lexeme>, us: Seq<Lexeme>, d: int, pos: int)
    requires
        embedded(ts, us, d),
        0 <= pos,
    ensures
        carried(conjunction(ts, pos), conjunction(us, pos + d), d),
    decreases ts.len() - pos, 2nat,
{
    lemma_embedded_unary(ts, us, d, pos);
    lemma_progress(ts, pos);
    if let Ok((left, p)) = unary(ts, pos) {
        lemma_embedded_conjunction_from(ts, us, d, left, p);
    }
}

proof fn lemma_embedded_disjunction_from(
    ts: Seq<Lexeme>,
    us: Seq<Lexeme>,
    d: int,
    left: Prop,
    pos: int,
)
    requires
        embedded(ts, us, d),
        0 <= pos <= ts.len(),
    ensures
        carried(disjunction_from(ts, left, pos), disjunction_from(us, left, pos + d), d),
    decreases ts.len() - pos, 3nat,
{
    if pos < ts.len() {
        assert(us[pos + d] == ts[pos]);
    }
    if or_sign(ts, pos) {
        lemma_embedded_conjunction(ts, us, d, pos + 1);
        lemma_progress(ts, pos + 1);
        if let Ok((right, p)) = conjunction(ts, pos + 1) {
            lemma_embedded_disjunction_from(
                ts,
                us,
                d,
                Prop::Or(Box::new(left), Box::new(right)),
                p,
            );
        }
    }
}

proof fn lemma_embedded_disjunction(ts: Seq<Lexeme>, us: Seq<Lexeme>, d: int, pos: int)
    requires
        embedded(ts, us, d),
        0 <= pos,
    ensures
        carried(disjunction(ts, pos), disjunction(us, pos + d), d),
    decreases ts.len() - pos, 4nat,
{
    lemma_embedded_conjunction(ts, us, d, pos);
    lemma_progress(ts, pos);
    if let Ok((left, p)) = conjunction(ts, pos) {
        lemma_embedded_disjunction_from(ts, us, d, left, p);
    }
}

/// A parse that succeeds on tokens succeeds alike wherever the same tokens
/// stand inside others, so long as no binary sign follows them there.
pub proof fn lemma_embedded(ts: Seq<Lexeme>, us: Seq<Lexeme>, d: int, pos: int)
    requires
        embedded(ts, us, d),
        0 <= pos,
    ensures
        carried(unary(ts, pos), unary(us, pos + d), d),
        carried(conjunction(ts, pos), conjunction(us, pos + d), d),
        carried(disjunction(ts, pos), disjunction(us, pos + d), d),
        carried(implication(ts, pos), implication(us, pos + d), d),
    decreases ts.len() - pos, 5nat,
{
    lemma_embedded_unary(ts, us, d, pos);
    lemma_embedded_conjunction(ts, us, d, pos);
    lemma_embedded_disjunction(ts, us, d, pos);
    lemma_progress(ts, pos);
    if let Ok((left, p)) = disjunction(ts, pos) {
        if p < ts.len() {
            assert(us[p + d] == ts[p]);
        }
        if token_is(ts, p, Lexeme::Implies) {
            lemma_embedded(ts, us, d, p + 1);
        }
    }
}

/// One more pair of parentheses changes nothing: tokens that are a formula
/// are the same formula inside parentheses.
pub proof fn theorem_parentheses_change_nothing(ts: Seq<Lexeme>, f: Prop)
    requires
        parse_tokens(ts) == Ok::<Prop, SyntaxError>(f),
    ensures
        parse_tokens(seq![Lexeme::LParen] + ts + seq![Lexeme::RParen]) == Ok::<Prop, SyntaxError>(
            f,
        ),
{
    let us = seq![Lexeme::LParen] + ts + seq![Lexeme::RParen];
    let n = ts.len() as int;
    assert(us.len() == n + 2);
    assert(us[0] == Lexeme::LParen);
    assert(us[n + 1] == Lexeme::RParen);
    assert forall|i: int| 0 <= i < n implies us[i + 1] == #[trigger] ts[i] by {}
    assert(embedded(ts, us, 1));
    lemma_embedded(ts, us, 1, 0);
    assert(implication(us, 1) == Ok::<(Prop, int), SyntaxError>((f, n + 1)));
    assert(unary(us, 0) == Ok::<(Prop, int), SyntaxError>((f, n + 2)));
    assert(conjunction_from(us, f, n + 2) == Ok::<(Prop, int), SyntaxError>((f, n + 2)));
    assert(conjunction(us, 0) == unary(us, 0));
    assert(disjunction_from(us, f, n + 2) == Ok::<(Prop, int), SyntaxError>((f, n + 2)));
    assert(disjunction(us, 0) == unary(us, 0));
    assert(implication(us, 0) == unary(us, 0));
}

/// A character that separates tokens: a blank, a tab or a line feed, not
/// classed as a letter.
pub open spec fn separates(g: Glyph) -> bool {
    (g.0 == ' ' || g.0 == '\t' || g.0 == '\n') && !g.1
}

/// A run of letters inside `a` ends where it ends in `a`, where what follows
/// `a` starts with no letter.
proof fn lemma_word_end_inside(a: Seq<Glyph>, rest: Seq<Glyph>, pos: int)
    requires
        0 <= pos <= a.len(),
        rest.len() == 0 || !rest[0].1,
    ensures
        word_end(a + rest, pos) == word_end(a, pos),
    decreases a.len() - pos,
{
    let gs = a + rest;
    if pos < a.len() {
        assert(gs[pos] == a[pos]);
        if a[pos].1 {
            lemma_word_end_inside(a, rest, pos + 1);
        }
    } else if rest.len() > 0 {
        assert(gs[pos] == rest[0]);
    }
}

/// A run of letters behind a prefix ends where it ends without the prefix.
proof fn lemma_word_end_shifted(before: Seq<Glyph>, b: Seq<Glyph>, pos: int)
    requires
        0 <= pos,
    ensures
        word_end(before + b, before.len() + pos) == before.len() + word_end(b, pos),
    decreases b.len() - pos,
{
    let gs = before + b;
    if pos < b.len() {
        assert(gs[before.len() + pos] == b[pos]);
        if b[pos].1 {
            lemma_word_end_shifted(before, b, pos + 1);
        }
    }
}

/// The tokens of a text are its tokens behind any prefix.
proof fn lemma_lex_shifted(before: Seq<Glyph>, b: Seq<Glyph>, pos: int)
    requires
        0 <= pos,
        lex(b, pos) is Ok,
    ensures
        lex(before + b, before.len() + pos) == lex(b, pos),
    decreases b.len() - pos,
{
    let gs = before + b;
    let d = before.len() as int;
    if pos < b.len() {
        assert(gs[d + pos] == b[pos]);
        let c = b[pos].0;
        if c == ' ' || c == '\t' || c == '\n' || c == '(' || c == ')' || c == '&' || c == '^' || c
            == '|' || c == '!' || c == '~' || c == '\u{ac}' {
            lemma_lex_shifted(before, b, pos + 1);
        } else if c == '-' {
            assert(pos + 1 < b.len() && b[pos + 1].0 == '>');
            assert(gs[d + pos + 1] == b[pos + 1]);
            lemma_lex_shifted(before, b, pos + 2);
        } else if b[pos].1 {
            lemma_word_end(b, pos);
            lemma_word_end_shifted(before, b, pos);
            let end = word_end(b, pos);
            assert(text_of(gs.subrange(d + pos, d + end)) =~= text_of(b.subrange(pos, end)));
            lemma_lex_shifted(before, b, end);
        }
    }
}

/// The tokens of `a` from `pos` on, then those of `b`, are the tokens of `a`,
/// a separating character and `b` from `pos` on.
proof fn lemma_lex_joined(a: Seq<Glyph>, g: Glyph, b: Seq<Glyph>, pos: int)
    requires
        0 <= pos <= a.len(),
        separates(g),
        lex(a, pos) is Ok,
        lex(b, 0) is Ok,
    ensures
        lex(a + seq![g] + b, pos) == Ok::<Seq<Lexeme>, SyntaxError>(
            lex(a, pos)->Ok_0 + lex(b, 0)->Ok_0,
        ),
    decreases a.len() - pos,
{
    let gs = a + seq![g] + b;
    let tb = lex(b, 0)->Ok_0;
    if pos == a.len() {
        assert(gs[pos] == g);
        lemma_lex_shifted(a + seq![g], b, 0);
        assert(lex(gs, pos) == lex(gs, pos + 1));
        assert(lex(gs, pos + 1) == lex(b, 0));
        assert(lex(a, pos) == Ok::<Seq<Lexeme>, SyntaxError>(Seq::empty()));
        assert(lex(a, pos)->Ok_0 + tb =~= tb);
    } else {
        assert(gs[pos] == a[pos]);
        let c = a[pos].0;
        if c == ' ' || c == '\t' || c == '\n' {
            lemma_lex_joined(a, g, b, pos + 1);
            assert(lex(a, pos) == lex(a, pos + 1));
            assert(lex(gs, pos) == lex(gs, pos + 1));
        } else if c == '(' || c == ')' || c == '&' || c == '^' || c == '|' || c == '!' || c == '~'
            || c == '\u{ac}' {
            lemma_lex_joined(a, g, b, pos + 1);
            let sign = if c == '(' {
                Lexeme::LParen
            } else if c == ')' {
                Lexeme::RParen
            } else if c == '&' || c == '^' {
                Lexeme::And
            } else if c == '|' {
                Lexeme::Or
            } else {
                Lexeme::Not
            };
            let rest = lex(a, pos + 1)->Ok_0;
            assert(lex(a, pos) == Ok::<Seq<Lexeme>, SyntaxError>(seq![sign] + rest));
            assert(lex(gs, pos) == Ok::<Seq<Lexeme>, SyntaxError>(seq![sign] + (rest + tb)));
            assert(seq![sign] + (rest + tb) =~= (seq![sign] + rest) + tb);
        } else if c == '-' {
            assert(pos + 1 < a.len() && a[pos + 1].0 == '>');
            assert(gs[pos + 1] == a[pos + 1]);
            lemma_lex_joined(a, g, b, pos + 2);
            let rest = lex(a, pos + 2)->Ok_0;
            assert(lex(a, pos) == Ok::<Seq<Lexeme>, SyntaxError>(seq![Lexeme::Implies] + rest));
            assert(lex(gs, pos) == Ok::<Seq<Lexeme>, SyntaxError>(
                seq![Lexeme::Implies] + (rest + tb),
            ));
            assert(seq![Lexeme::Implies] + (rest + tb) =~= (seq![Lexeme::Implies] + rest) + tb);
        } else if a[pos].1 {
            lemma_word_end(a, pos);
            lemma_word_end_inside(a, seq![g] + b, pos);
            assert(a + (seq![g] + b) =~= gs);
            let end = word_end(a, pos);
            assert(text_of(gs.subrange(pos, end)) =~= text_of(a.subrange(pos, end)));
            lemma_lex_joined(a, g, b, end);
            let name = seq![Lexeme::Var(text_of(a.subrange(pos, end)))];
            let rest = lex(a, end)->Ok_0;
            assert(lex(a, pos) == Ok::<Seq<Lexeme>, SyntaxError>(name + rest));
            assert(word_end(gs, pos) == end);
            assert(lex(gs, pos) == Ok::<Seq<Lexeme>, SyntaxError>(name + (rest + tb)));
            assert(name + (rest + tb) =~= (name + rest) + tb);
        }
    }
}

/// A blank between two texts separates them and adds nothing: the tokens are
/// those of the first text followed by those of the second.
pub proof fn theorem_blank_separates(a: Seq<Glyph>, g: Glyph, b: Seq<Glyph>)
    requires
        separates(g),
        lex(a, 0) is Ok,
        lex(b, 0) is Ok,
    ensures
        lex(a + seq![g] + b, 0) == Ok::<Seq<Lexeme>, SyntaxError>(
            lex(a, 0)->Ok_0 + lex(b, 0)->Ok_0,
        ),
{
    lemma_lex_joined(a, g, b, 0);
}

/// One more blank changes nothing: where a blank stands between two texts,
/// a second blank beside it leaves the tokens as they are.
pub proof fn theorem_more_blanks_change_nothing(a: Seq<Glyph>, g: Glyph, h: Glyph, b: Seq<Glyph>)
    requires
        separates(g),
        separates(h),
        lex(a, 0) is Ok,
        lex(b, 0) is Ok,
    ensures
        lex(a + seq![g] + (seq![h] + b), 0) == lex(a + seq![g] + b, 0),
        lex(seq![h] + b, 0) == lex(b, 0),
        lex(a + seq![g], 0) == lex(a, 0),
{
    let empty = Seq::<Glyph>::empty();
    assert(lex(empty, 0) == Ok::<Seq<Lexeme>, SyntaxError>(Seq::empty()));
    lemma_lex_joined(empty, h, b, 0);
    assert(empty + seq![h] + b =~= seq![h] + b);
    assert(Seq::<Lexeme>::empty() + lex(b, 0)->Ok_0 =~= lex(b, 0)->Ok_0);
    lemma_lex_joined(a, g, seq![h] + b, 0);
    lemma_lex_joined(a, g, b, 0);
    lemma_lex_joined(a, g, empty, 0);
    assert(a + seq![g] + empty =~= a + seq![g]);
    assert(lex(a, 0)->Ok_0 + Seq::<Lexeme>::empty() =~= lex(a, 0)->Ok_0);
}

} // verus!
