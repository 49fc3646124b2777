//! The canonical token spelling of a formula, and that parsing inverts it.

use vstd::prelude::*;
use crate::formula::Prop;
use crate::parser::{
    conjunction, conjunction_from, disjunction, disjunction_from, implication, or_sign,
    parse_tokens, token_is, unary, Lexeme,
};

verus! {

/// The tokens that spell `f` with every binary connective in parentheses.
pub open spec fn spelling(f: Prop) -> Seq<Lexeme>
    decreases f,
{
    match f {
        Prop::Var(n) => seq![Lexeme::Var(n)],
        Prop::Not(g) => seq![Lexeme::Not] + spelling(*g),
        Prop::And(l, r) => seq![Lexeme::LParen] + spelling(*l) + seq![Lexeme::And] + spelling(*r)
            + seq![Lexeme::RParen],
        Prop::Or(l, r) => seq![Lexeme::LParen] + spelling(*l) + seq![Lexeme::Or] + spelling(*r)
            + seq![Lexeme::RParen],
        Prop::Implies(l, r) => seq![Lexeme::LParen] + spelling(*l) + seq![Lexeme::Implies]
            + spelling(*r) + seq![Lexeme::RParen],
    }
}

/// The tokens of `ts` from `pos` on start with the spelling of `f`.
pub open spec fn spelled_at(ts: Seq<Lexeme>, pos: int, f: Prop) -> bool {
    &&& 0 <= pos
    &&& pos + spelling(f).len() <= ts.len()
    &&& forall|i: int| 0 <= i < spelling(f).len() ==> ts[pos + i] == #[trigger] spelling(f)[i]
}

/// An operand after which no connective follows is a conjunction, a
/// disjunction and an implication by itself.
proof fn lemma_lone_operand(ts: Seq<Lexeme>, pos: int, f: Prop, p: int)
    requires
        unary(ts, pos) == Ok::<(Prop, int), crate::parser::SyntaxError>((f, p)),
        pos < p <= ts.len(),
        !token_is(ts, p, Lexeme::And),
        !or_sign(ts, p),
        !token_is(ts, p, Lexeme::Implies),
    ensures
        conjunction(ts, pos) == unary(ts, pos),
        disjunction(ts, pos) == unary(ts, pos),
        implication(ts, pos) == unary(ts, pos),
{
    assert(conjunction_from(ts, f, p) == Ok::<(Prop, int), crate::parser::SyntaxError>((f, p)));
    assert(disjunction_from(ts, f, p) == Ok::<(Prop, int), crate::parser::SyntaxError>((f, p)));
}

/// The spelling of the operands of a binary connective inside its own.
proof fn lemma_binary_parts(ts: Seq<Lexeme>, pos: int, f: Prop, l: Prop, r: Prop, sign: Lexeme)
    requires
        spelled_at(ts, pos, f),
        spelling(f) == seq![Lexeme::LParen] + spelling(l) + seq![sign] + spelling(r)
            + seq![Lexeme::RParen],
    ensures
        token_is(ts, pos, Lexeme::LParen),
        spelled_at(ts, pos + 1, l),
        token_is(ts, pos + 1 + spelling(l).len(), sign),
        spelled_at(ts, pos + 2 + spelling(l).len(), r),
        token_is(ts, pos + 2 + spelling(l).len() + spelling(r).len(), Lexeme::RParen),
        spelling(f).len() == 3 + spelling(l).len() + spelling(r).len(),
{
    let s = spelling(f);
    let nl = spelling(l).len() as int;
    let nr = spelling(r).len() as int;
    assert(s.len() == 3 + nl + nr);
    assert(ts[pos + 0] == s[0]);
    assert forall|i: int| 0 <= i < nl implies ts[pos + 1 + i] == #[trigger] spelling(l)[i] by {
        assert(ts[pos + (1 + i)] == s[1 + i]);
    }
    assert(ts[pos + (1 + nl)] == s[1 + nl]);
    assert forall|i: int| 0 <= i < nr implies ts[pos + 2 + nl + i] == #[trigger] spelling(r)[i] by {
        assert(ts[pos + (2 + nl + i)] == s[2 + nl + i]);
    }
    assert(ts[pos + (2 + nl + nr)] == s[2 + nl + nr]);
}

/// A spelling holds at least one token.
pub proof fn lemma_spelling_nonempty(f: Prop)
    ensures
        spelling(f).len() > 0,
{
}

/// Where the spelling of `f` stands, an operand is read, and it is `f`.
pub proof fn lemma_reads_spelling(ts: Seq<Lexeme>, pos: int, f: Prop)
    requires
        spelled_at(ts, pos, f),
    ensures
        unary(ts, pos) == Ok::<(Prop, int), crate::parser::SyntaxError>(
            (f, pos + spelling(f).len()),
        ),
    decreases f,
{
    let s = spelling(f);
    lemma_spelling_nonempty(f);
    assert(ts[pos + 0] == s[0]);
    match f {
        Prop::Var(n) => {},
        Prop::Not(g) => {
            assert forall|i: int| 0 <= i < spelling(*g).len() implies ts[pos + 1 + i]
                == #[trigger] spelling(*g)[i] by {
                assert(ts[pos + (1 + i)] == s[1 + i]);
            }
            lemma_reads_spelling(ts, pos + 1, *g);
        },
        Prop::And(l, r) => {
            lemma_binary_parts(ts, pos, f, *l, *r, Lexeme::And);
            lemma_spelling_nonempty(*l);
            lemma_spelling_nonempty(*r);
            let a = pos + 1 + spelling(*l).len();
            let b = a + 1 + spelling(*r).len();
            lemma_reads_spelling(ts, pos + 1, *l);
            lemma_reads_spelling(ts, a + 1, *r);
            let both = Prop::And(l, r);
            assert(conjunction_from(ts, both, b) == Ok::<(Prop, int), crate::parser::SyntaxError>(
                (both, b),
            ));
            assert(conjunction_from(ts, *l, a) == conjunction_from(ts, both, b));
            assert(conjunction(ts, pos + 1) == Ok::<(Prop, int), crate::parser::SyntaxError>(
                (both, b),
            ));
            assert(disjunction_from(ts, both, b) == Ok::<(Prop, int), crate::parser::SyntaxError>(
                (both, b),
            ));
            assert(implication(ts, pos + 1) == Ok::<(Prop, int), crate::parser::SyntaxError>(
                (both, b),
            ));
        },
        Prop::Or(l, r) => {
            lemma_binary_parts(ts, pos, f, *l, *r, Lexeme::Or);
            lemma_spelling_nonempty(*l);
            lemma_spelling_nonempty(*r);
            let a = pos + 1 + spelling(*l).len();
            let b = a + 1 + spelling(*r).len();
            lemma_reads_spelling(ts, pos + 1, *l);
            lemma_reads_spelling(ts, a + 1, *r);
            let both = Prop::Or(l, r);
            assert(conjunction_from(ts, *l, a) == Ok::<(Prop, int), crate::parser::SyntaxError>(
                (*l, a),
            ));
            assert(conjunction_from(ts, *r, b) == Ok::<(Prop, int), crate::parser::SyntaxError>(
                (*r, b),
            ));
            assert(conjunction(ts, a + 1) == Ok::<(Prop, int), crate::parser::SyntaxError>(
                (*r, b),
            ));
            assert(disjunction_from(ts, both, b) == Ok::<(Prop, int), crate::parser::SyntaxError>(
                (both, b),
            ));
            assert(disjunction_from(ts, *l, a) == disjunction_from(ts, both, b));
            assert(disjunction(ts, pos + 1) == Ok::<(Prop, int), crate::parser::SyntaxError>(
                (both, b),
            ));
            assert(implication(ts, pos + 1) == Ok::<(Prop, int), crate::parser::SyntaxError>(
                (both, b),
            ));
        },
        Prop::Implies(l, r) => {
            lemma_binary_parts(ts, pos, f, *l, *r, Lexeme::Implies);
            lemma_spelling_nonempty(*l);
            lemma_spelling_nonempty(*r);
            let a = pos + 1 + spelling(*l).len();
            let b = a + 1 + spelling(*r).len();
            lemma_reads_spelling(ts, pos + 1, *l);
            lemma_reads_spelling(ts, a + 1, *r);
            let both = Prop::Implies(l, r);
            lemma_lone_operand(ts, a + 1, *r, b);
            assert(conjunction_from(ts, *l, a) == Ok::<(Prop, int), crate::parser::SyntaxError>(
                (*l, a),
            ));
            assert(disjunction_from(ts, *l, a) == Ok::<(Prop, int), crate::parser::SyntaxError>(
                (*l, a),
            ));
            assert(disjunction(ts, pos + 1) == Ok::<(Prop, int), crate::parser::SyntaxError>(
                (*l, a),
            ));
            assert(implication(ts, pos + 1) == Ok::<(Prop, int), crate::parser::SyntaxError>(
                (both, b),
            ));
        },
    }
}

/// Parsing inverts spelling: the tokens that spell a formula parse to that
/// formula, whatever its shape and its variable names.
pub proof fn theorem_parse_inverts_spelling(f: Prop)
    ensures
        parse_tokens(spelling(f)) == Ok::<Prop, crate::parser::SyntaxError>(f),
{
    let ts = spelling(f);
    lemma_spelling_nonempty(f);
    assert(spelled_at(ts, 0, f));
    lemma_reads_spelling(ts, 0, f);
    lemma_lone_operand(ts, 0, f, ts.len() as int);
}

} // verus!
