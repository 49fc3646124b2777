//! Propositional formulas and their mathematical model.

use vstd::prelude::*;
use vstd::std_specs::cmp::PartialEqSpecImpl;

verus! {

/// The mathematical model of a formula: a finite tree over variable names.
pub ghost enum Prop {
    Var(Seq<char>),
    Not(Box<Prop>),
    And(Box<Prop>, Box<Prop>),
    Or(Box<Prop>, Box<Prop>),
    Implies(Box<Prop>, Box<Prop>),
}

impl Prop {
    /// The negation of `self`.
    pub open spec fn negated(self) -> Prop {
        Prop::Not(Box::new(self))
    }

    /// A literal is a variable or the negation of a variable.
    pub open spec fn is_literal(self) -> bool {
        match self {
            Prop::Var(_) => true,
            Prop::Not(f) => *f is Var,
            _ => false,
        }
    }

    /// One of the two is, syntactically, the negation of the other.
    pub open spec fn contradicts(self, other: Prop) -> bool {
        self == other.negated() || other == self.negated()
    }

    /// The infix rendering: binary connectives are always parenthesised and
    /// negation is a prefix sign.
    pub open spec fn render(self) -> Seq<char>
        decreases self,
    {
        match self {
            Prop::Var(n) => n,
            Prop::Not(f) => seq!['\u{ac}'] + f.render(),
            Prop::And(l, r) => seq!['('] + l.render() + seq![' ', '\u{2227}', ' '] + r.render()
                + seq![')'],
            Prop::Or(l, r) => seq!['('] + l.render() + seq![' ', '\u{2228}', ' '] + r.render()
                + seq![')'],
            Prop::Implies(l, r) => seq!['('] + l.render() + seq![' ', '\u{2192}', ' ']
                + r.render() + seq![')'],
        }
    }
}

/// A propositional formula over named variables.
#[derive(Debug, Hash)]
pub enum Formula {
    Var(String),
    Not(Box<Formula>),
    And(Box<Formula>, Box<Formula>),
    Or(Box<Formula>, Box<Formula>),
    Implies(Box<Formula>, Box<Formula>),
}

impl Formula {
    /// The tree this formula denotes.
    pub open spec fn model(&self) -> Prop
        decreases self,
    {
        match self {
            Formula::Var(n) => Prop::Var(n@),
            Formula::Not(f) => Prop::Not(Box::new(f.model())),
            Formula::And(l, r) => Prop::And(Box::new(l.model()), Box::new(r.model())),
            Formula::Or(l, r) => Prop::Or(Box::new(l.model()), Box::new(r.model())),
            Formula::Implies(l, r) => Prop::Implies(Box::new(l.model()), Box::new(r.model())),
        }
    }
}

impl View for Formula {
    type V = Prop;

    open spec fn view(&self) -> Prop {
        self.model()
    }
}

impl Clone for Formula {
    fn clone(&self) -> (r: Self)
        ensures
            r@ == self@,
        decreases self,
    {
        match self {
            Formula::Var(n) => Formula::Var(n.clone()),
            Formula::Not(f) => Formula::Not(Box::new((**f).clone())),
            Formula::And(l, r) => Formula::And(Box::new((**l).clone()), Box::new((**r).clone())),
            Formula::Or(l, r) => Formula::Or(Box::new((**l).clone()), Box::new((**r).clone())),
            Formula::Implies(l, r) => Formula::Implies(
                Box::new((**l).clone()),
                Box::new((**r).clone()),
            ),
        }
    }
}

impl PartialEq for Formula {
    fn eq(&self, other: &Formula) -> (r: bool) {
        self.same_tree(other)
    }
}

impl PartialEqSpecImpl for Formula {
    open spec fn obeys_eq_spec() -> bool {
        true
    }

    open spec fn eq_spec(&self, other: &Formula) -> bool {
        self@ == other@
    }
}

impl Eq for Formula {

}

impl Formula {
    /// Structural comparison: same connectives in the same places, same names.
    fn same_tree(&self, other: &Formula) -> (r: bool)
        ensures
            r == (self@ == other@),
        decreases self,
    {
        match (self, other) {
            (Formula::Var(a), Formula::Var(b)) => *a == *b,
            (Formula::Not(a), Formula::Not(b)) => a.same_tree(b),
            (Formula::And(a, c), Formula::And(b, d)) => a.same_tree(b) && c.same_tree(d),
            (Formula::Or(a, c), Formula::Or(b, d)) => a.same_tree(b) && c.same_tree(d),
            (Formula::Implies(a, c), Formula::Implies(b, d)) => a.same_tree(b) && c.same_tree(d),
            _ => false,
        }
    }

    pub fn var(n: &str) -> (r: Formula)
        ensures
            r@ == Prop::Var(n@),
    {
        Formula::Var(String::from_str(n))
    }

    pub fn not(f: Formula) -> (r: Formula)
        ensures
            r@ == f@.negated(),
    {
        Formula::Not(Box::new(f))
    }

    pub fn and(l: Formula, r: Formula) -> (res: Formula)
        ensures
            res@ == Prop::And(Box::new(l@), Box::new(r@)),
    {
        Formula::And(Box::new(l), Box::new(r))
    }

    pub fn or(l: Formula, r: Formula) -> (res: Formula)
        ensures
            res@ == Prop::Or(Box::new(l@), Box::new(r@)),
    {
        Formula::Or(Box::new(l), Box::new(r))
    }

    pub fn implies(l: Formula, r: Formula) -> (res: Formula)
        ensures
            res@ == Prop::Implies(Box::new(l@), Box::new(r@)),
    {
        Formula::Implies(Box::new(l), Box::new(r))
    }

    pub fn is_literal(&self) -> (r: bool)
        ensures
            r == self@.is_literal(),
    {
        proof {
            reveal_with_fuel(Formula::model, 2);
        }
        match self {
            Formula::Var(_) => true,
            Formula::Not(f) => matches!(**f, Formula::Var(_)),
            _ => false,
        }
    }

    pub fn is_contradiction_with(&self, other: &Formula) -> (r: bool)
        ensures
            r == self@.contradicts(other@),
    {
        let forward = match self {
            Formula::Not(inner) => inner.same_tree(other),
            _ => false,
        };
        if forward {
            true
        } else {
            match other {
                Formula::Not(inner) => inner.same_tree(self),
                _ => false,
            }
        }
    }

    /// Appends the rendering of `self` to `out`.
    fn render_into(&self, out: &mut String)
        ensures
            final(out)@ == old(out)@ + self@.render(),
        decreases self,
    {
        proof {
            reveal_strlit("\u{ac}");
            reveal_strlit("(");
            reveal_strlit(")");
            reveal_strlit(" \u{2227} ");
            reveal_strlit(" \u{2228} ");
            reveal_strlit(" \u{2192} ");
        }
        match self {
            Formula::Var(n) => {
                out.append(n.as_str());
            },
            Formula::Not(f) => {
                out.append("\u{ac}");
                f.render_into(out);
            },
            Formula::And(l, r) => {
                out.append("(");
                l.render_into(out);
                out.append(" \u{2227} ");
                r.render_into(out);
                out.append(")");
            },
            Formula::Or(l, r) => {
                out.append("(");
                l.render_into(out);
                out.append(" \u{2228} ");
                r.render_into(out);
                out.append(")");
            },
            Formula::Implies(l, r) => {
                out.append("(");
                l.render_into(out);
                out.append(" \u{2192} ");
                r.render_into(out);
                out.append(")");
            },
        }
    }

    /// The formula in infix notation.
    pub fn to_string(&self) -> (s: String)
        ensures
            s@ == self@.render(),
    {
        let mut s = String::new();
        self.render_into(&mut s);
        s
    }
}

} // verus!
