//! The meaning of formulas, and what the status of a derivation tree says
//! about the formula set at its root.

use vstd::prelude::*;
use crate::formula::Prop;
use super::node::NodeStatus;
use super::solver::{
    all_closed, all_literals, branches, clashes, has_clash, lemma_rule_shrinks, lemma_selected,
    lemma_total_weight_remove, selected, tableau, total_weight,
};

verus! {

/// A valuation, given as the set of the variables that it makes true.
pub type Valuation = Set<Seq<char>>;

impl Prop {
    /// The truth value of `self` under `v`.
    pub open spec fn holds(self, v: Valuation) -> bool
        decreases self,
    {
        match self {
            Prop::Var(x) => v.contains(x),
            Prop::Not(f) => !f.holds(v),
            Prop::And(l, r) => l.holds(v) && r.holds(v),
            Prop::Or(l, r) => l.holds(v) || r.holds(v),
            Prop::Implies(l, r) => l.holds(v) ==> r.holds(v),
        }
    }

    /// True under every valuation.
    pub open spec fn is_tautology(self) -> bool {
        forall|v: Valuation| self.holds(v)
    }
}

/// `v` makes every member of `fs` true.
pub open spec fn satisfies(v: Valuation, fs: Seq<Prop>) -> bool {
    forall|i: int| 0 <= i < fs.len() ==> (#[trigger] fs[i]).holds(v)
}

/// Some valuation makes every member of `fs` true.
pub open spec fn satisfiable(fs: Seq<Prop>) -> bool {
    exists|v: Valuation| satisfies(v, fs)
}

/// The valuation read off a set of literals: true on exactly the variables
/// that are members.
pub open spec fn model_of_literals(fs: Seq<Prop>) -> Valuation {
    Set::new(|x: Seq<char>| fs.contains(Prop::Var(x)))
}

proof fn lemma_satisfies_push(v: Valuation, fs: Seq<Prop>, f: Prop)
    ensures
        satisfies(v, fs.push(f)) <==> satisfies(v, fs) && f.holds(v),
{
    if satisfies(v, fs.push(f)) {
        assert(fs.push(f)[fs.len() as int] == f);
        assert forall|i: int| 0 <= i < fs.len() implies (#[trigger] fs[i]).holds(v) by {
            assert(fs.push(f)[i] == fs[i]);
        }
    }
}

proof fn lemma_satisfies_remove(v: Valuation, fs: Seq<Prop>, i: int)
    requires
        0 <= i < fs.len(),
    ensures
        satisfies(v, fs) <==> satisfies(v, fs.remove(i)) && fs[i].holds(v),
{
    let rest = fs.remove(i);
    if satisfies(v, fs) {
        assert forall|k: int| 0 <= k < rest.len() implies (#[trigger] rest[k]).holds(v) by {
            if k < i {
                assert(rest[k] == fs[k]);
            } else {
                assert(rest[k] == fs[k + 1]);
            }
        }
    }
    if satisfies(v, rest) && fs[i].holds(v) {
        assert forall|k: int| 0 <= k < fs.len() implies (#[trigger] fs[k]).holds(v) by {
            if k < i {
                assert(rest[k] == fs[k]);
            } else if k > i {
                assert(rest[k - 1] == fs[k]);
            }
        }
    }
}

/// Every rule keeps the models: a valuation satisfies a formula beside the
/// rest exactly when it satisfies one of the sets that the rule gives.
pub proof fn lemma_rule_keeps_models(f: Prop, rest: Seq<Prop>, v: Valuation)
    requires
        !f.is_literal(),
    ensures
        branches(f, rest).len() > 0,
        (f.holds(v) && satisfies(v, rest)) <==> exists|k: int|
            0 <= k < branches(f, rest).len() && satisfies(v, #[trigger] branches(f, rest)[k]),
{
    reveal_with_fuel(Prop::holds, 3);
    let sets = branches(f, rest);
    match f {
        Prop::Var(_) => {},
        Prop::And(a, b) => {
            lemma_satisfies_push(v, rest, *a);
            lemma_satisfies_push(v, rest.push(*a), *b);
            if f.holds(v) && satisfies(v, rest) {
                assert(satisfies(v, sets[0]));
            }
        },
        Prop::Or(a, b) => {
            lemma_satisfies_push(v, rest, *a);
            lemma_satisfies_push(v, rest, *b);
            if f.holds(v) && satisfies(v, rest) {
                assert(satisfies(v, sets[0]) || satisfies(v, sets[1]));
            }
        },
        Prop::Implies(a, b) => {
            lemma_satisfies_push(v, rest, a.negated());
            lemma_satisfies_push(v, rest, *b);
            if f.holds(v) && satisfies(v, rest) {
                assert(satisfies(v, sets[0]) || satisfies(v, sets[1]));
            }
        },
        Prop::Not(g) => match *g {
            Prop::Var(_) => {},
            Prop::Not(a) => {
                lemma_satisfies_push(v, rest, *a);
                if f.holds(v) && satisfies(v, rest) {
                    assert(satisfies(v, sets[0]));
                }
            },
            Prop::Or(a, b) => {
                lemma_satisfies_push(v, rest, a.negated());
                lemma_satisfies_push(v, rest.push(a.negated()), b.negated());
                if f.holds(v) && satisfies(v, rest) {
                    assert(satisfies(v, sets[0]));
                }
            },
            Prop::Implies(a, b) => {
                lemma_satisfies_push(v, rest, *a);
                lemma_satisfies_push(v, rest.push(*a), b.negated());
                if f.holds(v) && satisfies(v, rest) {
                    assert(satisfies(v, sets[0]));
                }
            },
            Prop::And(a, b) => {
                lemma_satisfies_push(v, rest, a.negated());
                lemma_satisfies_push(v, rest, b.negated());
                if f.holds(v) && satisfies(v, rest) {
                    assert(satisfies(v, sets[0]) || satisfies(v, sets[1]));
                }
            },
        },
    }
}

/// No valuation satisfies a set with a clash.
pub proof fn lemma_clash_unsatisfiable(fs: Seq<Prop>)
    requires
        has_clash(fs),
    ensures
        !satisfiable(fs),
{
    let (i, j) = choose|i: int, j: int| clashes(fs, i, j);
    assert forall|v: Valuation| !satisfies(v, fs) by {
        reveal_with_fuel(Prop::holds, 2);
        if satisfies(v, fs) {
            assert(fs[i].holds(v));
            assert(fs[j].holds(v));
        }
    }
}

/// A set of literals without a clash is satisfied by the valuation read off it.
pub proof fn lemma_open_leaf_has_model(fs: Seq<Prop>)
    requires
        all_literals(fs),
        !has_clash(fs),
    ensures
        satisfies(model_of_literals(fs), fs),
{
    let v = model_of_literals(fs);
    assert forall|i: int| 0 <= i < fs.len() implies (#[trigger] fs[i]).holds(v) by {
        reveal_with_fuel(Prop::holds, 2);
        assert(fs[i].is_literal());
        match fs[i] {
            Prop::Var(x) => {
                assert(fs.contains(Prop::Var(x)));
            },
            Prop::Not(g) => {
                let x = g->Var_0;
                if fs.contains(Prop::Var(x)) {
                    let j = choose|j: int| 0 <= j < fs.len() && fs[j] == Prop::Var(x);
                    assert(fs[j].is_literal());
                    if j < i {
                        assert(clashes(fs, j, i));
                    } else {
                        assert(clashes(fs, i, j));
                    }
                }
            },
            _ => {},
        }
    }
}

/// The tableau decides satisfiability: the tree of a set is closed exactly
/// when no valuation satisfies the set.
pub proof fn theorem_closed_iff_unsatisfiable(fs: Seq<Prop>)
    ensures
        tableau(fs).status == NodeStatus::Closed <==> !satisfiable(fs),
    decreases total_weight(fs),
{
    if has_clash(fs) {
        lemma_clash_unsatisfiable(fs);
    } else if all_literals(fs) {
        lemma_open_leaf_has_model(fs);
    } else {
        lemma_selected(fs);
        let i = selected(fs);
        let rest = fs.remove(i);
        let sets = branches(fs[i], rest);
        let kids = tableau(fs).children;
        lemma_total_weight_remove(fs, i);
        assert forall|k: int| 0 <= k < sets.len() implies (kids[k].status == NodeStatus::Closed
            <==> !satisfiable(#[trigger] sets[k])) by {
            lemma_rule_shrinks(fs[i], rest, k);
            theorem_closed_iff_unsatisfiable(sets[k]);
        }
        if all_closed(kids) {
            assert forall|v: Valuation| !satisfies(v, fs) by {
                lemma_satisfies_remove(v, fs, i);
                lemma_rule_keeps_models(fs[i], rest, v);
                if satisfies(v, fs) {
                    let k = choose|k: int| 0 <= k < sets.len() && satisfies(v, #[trigger] sets[k]);
                    assert(kids[k].status == NodeStatus::Closed);
                    assert(satisfiable(sets[k]));
                }
            }
        } else {
            let k = choose|k: int| 0 <= k < kids.len() && (#[trigger] kids[k]).status
                != NodeStatus::Closed;
            assert(satisfiable(sets[k]));
            let v = choose|v: Valuation| satisfies(v, sets[k]);
            lemma_rule_keeps_models(fs[i], rest, v);
            lemma_satisfies_remove(v, fs, i);
            assert(satisfies(v, fs));
        }
    }
}

/// Proof mode: a formula is a tautology exactly when the tree of its negation
/// is closed.
pub proof fn theorem_tautology_iff_negation_closes(f: Prop)
    ensures
        tableau(seq![f.negated()]).status == NodeStatus::Closed <==> f.is_tautology(),
{
    let fs = seq![f.negated()];
    theorem_closed_iff_unsatisfiable(fs);
    if f.is_tautology() {
        assert forall|v: Valuation| !satisfies(v, fs) by {
            assert(f.holds(v));
            if satisfies(v, fs) {
                assert(fs[0].holds(v));
            }
        }
    } else {
        let v = choose|v: Valuation| !f.holds(v);
        assert(satisfies(v, fs));
    }
}

} // verus!
