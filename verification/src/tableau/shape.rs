//! The shape of the derivation tree on particular formula sets.

use vstd::prelude::*;
use crate::formula::Prop;
use super::node::{NodeStatus, Tree};
use super::solver::{
    aggregate, all_literals, branches, clashes, has_clash, lemma_selected, selected, tableau,
};

verus! {

/// The tree of a set without a clash that holds a formula to decompose: its
/// children are the trees of the sets that the rule table gives for the first
/// such formula, in order, each rooted at its set, and its status is the
/// aggregate of theirs.
pub proof fn lemma_inner_node(fs: Seq<Prop>)
    requires
        !has_clash(fs),
        !all_literals(fs),
    ensures
        tableau(fs).formulas == fs,
        tableau(fs).children.len() == branches(fs[selected(fs)], fs.remove(selected(fs))).len(),
        forall|k: int|
            0 <= k < tableau(fs).children.len() ==> {
                &&& #[trigger] tableau(fs).children[k] == tableau(
                    branches(fs[selected(fs)], fs.remove(selected(fs)))[k],
                )
                &&& tableau(fs).children[k].formulas == branches(
                    fs[selected(fs)],
                    fs.remove(selected(fs)),
                )[k]
            },
        tableau(fs).status == aggregate(tableau(fs).children),
        tableau(fs).status != NodeStatus::Open,
{
}

/// Every node has at most two children; a leaf is open or closed, closed
/// exactly when its set has a clash; an inner node is closed or intermediate
/// and has a child.
pub proof fn lemma_node_shape(fs: Seq<Prop>)
    ensures
        tableau(fs).formulas == fs,
        tableau(fs).children.len() <= 2,
        tableau(fs).children.len() == 0 <==> has_clash(fs) || all_literals(fs),
        tableau(fs).children.len() == 0 ==> (tableau(fs).status == NodeStatus::Closed
            <==> has_clash(fs)) && (tableau(fs).status == NodeStatus::Open <==> !has_clash(fs)),
        tableau(fs).children.len() > 0 ==> tableau(fs).status != NodeStatus::Open,
{
    if !has_clash(fs) && !all_literals(fs) {
        lemma_selected(fs);
    }
}

/// The tree of a single formula that is not a literal: the formula is the one
/// decomposed, beside nothing.
proof fn lemma_single_composite(f: Prop)
    requires
        !f.is_literal(),
    ensures
        !has_clash(seq![f]),
        !all_literals(seq![f]),
        selected(seq![f]) == 0,
        seq![f].remove(0) == Seq::<Prop>::empty(),
{
    let fs = seq![f];
    assert(!fs[0].is_literal());
    lemma_selected(fs);
    assert(fs.remove(0) =~= Seq::<Prop>::empty());
}

/// A set that holds a variable and its negation is a closed leaf: the closure
/// check ends the expansion at once, whatever else the set holds.
pub proof fn lemma_complementary_literals_close(fs: Seq<Prop>, x: Seq<char>)
    requires
        fs.contains(Prop::Var(x)),
        fs.contains(Prop::Var(x).negated()),
    ensures
        tableau(fs) == (Tree {
            formulas: fs,
            children: Seq::<Tree>::empty(),
            status: NodeStatus::Closed,
        }),
{
    let i = choose|i: int| 0 <= i < fs.len() && fs[i] == Prop::Var(x);
    let j = choose|j: int| 0 <= j < fs.len() && fs[j] == Prop::Var(x).negated();
    if i < j {
        assert(clashes(fs, i, j));
    } else {
        assert(clashes(fs, j, i));
    }
}

/// A conjunction alone has exactly one child, the tree of its two operands in
/// order, and is closed exactly when that child is.
pub proof fn lemma_conjunction_single_child(a: Prop, b: Prop)
    ensures
        tableau(seq![Prop::And(Box::new(a), Box::new(b))]).formulas == seq![
            Prop::And(Box::new(a), Box::new(b)),
        ],
        tableau(seq![Prop::And(Box::new(a), Box::new(b))]).children == seq![tableau(seq![a, b])],
        tableau(seq![a, b]).formulas == seq![a, b],
        tableau(seq![Prop::And(Box::new(a), Box::new(b))]).status == (if tableau(
            seq![a, b],
        ).status == NodeStatus::Closed {
            NodeStatus::Closed
        } else {
            NodeStatus::Intermediate
        }),
{
    let f = Prop::And(Box::new(a), Box::new(b));
    lemma_single_composite(f);
    assert(Seq::<Prop>::empty().push(a).push(b) =~= seq![a, b]);
    assert(branches(f, seq![f].remove(0)) =~= seq![seq![a, b]]);
    let kids = tableau(seq![f]).children;
    assert(kids =~= seq![tableau(seq![a, b])]);
    assert(kids[0] == tableau(seq![a, b]));
}

/// A conjunction alone has the status of its child, where the child is an
/// inner node or closed.
pub proof fn lemma_conjunction_status(a: Prop, b: Prop)
    requires
        tableau(seq![a, b]).status != NodeStatus::Open,
    ensures
        tableau(seq![Prop::And(Box::new(a), Box::new(b))]).status == tableau(seq![a, b]).status,
{
    lemma_conjunction_single_child(a, b);
}

/// A disjunction alone has exactly two children, the tree of its first operand
/// and then that of its second, and is closed exactly when both are.
pub proof fn lemma_disjunction_two_children(a: Prop, b: Prop)
    ensures
        tableau(seq![Prop::Or(Box::new(a), Box::new(b))]).formulas == seq![
            Prop::Or(Box::new(a), Box::new(b)),
        ],
        tableau(seq![Prop::Or(Box::new(a), Box::new(b))]).children == seq![
            tableau(seq![a]),
            tableau(seq![b]),
        ],
        tableau(seq![a]).formulas == seq![a],
        tableau(seq![b]).formulas == seq![b],
        tableau(seq![Prop::Or(Box::new(a), Box::new(b))]).status == NodeStatus::Closed <==> (
        tableau(seq![a]).status == NodeStatus::Closed && tableau(seq![b]).status
            == NodeStatus::Closed),
        tableau(seq![Prop::Or(Box::new(a), Box::new(b))]).status != NodeStatus::Closed ==> tableau(
            seq![Prop::Or(Box::new(a), Box::new(b))],
        ).status == NodeStatus::Intermediate,
{
    let f = Prop::Or(Box::new(a), Box::new(b));
    lemma_single_composite(f);
    assert(Seq::<Prop>::empty().push(a) =~= seq![a]);
    assert(Seq::<Prop>::empty().push(b) =~= seq![b]);
    assert(branches(f, seq![f].remove(0)) =~= seq![seq![a], seq![b]]);
    let kids = tableau(seq![f]).children;
    assert(kids =~= seq![tableau(seq![a]), tableau(seq![b])]);
    assert(kids[0] == tableau(seq![a]));
    assert(kids[1] == tableau(seq![b]));
}

} // verus!
