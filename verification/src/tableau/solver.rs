//! The tableau expansion: closure check, rule selection, rule application
//! and status aggregation.

use vstd::prelude::*;
use crate::formula::{Formula, Prop};
use super::node::{clone_formulas, props, trees, NodeStatus, TableauNode, Tree};

verus! {

impl Prop {
    /// The size by which expansion is measured: a variable and a negation
    /// count one, a binary connective two, on top of their operands.
    pub open spec fn weight(self) -> nat
        decreases self,
    {
        match self {
            Prop::Var(_) => 1,
            Prop::Not(f) => 1 + f.weight(),
            Prop::And(l, r) => 2 + l.weight() + r.weight(),
            Prop::Or(l, r) => 2 + l.weight() + r.weight(),
            Prop::Implies(l, r) => 2 + l.weight() + r.weight(),
        }
    }
}

impl Prop {
    /// The number of subformula occurrences: every variable and every
    /// connective counts one.
    pub open spec fn size(self) -> nat
        decreases self,
    {
        match self {
            Prop::Var(_) => 1,
            Prop::Not(f) => 1 + f.size(),
            Prop::And(l, r) => 1 + l.size() + r.size(),
            Prop::Or(l, r) => 1 + l.size() + r.size(),
            Prop::Implies(l, r) => 1 + l.size() + r.size(),
        }
    }
}

/// The sum of the sizes of the members of `fs`.
pub open spec fn total_size(fs: Seq<Prop>) -> nat
    decreases fs.len(),
{
    if fs.len() == 0 {
        0
    } else {
        total_size(fs.drop_last()) + fs.last().size()
    }
}

/// The sum of the weights of the members of `fs`.
pub open spec fn total_weight(fs: Seq<Prop>) -> nat
    decreases fs.len(),
{
    if fs.len() == 0 {
        0
    } else {
        total_weight(fs.drop_last()) + fs.last().weight()
    }
}

/// The members at `i` and `j` are two literals that contradict each other.
pub open spec fn clashes(fs: Seq<Prop>, i: int, j: int) -> bool {
    &&& 0 <= i < j < fs.len()
    &&& fs[i].is_literal()
    &&& fs[j].is_literal()
    &&& fs[i].contradicts(fs[j])
}

/// Some pair of members clashes.
pub open spec fn has_clash(fs: Seq<Prop>) -> bool {
    exists|i: int, j: int| clashes(fs, i, j)
}

/// Every member is a literal.
pub open spec fn all_literals(fs: Seq<Prop>) -> bool {
    forall|i: int| 0 <= i < fs.len() ==> (#[trigger] fs[i]).is_literal()
}

/// `i` is the position of the first member that is not a literal.
pub open spec fn selects(fs: Seq<Prop>, i: int) -> bool {
    &&& 0 <= i < fs.len()
    &&& !fs[i].is_literal()
    &&& forall|k: int| 0 <= k < i ==> (#[trigger] fs[k]).is_literal()
}

/// The position of the first member that is not a literal, where there is one.
pub open spec fn selected(fs: Seq<Prop>) -> int {
    choose|i: int| selects(fs, i)
}

/// The rule table: the formula sets that follow from decomposing `f` beside
/// the remaining members `rest`. One set for a conjunctive shape, two for a
/// disjunctive one, none for a literal.
pub open spec fn branches(f: Prop, rest: Seq<Prop>) -> Seq<Seq<Prop>> {
    match f {
        Prop::Var(_) => seq![],
        Prop::And(a, b) => seq![rest.push(*a).push(*b)],
        Prop::Or(a, b) => seq![rest.push(*a), rest.push(*b)],
        Prop::Implies(a, b) => seq![rest.push(a.negated()), rest.push(*b)],
        Prop::Not(g) => match *g {
            Prop::Var(_) => seq![],
            Prop::Not(a) => seq![rest.push(*a)],
            Prop::Or(a, b) => seq![rest.push(a.negated()).push(b.negated())],
            Prop::Implies(a, b) => seq![rest.push(*a).push(b.negated())],
            Prop::And(a, b) => seq![rest.push(a.negated()), rest.push(b.negated())],
        },
    }
}

/// Every tree in `ts` is closed.
pub open spec fn all_closed(ts: Seq<Tree>) -> bool {
    forall|k: int| 0 <= k < ts.len() ==> (#[trigger] ts[k]).status == NodeStatus::Closed
}

/// The status of an inner node above `ts`.
pub open spec fn aggregate(ts: Seq<Tree>) -> NodeStatus {
    if all_closed(ts) {
        NodeStatus::Closed
    } else {
        NodeStatus::Intermediate
    }
}

/// The derivation tree of a formula set.
///
/// A set with a clash is a closed leaf. Otherwise a set of literals is an open
/// leaf. Otherwise the first member that is not a literal is taken out and
/// decomposed by the rule table; the node's children are the trees of the sets
/// that follow, in order, and the node is closed exactly when all of them are.
pub open spec fn tableau(fs: Seq<Prop>) -> Tree
    decreases total_weight(fs),
    via tableau_terminates
{
    if has_clash(fs) {
        Tree { formulas: fs, children: seq![], status: NodeStatus::Closed }
    } else if all_literals(fs) {
        Tree { formulas: fs, children: seq![], status: NodeStatus::Open }
    } else {
        let i = selected(fs);
        let sets = branches(fs[i], fs.remove(i));
        let kids = Seq::new(
            sets.len(),
            |k: int|
                if 0 <= k < sets.len() {
                    tableau(sets[k])
                } else {
                    arbitrary()
                },
        );
        Tree { formulas: fs, children: kids, status: aggregate(kids) }
    }
}

#[via_fn]
proof fn tableau_terminates(fs: Seq<Prop>) {
    if !has_clash(fs) && !all_literals(fs) {
        lemma_selected(fs);
        let i = selected(fs);
        lemma_total_weight_remove(fs, i);
        assert forall|k: int| 0 <= k < branches(fs[i], fs.remove(i)).len() implies total_weight(
            #[trigger] branches(fs[i], fs.remove(i))[k],
        ) < total_weight(fs) by {
            lemma_rule_shrinks(fs[i], fs.remove(i), k);
        }
    }
}

/// Appending a member adds its weight.
pub proof fn lemma_total_weight_push(fs: Seq<Prop>, f: Prop)
    ensures
        total_weight(fs.push(f)) == total_weight(fs) + f.weight(),
{
    assert(fs.push(f).drop_last() =~= fs);
}

/// Taking a member out takes its weight off.
pub proof fn lemma_total_weight_remove(fs: Seq<Prop>, i: int)
    requires
        0 <= i < fs.len(),
    ensures
        total_weight(fs) == total_weight(fs.remove(i)) + fs[i].weight(),
    decreases fs.len(),
{
    if i == fs.len() - 1 {
        assert(fs.remove(i) =~= fs.drop_last());
    } else {
        lemma_total_weight_remove(fs.drop_last(), i);
        assert(fs.remove(i).drop_last() =~= fs.drop_last().remove(i));
        assert(fs.remove(i).last() == fs.last());
    }
}

/// A set with a member that is not a literal has a first such member, and
/// `selected` is its position.
pub proof fn lemma_selected(fs: Seq<Prop>)
    requires
        !all_literals(fs),
    ensures
        selects(fs, selected(fs)),
{
    let k = choose|k: int| 0 <= k < fs.len() && !(#[trigger] fs[k]).is_literal();
    lemma_first_composite(fs, k);
}

proof fn lemma_first_composite(fs: Seq<Prop>, k: int)
    requires
        0 <= k < fs.len(),
        !fs[k].is_literal(),
    ensures
        exists|i: int| selects(fs, i),
    decreases k,
{
    if forall|j: int| 0 <= j < k ==> (#[trigger] fs[j]).is_literal() {
        assert(selects(fs, k));
    } else {
        let j = choose|j: int| 0 <= j < k && !(#[trigger] fs[j]).is_literal();
        lemma_first_composite(fs, j);
    }
}

/// At most one position is the first that holds no literal.
pub proof fn lemma_selects_unique(fs: Seq<Prop>, i: int, j: int)
    requires
        selects(fs, i),
        selects(fs, j),
    ensures
        i == j,
{
    if i < j {
        assert(fs[i].is_literal());
    } else if j < i {
        assert(fs[j].is_literal());
    }
}

/// Appending a member adds its size.
pub proof fn lemma_total_size_push(fs: Seq<Prop>, f: Prop)
    ensures
        total_size(fs.push(f)) == total_size(fs) + f.size(),
{
    assert(fs.push(f).drop_last() =~= fs);
}

/// No rule lets the number of subformula occurrences grow, and every rule
/// but the one for a negated disjunction makes it strictly smaller; that rule
/// keeps it as it is, which is why expansion is measured by weight.
pub proof fn lemma_rule_never_grows(f: Prop, rest: Seq<Prop>, k: int)
    requires
        0 <= k < branches(f, rest).len(),
    ensures
        total_size(branches(f, rest)[k]) <= total_size(rest) + f.size(),
        !(f matches Prop::Not(g) && *g is Or) ==> total_size(branches(f, rest)[k]) < total_size(
            rest,
        ) + f.size(),
        f matches Prop::Not(g) && *g is Or ==> total_size(branches(f, rest)[k]) == total_size(rest)
            + f.size(),
{
    reveal_with_fuel(Prop::size, 3);
    match f {
        Prop::Var(_) => {},
        Prop::And(a, b) => {
            lemma_total_size_push(rest, *a);
            lemma_total_size_push(rest.push(*a), *b);
        },
        Prop::Or(a, b) => {
            lemma_total_size_push(rest, *a);
            lemma_total_size_push(rest, *b);
        },
        Prop::Implies(a, b) => {
            lemma_total_size_push(rest, a.negated());
            lemma_total_size_push(rest, *b);
        },
        Prop::Not(g) => match *g {
            Prop::Var(_) => {},
            Prop::Not(a) => {
                lemma_total_size_push(rest, *a);
            },
            Prop::Or(a, b) => {
                lemma_total_size_push(rest, a.negated());
                lemma_total_size_push(rest.push(a.negated()), b.negated());
            },
            Prop::Implies(a, b) => {
                lemma_total_size_push(rest, *a);
                lemma_total_size_push(rest.push(*a), b.negated());
            },
            Prop::And(a, b) => {
                lemma_total_size_push(rest, a.negated());
                lemma_total_size_push(rest, b.negated());
            },
        },
    }
}

/// Every rule replaces a formula by sets of strictly smaller total weight:
/// the measure by which expansion terminates.
pub proof fn lemma_rule_shrinks(f: Prop, rest: Seq<Prop>, k: int)
    requires
        0 <= k < branches(f, rest).len(),
    ensures
        total_weight(branches(f, rest)[k]) < total_weight(rest) + f.weight(),
{
    reveal_with_fuel(Prop::weight, 3);
    match f {
        Prop::Var(_) => {},
        Prop::And(a, b) => {
            lemma_total_weight_push(rest, *a);
            lemma_total_weight_push(rest.push(*a), *b);
        },
        Prop::Or(a, b) => {
            lemma_total_weight_push(rest, *a);
            lemma_total_weight_push(rest, *b);
        },
        Prop::Implies(a, b) => {
            lemma_total_weight_push(rest, a.negated());
            lemma_total_weight_push(rest, *b);
        },
        Prop::Not(g) => match *g {
            Prop::Var(_) => {},
            Prop::Not(a) => {
                lemma_total_weight_push(rest, *a);
            },
            Prop::Or(a, b) => {
                lemma_total_weight_push(rest, a.negated());
                lemma_total_weight_push(rest.push(a.negated()), b.negated());
            },
            Prop::Implies(a, b) => {
                lemma_total_weight_push(rest, *a);
                lemma_total_weight_push(rest.push(*a), b.negated());
            },
            Prop::And(a, b) => {
                lemma_total_weight_push(rest, a.negated());
                lemma_total_weight_push(rest, b.negated());
            },
        },
    }
}

/// The formula sets that a rule produced, each still to be expanded.
enum Branching {
    Nothing,
    One(Vec<Formula>),
    Two(Vec<Formula>, Vec<Formula>),
}

impl Branching {
    spec fn sets(&self) -> Seq<Seq<Prop>> {
        match self {
            Branching::Nothing => seq![],
            Branching::One(a) => seq![props(a@)],
            Branching::Two(a, b) => seq![props(a@), props(b@)],
        }
    }
}

/// `fs` with `f` appended.
fn with(fs: Vec<Formula>, f: Formula) -> (r: Vec<Formula>)
    ensures
        props(r@) == props(fs@).push(f@),
{
    let mut r = fs;
    r.push(f);
    assert(props(r@) =~= props(fs@).push(f@));
    r
}

/// The closure check: whether some two members are literals that contradict
/// each other.
fn finds_clash(formulas: &Vec<Formula>) -> (r: bool)
    ensures
        r == has_clash(props(formulas@)),
{
    let ghost fs = props(formulas@);
    let n = formulas.len();
    let mut i: usize = 0;
    while i < n
        invariant
            i <= n,
            n == formulas.len(),
            fs == props(formulas@),
            forall|a: int, b: int| 0 <= a < i ==> !clashes(fs, a, b),
        decreases n - i,
    {
        let mut j: usize = i + 1;
        while j < n
            invariant
                i < j <= n,
                n == formulas.len(),
                fs == props(formulas@),
                forall|a: int, b: int| 0 <= a < i ==> !clashes(fs, a, b),
                forall|b: int| i < b < j ==> !clashes(fs, i as int, b),
            decreases n - j,
        {
            if formulas[i].is_literal() && formulas[j].is_literal()
                && formulas[i].is_contradiction_with(&formulas[j]) {
                assert(clashes(fs, i as int, j as int));
                return true;
            }
            j += 1;
        }
        i += 1;
    }
    false
}

/// Rule selection: the position of the first member that is not a literal.
fn first_composite(formulas: &Vec<Formula>) -> (r: Option<usize>)
    ensures
        match r {
            Some(i) => selects(props(formulas@), i as int),
            None => all_literals(props(formulas@)),
        },
{
    let mut i: usize = 0;
    while i < formulas.len()
        invariant
            i <= formulas.len(),
            forall|k: int| 0 <= k < i ==> (#[trigger] props(formulas@)[k]).is_literal(),
        decreases formulas.len() - i,
    {
        if !formulas[i].is_literal() {
            return Some(i);
        }
        i += 1;
    }
    None
}

/// Rule application: decomposes `current` beside the remaining members `rest`.
fn apply_rule(current: Formula, rest: Vec<Formula>) -> (r: Branching)
    ensures
        r.sets() == branches(current@, props(rest@)),
{
    proof {
        reveal_with_fuel(Formula::model, 3);
    }
    match current {
        Formula::Var(_) => Branching::Nothing,
        Formula::And(a, b) => Branching::One(with(with(rest, *a), *b)),
        Formula::Or(a, b) => {
            let left = with(clone_formulas(&rest), *a);
            let right = with(rest, *b);
            Branching::Two(left, right)
        },
        Formula::Implies(a, b) => {
            let left = with(clone_formulas(&rest), Formula::not(*a));
            let right = with(rest, *b);
            Branching::Two(left, right)
        },
        Formula::Not(inner) => match *inner {
            Formula::Var(n) => Branching::Nothing,
            Formula::Not(a) => Branching::One(with(rest, *a)),
            Formula::Or(a, b) => Branching::One(
                with(with(rest, Formula::not(*a)), Formula::not(*b)),
            ),
            Formula::Implies(a, b) => Branching::One(with(with(rest, *a), Formula::not(*b))),
            Formula::And(a, b) => {
                let left = with(clone_formulas(&rest), Formula::not(*a));
                let right = with(rest, Formula::not(*b));
                Branching::Two(left, right)
            },
        },
    }
}

/// Status aggregation: whether every child is closed.
fn children_closed(children: &Vec<TableauNode>) -> (r: bool)
    ensures
        r == all_closed(trees(children@)),
{
    let mut i: usize = 0;
    while i < children.len()
        invariant
            i <= children.len(),
            forall|k: int| 0 <= k < i ==> (#[trigger] trees(children@)[k]).status
                == NodeStatus::Closed,
        decreases children.len() - i,
    {
        if children[i].status != NodeStatus::Closed {
            assert(trees(children@)[i as int].status != NodeStatus::Closed);
            return false;
        }
        i += 1;
    }
    true
}

/// Builds the derivation tree of `formulas`.
///
/// The closure check comes first, on the whole set; then the first member that
/// is not a literal is decomposed and each set that follows is expanded in
/// turn; the status of an inner node is computed from its finished children.
pub fn build_tableau(formulas: Vec<Formula>) -> (node: TableauNode)
    ensures
        node@ == tableau(props(formulas@)),
    decreases total_weight(props(formulas@)),
{
    let ghost fs = props(formulas@);
    if finds_clash(&formulas) {
        let node = TableauNode { formulas, children: Vec::new(), status: NodeStatus::Closed };
        assert(node@.children =~= Seq::<Tree>::empty());
        return node;
    }
    match first_composite(&formulas) {
        None => {
            let node = TableauNode { formulas, children: Vec::new(), status: NodeStatus::Open };
            assert(node@.children =~= Seq::<Tree>::empty());
            node
        },
        Some(idx) => {
            let mut rest = clone_formulas(&formulas);
            let current = rest.remove(idx);
            proof {
                assert(!fs[idx as int].is_literal());
                lemma_selected(fs);
                lemma_selects_unique(fs, idx as int, selected(fs));
                assert(props(rest@) =~= fs.remove(idx as int));
                assert(current@ == fs[idx as int]);
                lemma_total_weight_remove(fs, idx as int);
            }
            let ghost sets = branches(current@, props(rest@));
            let mut children: Vec<TableauNode> = Vec::new();
            match apply_rule(current, rest) {
                Branching::Nothing => {},
                Branching::One(a) => {
                    proof {
                        lemma_rule_shrinks(fs[idx as int], fs.remove(idx as int), 0);
                    }
                    children.push(build_tableau(a));
                },
                Branching::Two(a, b) => {
                    proof {
                        lemma_rule_shrinks(fs[idx as int], fs.remove(idx as int), 0);
                        lemma_rule_shrinks(fs[idx as int], fs.remove(idx as int), 1);
                    }
                    children.push(build_tableau(a));
                    children.push(build_tableau(b));
                },
            }
            assert(trees(children@) =~= tableau(fs).children);
            let status = if children_closed(&children) {
                NodeStatus::Closed
            } else {
                NodeStatus::Intermediate
            };
            let node = TableauNode { formulas, children, status };
            assert(node@.children =~= trees(node.children@));
            node
        },
    }
}

} // verus!
