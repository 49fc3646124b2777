//! Nodes of a derivation tree.

use vstd::prelude::*;
use crate::formula::{Formula, Prop};

verus! {

/// How a branch of the derivation ended, or that it went on.
#[derive(Debug, Clone, Copy, PartialEq, Eq, Structural)]
pub enum NodeStatus {
    /// A fully decomposed set without contradiction.
    Open,
    /// Every branch below ends in a contradiction.
    Closed,
    /// An inner node with a branch below that is not closed.
    Intermediate,
}

/// The mathematical model of a derivation tree.
pub ghost struct Tree {
    pub formulas: Seq<Prop>,
    pub children: Seq<Tree>,
    pub status: NodeStatus,
}

/// The models of a sequence of formulas, in order.
pub open spec fn props(fs: Seq<Formula>) -> Seq<Prop> {
    Seq::new(fs.len(), |i: int| fs[i]@)
}

/// A node of the derivation tree: the formulas active at this point, the
/// nodes derived from it, and its status.
#[derive(Debug)]
pub struct TableauNode {
    pub formulas: Vec<Formula>,
    pub children: Vec<TableauNode>,
    pub status: NodeStatus,
}

impl TableauNode {
    /// The tree this node denotes.
    pub open spec fn model(&self) -> Tree
        decreases self,
    {
        Tree {
            formulas: props(self.formulas@),
            children: Seq::new(
                self.children.len() as nat,
                |i: int|
                    if 0 <= i < self.children.len() {
                        self.children[i].model()
                    } else {
                        arbitrary()
                    },
            ),
            status: self.status,
        }
    }
}

impl View for TableauNode {
    type V = Tree;

    open spec fn view(&self) -> Tree {
        self.model()
    }
}

/// The models of a sequence of nodes, in order.
pub open spec fn trees(ns: Seq<TableauNode>) -> Seq<Tree> {
    Seq::new(ns.len(), |i: int| ns[i]@)
}

/// A copy of `fs`, formula by formula.
pub fn clone_formulas(fs: &Vec<Formula>) -> (r: Vec<Formula>)
    ensures
        props(r@) == props(fs@),
{
    let mut out: Vec<Formula> = Vec::new();
    let mut i: usize = 0;
    while i < fs.len()
        invariant
            i <= fs.len(),
            out.len() == i,
            forall|k: int| 0 <= k < i ==> out[k]@ == fs[k]@,
        decreases fs.len() - i,
    {
        out.push(fs[i].clone());
        i += 1;
    }
    assert(props(out@) =~= props(fs@));
    out
}

impl Clone for TableauNode {
    fn clone(&self) -> (r: Self)
        ensures
            r@ == self@,
        decreases self,
    {
        let mut kids: Vec<TableauNode> = Vec::new();
        let mut i: usize = 0;
        while i < self.children.len()
            invariant
                i <= self.children.len(),
                kids.len() == i,
                forall|k: int| 0 <= k < i ==> kids[k]@ == self.children[k]@,
            decreases self.children.len() - i,
        {
            kids.push(self.children[i].clone());
            i += 1;
        }
        let r = TableauNode {
            formulas: clone_formulas(&self.formulas),
            children: kids,
            status: self.status,
        };
        assert(r@.children =~= self@.children);
        r
    }
}

} // verus!
