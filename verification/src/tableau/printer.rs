//! The layout of a derivation tree as lines of text, one per node.

use vstd::prelude::*;
use crate::formula::{Formula, Prop};
use super::node::{props, NodeStatus, TableauNode, Tree};

verus! {

/// The mathematical model of a line of the drawing.
pub ghost struct Line {
    pub text: Seq<char>,
    pub status: NodeStatus,
}

/// A line of the drawing: the branch marks and the formulas of one node, and
/// the status to show after them.
#[derive(Debug)]
pub struct TreeLine {
    pub text: String,
    pub status: NodeStatus,
}

impl View for TreeLine {
    type V = Line;

    open spec fn view(&self) -> Line {
        Line { text: self.text@, status: self.status }
    }
}

/// The models of a sequence of lines, in order.
pub open spec fn lines_of(ls: Seq<TreeLine>) -> Seq<Line> {
    Seq::new(ls.len(), |i: int| ls[i]@)
}

/// The mark in front of a node: a corner for the last child, a tee otherwise.
pub open spec fn marker(is_last: bool) -> Seq<char> {
    if is_last {
        seq!['\u{2514}', '\u{2500}', '\u{2500}', ' ']
    } else {
        seq!['\u{251c}', '\u{2500}', '\u{2500}', ' ']
    }
}

/// What a node adds in front of its children: blanks under a last child, a
/// bar otherwise.
pub open spec fn indent(is_last: bool) -> Seq<char> {
    if is_last {
        seq![' ', ' ', ' ', ' ']
    } else {
        seq!['\u{2502}', ' ', ' ', ' ']
    }
}

/// The renderings of `fs`, separated by a comma and a blank.
pub open spec fn listing(fs: Seq<Prop>) -> Seq<char>
    decreases fs.len(),
{
    if fs.len() == 0 {
        Seq::empty()
    } else if fs.len() == 1 {
        fs[0].render()
    } else {
        listing(fs.drop_last()) + seq![',', ' '] + fs.last().render()
    }
}

/// The text shown after the formulas of a node with this status.
pub open spec fn status_label(status: NodeStatus) -> Seq<char> {
    match status {
        NodeStatus::Closed => seq![' ', '[', '\u{274c}', ' ', '\u{ce}', 'N', 'C', 'H', 'I', 'S', ']'],
        NodeStatus::Open => seq![' ', '[', '\u{2705}', ' ', 'D', 'E', 'S', 'C', 'H', 'I', 'S', ']'],
        NodeStatus::Intermediate => Seq::empty(),
    }
}

impl Tree {
    /// The lines of this tree drawn behind `prefix`: the node's own line, then
    /// the lines of its children in order, each behind the prefix grown by
    /// this node's indent.
    pub open spec fn lines(self, prefix: Seq<char>, is_last: bool) -> Seq<Line>
        decreases self, self.children.len() + 1,
    {
        seq![
            Line { text: prefix + marker(is_last) + listing(self.formulas), status: self.status },
        ] + self.lines_below(prefix + indent(is_last), 0)
    }

    /// The lines of the children from position `from` on, behind `prefix`.
    pub open spec fn lines_below(self, prefix: Seq<char>, from: int) -> Seq<Line>
        decreases self, self.children.len() - from,
    {
        if 0 <= from < self.children.len() {
            self.children[from].lines(prefix, from == self.children.len() - 1)
                + self.lines_below(prefix, from + 1)
        } else {
            Seq::empty()
        }
    }
}

impl NodeStatus {
    /// The text shown after the formulas of a node with this status.
    pub fn label(&self) -> (r: &'static str)
        ensures
            r@ == status_label(*self),
    {
        proof {
            reveal_strlit(" [\u{274c} \u{ce}NCHIS]");
            reveal_strlit(" [\u{2705} DESCHIS]");
            reveal_strlit("");
        }
        let r = match self {
            NodeStatus::Closed => " [\u{274c} \u{ce}NCHIS]",
            NodeStatus::Open => " [\u{2705} DESCHIS]",
            NodeStatus::Intermediate => "",
        };
        assert(r@ =~= status_label(*self));
        r
    }
}

/// The formulas of `formulas` in infix notation, separated by a comma and a
/// blank.
pub fn list_formulas(formulas: &Vec<Formula>) -> (r: String)
    ensures
        r@ == listing(props(formulas@)),
{
    let ghost fs = props(formulas@);
    let mut out = String::new();
    let mut i: usize = 0;
    proof {
        reveal_strlit(", ");
        assert(fs.take(0) =~= Seq::<Prop>::empty());
    }
    while i < formulas.len()
        invariant
            i <= formulas.len(),
            fs == props(formulas@),
            out@ == listing(fs.take(i as int)),
        decreases formulas.len() - i,
    {
        if i > 0 {
            out.append(", ");
        }
        let piece = formulas[i].to_string();
        out.append(piece.as_str());
        proof {
            reveal_strlit(", ");
            let next = fs.take(i + 1);
            assert(next.drop_last() =~= fs.take(i as int));
            assert(next.last() == fs[i as int]);
            if i == 0 {
                assert(out@ =~= fs[0].render());
            } else {
                assert(out@ =~= listing(fs.take(i as int)) + seq![',', ' '] + fs[i as int].render());
            }
        }
        i += 1;
    }
    assert(fs.take(i as int) =~= fs);
    out
}

/// `a` followed by `b`.
fn joined(a: &str, b: &str) -> (r: String)
    ensures
        r@ == a@ + b@,
{
    let mut r = String::from_str(a);
    r.append(b);
    r
}

/// The lines of the drawing of `node` behind `prefix`, from the node's own
/// line down, children in order; `is_last` says whether the node is the last
/// child of its parent (the root counts as one).
pub fn render_tree(node: &TableauNode, prefix: &str, is_last: bool) -> (r: Vec<TreeLine>)
    ensures
        lines_of(r@) == node@.lines(prefix@, is_last),
    decreases node,
{
    proof {
        reveal_strlit("\u{2514}\u{2500}\u{2500} ");
        reveal_strlit("\u{251c}\u{2500}\u{2500} ");
        reveal_strlit("    ");
        reveal_strlit("\u{2502}   ");
    }
    let mark = if is_last {
        "\u{2514}\u{2500}\u{2500} "
    } else {
        "\u{251c}\u{2500}\u{2500} "
    };
    let step = if is_last {
        "    "
    } else {
        "\u{2502}   "
    };
    assert(mark@ =~= marker(is_last));
    assert(step@ =~= indent(is_last));
    let mut text = joined(prefix, mark);
    let listed = list_formulas(&node.formulas);
    text.append(listed.as_str());
    let child_prefix = joined(prefix, step);
    let mut out: Vec<TreeLine> = Vec::new();
    out.push(TreeLine { text, status: node.status });
    let ghost own = lines_of(out@);
    let n = node.children.len();
    assert(node@.children.len() == n);
    let mut i: usize = n;
    let mut below: Vec<TreeLine> = Vec::new();
    assert(lines_of(below@) =~= node@.lines_below(child_prefix@, n as int));
    // Children are laid out from the last one back, so that each step puts a
    // child's lines in front of those that follow it.
    while i > 0
        invariant
            i <= n,
            n == node.children.len(),
            node@.children.len() == n,
            lines_of(below@) == node@.lines_below(child_prefix@, i as int),
        decreases i,
    {
        i -= 1;
        let mut part = render_tree(&node.children[i], child_prefix.as_str(), i == n - 1);
        let ghost head = lines_of(part@);
        let ghost tail = lines_of(below@);
        part.append(&mut below);
        below = part;
        assert(node@.children[i as int] == node.children[i as int]@);
        assert(lines_of(below@) =~= head + tail);
    }
    let ghost rest = lines_of(below@);
    out.append(&mut below);
    assert(lines_of(out@) =~= own + rest);
    assert(own =~= seq![
        Line {
            text: prefix@ + marker(is_last) + listing(node@.formulas),
            status: node@.status,
        },
    ]);
    out
}

} // verus!
