use logic_toolkit::formula::Formula;
use logic_toolkit::tableau::printer::{list_formulas, render_tree};
use logic_toolkit::tableau::{build_tableau, NodeStatus, TableauNode};

fn p() -> Formula {
    Formula::var("P")
}

fn q() -> Formula {
    Formula::var("Q")
}

fn r() -> Formula {
    Formula::var("R")
}

fn not(f: Formula) -> Formula {
    Formula::not(f)
}

fn leaf(node: &TableauNode, formulas: Vec<Formula>, status: NodeStatus) {
    assert_eq!(node.formulas, formulas);
    assert_eq!(node.status, status);
    assert!(node.children.is_empty());
}

#[test]
fn variable_and_its_negation_close_at_once() {
    let set = vec![Formula::and(q(), r()), p(), Formula::or(q(), r()), not(p())];
    let root = build_tableau(set.clone());
    leaf(&root, set, NodeStatus::Closed);
}

#[test]
fn negation_before_variable_closes_too() {
    let set = vec![not(p()), q(), p()];
    let root = build_tableau(set.clone());
    leaf(&root, set, NodeStatus::Closed);
}

#[test]
fn conjunction_has_one_child_with_both_operands() {
    let a = Formula::or(p(), q());
    let b = not(r());
    let root = build_tableau(vec![Formula::and(a.clone(), b.clone())]);
    assert_eq!(root.formulas, vec![Formula::and(a.clone(), b.clone())]);
    assert_eq!(root.children.len(), 1);
    assert_eq!(root.children[0].formulas, vec![a, b]);
    assert_eq!(root.status, root.children[0].status);
    assert_eq!(root.status, NodeStatus::Intermediate);
}

#[test]
fn disjunction_has_two_children_in_order() {
    let a = Formula::and(p(), not(p()));
    let b = q();
    let root = build_tableau(vec![Formula::or(a.clone(), b.clone())]);
    assert_eq!(root.children.len(), 2);
    assert_eq!(root.children[0].formulas, vec![a]);
    assert_eq!(root.children[1].formulas, vec![b]);
    assert_eq!(root.children[0].status, NodeStatus::Closed);
    assert_eq!(root.children[1].status, NodeStatus::Open);
    assert_eq!(root.status, NodeStatus::Intermediate);
}

#[test]
fn disjunction_closes_when_both_children_close() {
    let a = Formula::and(p(), not(p()));
    let b = Formula::and(q(), not(q()));
    let root = build_tableau(vec![Formula::or(a, b)]);
    assert_eq!(root.children.len(), 2);
    assert_eq!(root.children[0].status, NodeStatus::Closed);
    assert_eq!(root.children[1].status, NodeStatus::Closed);
    assert_eq!(root.status, NodeStatus::Closed);
}

#[test]
fn tautology_scenario() {
    let root = build_tableau(vec![not(Formula::implies(p(), p()))]);
    assert_eq!(root.formulas, vec![not(Formula::implies(p(), p()))]);
    assert_eq!(root.status, NodeStatus::Closed);
    assert_eq!(root.children.len(), 1);
    leaf(&root.children[0], vec![p(), not(p())], NodeStatus::Closed);
}

#[test]
fn satisfiable_scenario() {
    let root = build_tableau(vec![Formula::and(p(), q())]);
    assert_eq!(root.children.len(), 1);
    leaf(&root.children[0], vec![p(), q()], NodeStatus::Open);
    assert_eq!(root.status, NodeStatus::Intermediate);
}

#[test]
fn unsatisfiable_scenario() {
    let root = build_tableau(vec![Formula::and(p(), not(p()))]);
    assert_eq!(root.children.len(), 1);
    leaf(&root.children[0], vec![p(), not(p())], NodeStatus::Closed);
    assert_eq!(root.status, NodeStatus::Closed);
}

#[test]
fn branching_scenario() {
    let root = build_tableau(vec![Formula::or(p(), not(p()))]);
    assert_eq!(root.children.len(), 2);
    leaf(&root.children[0], vec![p()], NodeStatus::Open);
    leaf(&root.children[1], vec![not(p())], NodeStatus::Open);
    assert_eq!(root.status, NodeStatus::Intermediate);
}

#[test]
fn empty_set_is_an_open_leaf() {
    leaf(&build_tableau(vec![]), vec![], NodeStatus::Open);
}

#[test]
fn literals_without_clash_are_an_open_leaf() {
    let set = vec![p(), not(q()), r(), p()];
    leaf(&build_tableau(set.clone()), set, NodeStatus::Open);
}

#[test]
fn negated_disjunction_gives_both_negations() {
    let root = build_tableau(vec![not(Formula::or(p(), q()))]);
    assert_eq!(root.children.len(), 1);
    leaf(&root.children[0], vec![not(p()), not(q())], NodeStatus::Open);
}

#[test]
fn negated_implication_gives_premise_and_negated_conclusion() {
    let root = build_tableau(vec![not(Formula::implies(p(), q()))]);
    assert_eq!(root.children.len(), 1);
    leaf(&root.children[0], vec![p(), not(q())], NodeStatus::Open);
}

#[test]
fn double_negation_gives_the_operand() {
    let root = build_tableau(vec![not(not(p()))]);
    assert_eq!(root.children.len(), 1);
    leaf(&root.children[0], vec![p()], NodeStatus::Open);
    assert_eq!(root.status, NodeStatus::Intermediate);
}

#[test]
fn implication_branches_on_negated_premise_and_conclusion() {
    let root = build_tableau(vec![Formula::implies(p(), q())]);
    assert_eq!(root.children.len(), 2);
    leaf(&root.children[0], vec![not(p())], NodeStatus::Open);
    leaf(&root.children[1], vec![q()], NodeStatus::Open);
}

#[test]
fn negated_conjunction_branches_on_both_negations() {
    let root = build_tableau(vec![not(Formula::and(p(), q()))]);
    assert_eq!(root.children.len(), 2);
    leaf(&root.children[0], vec![not(p())], NodeStatus::Open);
    leaf(&root.children[1], vec![not(q())], NodeStatus::Open);
}

#[test]
fn first_composite_is_taken_out_and_results_are_appended() {
    let set = vec![p(), Formula::and(q(), r()), Formula::or(p(), q()), not(r())];
    let root = build_tableau(set.clone());
    assert_eq!(root.formulas, set);
    assert_eq!(root.children.len(), 1);
    let child = &root.children[0];
    leaf(child, vec![p(), Formula::or(p(), q()), not(r()), q(), r()], NodeStatus::Closed);
    assert_eq!(root.status, NodeStatus::Closed);
}

#[test]
fn composite_contradiction_is_found_only_through_literals() {
    let f = Formula::and(p(), q());
    let root = build_tableau(vec![f.clone(), not(f.clone())]);
    assert_eq!(root.status, NodeStatus::Closed);
    assert_eq!(root.children.len(), 1);
    let child = &root.children[0];
    assert_eq!(child.formulas, vec![not(f.clone()), p(), q()]);
    assert_eq!(child.children.len(), 2);
    leaf(&child.children[0], vec![p(), q(), not(p())], NodeStatus::Closed);
    leaf(&child.children[1], vec![p(), q(), not(q())], NodeStatus::Closed);
}

#[test]
fn intermediate_child_keeps_parent_intermediate() {
    let root = build_tableau(vec![Formula::and(Formula::or(p(), q()), r())]);
    assert_eq!(root.children.len(), 1);
    let child = &root.children[0];
    assert_eq!(child.formulas, vec![Formula::or(p(), q()), r()]);
    assert_eq!(child.status, NodeStatus::Intermediate);
    assert_eq!(root.status, NodeStatus::Intermediate);
    leaf(&child.children[0], vec![r(), p()], NodeStatus::Open);
    leaf(&child.children[1], vec![r(), q()], NodeStatus::Open);
}

#[test]
fn repeated_formulas_are_not_merged() {
    let f = Formula::and(p(), q());
    let root = build_tableau(vec![f.clone(), f.clone()]);
    let first = &root.children[0];
    assert_eq!(first.formulas, vec![f.clone(), p(), q()]);
    leaf(&first.children[0], vec![p(), q(), p(), q()], NodeStatus::Open);
}

#[test]
fn deep_formula_terminates() {
    let mut f = p();
    for i in 0..40 {
        f = if i % 2 == 0 { not(not(f)) } else { Formula::and(f.clone(), q()) };
    }
    let root = build_tableau(vec![f]);
    assert_eq!(root.status, NodeStatus::Intermediate);
}

#[test]
fn peirce_law_is_proved() {
    let f = Formula::implies(Formula::implies(Formula::implies(p(), q()), p()), p());
    assert_eq!(build_tableau(vec![not(f)]).status, NodeStatus::Closed);
}

#[test]
fn node_clone_keeps_the_tree() {
    let root = build_tableau(vec![Formula::or(p(), not(p()))]);
    let copy = root.clone();
    assert_eq!(copy.formulas, root.formulas);
    assert_eq!(copy.status, root.status);
    assert_eq!(copy.children.len(), 2);
    assert_eq!(copy.children[1].formulas, vec![not(p())]);
}

#[test]
fn status_labels() {
    assert_eq!(NodeStatus::Closed.label(), " [\u{274c} \u{ce}NCHIS]");
    assert_eq!(NodeStatus::Open.label(), " [\u{2705} DESCHIS]");
    assert_eq!(NodeStatus::Intermediate.label(), "");
}

#[test]
fn formulas_are_listed_with_commas() {
    assert_eq!(list_formulas(&vec![]), "");
    assert_eq!(list_formulas(&vec![p()]), "P");
    assert_eq!(list_formulas(&vec![p(), not(q()), Formula::and(p(), q())]), "P, \u{ac}Q, (P \u{2227} Q)");
}

#[test]
fn tree_is_drawn_line_by_line() {
    let root = build_tableau(vec![Formula::or(p(), Formula::and(q(), not(q())))]);
    let lines = render_tree(&root, "", true);
    let texts: Vec<&str> = lines.iter().map(|l| l.text.as_str()).collect();
    assert_eq!(
        texts,
        vec![
            "\u{2514}\u{2500}\u{2500} (P \u{2228} (Q \u{2227} \u{ac}Q))",
            "    \u{251c}\u{2500}\u{2500} P",
            "    \u{2514}\u{2500}\u{2500} (Q \u{2227} \u{ac}Q)",
            "        \u{2514}\u{2500}\u{2500} Q, \u{ac}Q",
        ]
    );
    let statuses: Vec<NodeStatus> = lines.iter().map(|l| l.status).collect();
    assert_eq!(
        statuses,
        vec![NodeStatus::Intermediate, NodeStatus::Open, NodeStatus::Closed, NodeStatus::Closed]
    );
}

#[test]
fn tree_under_a_middle_child_keeps_the_bar() {
    let root = build_tableau(vec![Formula::or(Formula::and(p(), q()), r())]);
    let lines = render_tree(&root, ">", false);
    let texts: Vec<&str> = lines.iter().map(|l| l.text.as_str()).collect();
    assert_eq!(
        texts,
        vec![
            ">\u{251c}\u{2500}\u{2500} ((P \u{2227} Q) \u{2228} R)",
            ">\u{2502}   \u{251c}\u{2500}\u{2500} (P \u{2227} Q)",
            ">\u{2502}   \u{2502}   \u{2514}\u{2500}\u{2500} P, Q",
            ">\u{2502}   \u{2514}\u{2500}\u{2500} R",
        ]
    );
}
