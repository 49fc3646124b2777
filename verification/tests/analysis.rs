use logic_toolkit::analysis::{analyze, run_request, split_lowered, split_request, Mode, Verdict};
use logic_toolkit::formula::Formula;
use logic_toolkit::parser::SyntaxError;
use logic_toolkit::tableau::NodeStatus;
use logic_toolkit::text::{blank, letter, lower, mark_blanks, split_words, trim_marked};

fn p() -> Formula {
    Formula::var("P")
}

#[test]
fn proof_mode_negates_and_reads_closed_as_tautology() {
    let f = Formula::implies(p(), p());
    let report = analyze(f.clone(), Mode::Proof);
    assert_eq!(report.mode, Mode::Proof);
    assert_eq!(report.formula, f);
    assert_eq!(report.working, Formula::not(f.clone()));
    assert_eq!(report.root.formulas, vec![Formula::not(f)]);
    assert_eq!(report.root.status, NodeStatus::Closed);
    assert_eq!(report.verdict, Verdict::Tautology);
}

#[test]
fn proof_mode_reads_anything_else_as_no_tautology() {
    let report = analyze(p(), Mode::Proof);
    assert_eq!(report.root.status, NodeStatus::Open);
    assert_eq!(report.verdict, Verdict::NotTautology);
    let report = analyze(Formula::or(p(), Formula::var("Q")), Mode::Proof);
    assert_eq!(report.verdict, Verdict::NotTautology);
}

#[test]
fn satisfiability_mode_expands_the_formula_itself() {
    let f = Formula::and(p(), Formula::not(p()));
    let report = analyze(f.clone(), Mode::Satisfiability);
    assert_eq!(report.working, f);
    assert_eq!(report.root.formulas, vec![f]);
    assert_eq!(report.verdict, Verdict::Unsatisfiable);
    let report = analyze(Formula::or(p(), Formula::not(p())), Mode::Satisfiability);
    assert_eq!(report.root.status, NodeStatus::Intermediate);
    assert_eq!(report.verdict, Verdict::Satisfiable);
    assert_eq!(analyze(p(), Mode::Satisfiability).verdict, Verdict::Satisfiable);
}

#[test]
fn the_keyword_asks_for_a_proof() {
    assert_eq!(split_request("prove P -> P"), (Mode::Proof, "P -> P".to_string()));
    assert_eq!(split_request("prove (P -> P)"), (Mode::Proof, "(P -> P)".to_string()));
}

#[test]
fn the_keyword_counts_in_any_case() {
    assert_eq!(split_request("PROVE P"), (Mode::Proof, "P".to_string()));
    assert_eq!(split_request("PrOvE P | Q"), (Mode::Proof, "P | Q".to_string()));
}

#[test]
fn the_keyword_counts_before_text_of_any_script() {
    assert_eq!(split_request("PROVE \u{c9}t\u{e9}"), (Mode::Proof, "\u{c9}t\u{e9}".to_string()));
    assert_eq!(split_request("\u{c9} prove P"), (Mode::Satisfiability, "\u{c9} prove P".to_string()));
}

#[test]
fn a_request_with_more_than_a_formula_reports_the_error() {
    assert_eq!(run_request("P Q").unwrap().unwrap_err(), SyntaxError::TrailingToken { position: 1 });
    assert_eq!(run_request("prove P -> P )").unwrap().unwrap_err(), SyntaxError::TrailingToken { position: 3 });
    let report = run_request("v").unwrap().unwrap();
    assert_eq!(report.formula, Formula::var("v"));
    assert_eq!(report.verdict, Verdict::Satisfiable);
    let report = run_request("prove P v !P").unwrap().unwrap();
    assert_eq!(report.verdict, Verdict::Tautology);
}

#[test]
fn blanks_around_the_line_do_not_count() {
    assert_eq!(split_request("  \tprove P  "), (Mode::Proof, "P".to_string()));
    assert_eq!(split_request("\u{a0}prove  P"), (Mode::Proof, " P".to_string()));
}

#[test]
fn without_the_keyword_the_line_is_the_formula() {
    assert_eq!(split_request("P & Q"), (Mode::Satisfiability, "P & Q".to_string()));
    assert_eq!(split_request(" P "), (Mode::Satisfiability, " P ".to_string()));
    assert_eq!(split_request("prover"), (Mode::Satisfiability, "prover".to_string()));
    assert_eq!(split_request("prove"), (Mode::Satisfiability, "prove".to_string()));
    assert_eq!(split_request("prove "), (Mode::Satisfiability, "prove ".to_string()));
    assert_eq!(split_request("proveP"), (Mode::Satisfiability, "proveP".to_string()));
    assert_eq!(split_request(""), (Mode::Satisfiability, "".to_string()));
}

#[test]
fn splitting_goes_by_the_given_lowered_text() {
    assert_eq!(split_lowered("raw", "abcdefgh", "prove gh"), (Mode::Proof, "gh".to_string()));
    assert_eq!(split_lowered("raw", "abc", "prove gh"), (Mode::Proof, "".to_string()));
    assert_eq!(split_lowered("raw", "prove x", "PROVE x"), (Mode::Satisfiability, "raw".to_string()));
    assert_eq!(split_lowered("raw", "prove x", "prove"), (Mode::Satisfiability, "raw".to_string()));
}

#[test]
fn a_request_runs_from_text_to_answer() {
    assert!(run_request("").is_none());
    let report = run_request("prove P -> P").unwrap().unwrap();
    assert_eq!(report.verdict, Verdict::Tautology);
    assert_eq!(report.formula, Formula::implies(p(), p()));
    let report = run_request("P & !P").unwrap().unwrap();
    assert_eq!(report.verdict, Verdict::Unsatisfiable);
    let report = run_request("prove P -> Q").unwrap().unwrap();
    assert_eq!(report.verdict, Verdict::NotTautology);
    let report = run_request("P & (Q -> P)").unwrap().unwrap();
    assert_eq!(report.verdict, Verdict::Satisfiable);
}

#[test]
fn a_request_with_bad_syntax_reports_the_error() {
    assert_eq!(run_request("P &").unwrap().unwrap_err(), SyntaxError::ExpectedOperand { position: 2 });
    assert_eq!(run_request("prove P # Q").unwrap().unwrap_err(), SyntaxError::InvalidCharacter { position: 2 });
    assert_eq!(run_request(" ").unwrap().unwrap_err(), SyntaxError::ExpectedOperand { position: 0 });
}

#[test]
fn de_morgan_is_proved() {
    let report = run_request("prove !(P & Q) -> (!P | !Q)").unwrap().unwrap();
    assert_eq!(report.verdict, Verdict::Tautology);
    let report = run_request("prove (!P | !Q) -> !(P & Q)").unwrap().unwrap();
    assert_eq!(report.verdict, Verdict::Tautology);
}

#[test]
fn trimming_and_word_splitting() {
    assert_eq!(trim_marked(&mark_blanks("  a b \n")), "a b");
    assert_eq!(trim_marked(&mark_blanks("   ")), "");
    assert_eq!(trim_marked(&mark_blanks("")), "");
    assert_eq!(trim_marked(&mark_blanks("x")), "x");
    assert_eq!(split_words(&mark_blanks("  a  bc\td ")), vec!["a", "bc", "d"]);
    assert_eq!(split_words(&mark_blanks(" \n ")), Vec::<String>::new());
    assert_eq!(
        split_words(&vec![('a', false), ('b', true), ('c', false), (' ', false)]),
        vec!["a", "c "]
    );
    assert_eq!(trim_marked(&vec![('a', true), ('b', false), (' ', false), ('c', true)]), "b ");
}

#[test]
fn letters_and_blanks_of_any_script() {
    for c in ['a', 'z', 'A', 'Z', '0', '9', 'v', '\u{e9}', '\u{3b1}', '\u{663}'] {
        assert!(letter(c), "{:?}", c);
    }
    for c in ['_', ' ', '-', '>', '(', '&', '@', '[', '`', '{', '/', ':', '\u{ac}', '\u{a0}'] {
        assert!(!letter(c), "{:?}", c);
    }
    for c in [' ', '\t', '\n', '\u{b}', '\u{c}', '\r', '\u{85}', '\u{a0}', '\u{2003}'] {
        assert!(blank(c), "{:?}", c);
    }
    for c in ['a', '0', '_', '\u{8}', '\u{e}', '\u{1f}', '!', '\u{e9}', '\u{200b}'] {
        assert!(!blank(c), "{:?}", c);
    }
}

#[test]
fn lower_case_of_plain_and_other_text() {
    assert_eq!(lower("PrOvE P -> q_1 [Z]@"), "prove p -> q_1 [z]@");
    assert_eq!(lower(""), "");
    assert_eq!(lower("\u{c9}T\u{c9} A"), "\u{e9}t\u{e9} a");
    assert_eq!(lower("A\u{3a3}"), "a\u{3c2}");
}
