//! One analysis, from a line of input to the answer: which question the line
//! asks, the formula it holds, the derivation tree and what the tree says.

use vstd::prelude::*;
use vstd::string::StrSliceExecFns;
use crate::formula::{Formula, Prop};
use crate::parser::{glyphs_of, parse_formula, parse_glyphs, SyntaxError};
use crate::text::{chars_of, lower, lowered, mark_blanks, marked, trim_marked, trimmed};
use crate::tableau::node::{NodeStatus, TableauNode};
use crate::tableau::semantics::{
    satisfiable, theorem_closed_iff_unsatisfiable, theorem_tautology_iff_negation_closes,
};
use crate::tableau::solver::{build_tableau, tableau};

verus! {

/// The question asked of a formula.
#[derive(Debug, Clone, Copy, PartialEq, Eq, Structural)]
pub enum Mode {
    /// Can the formula be true?
    Satisfiability,
    /// Is the formula always true?
    Proof,
}

/// The answer read off the root of the derivation tree.
#[derive(Debug, Clone, Copy, PartialEq, Eq, Structural)]
pub enum Verdict {
    /// Proof mode, root closed: the formula is true under every valuation.
    Tautology,
    /// Proof mode, root not closed: some valuation makes the formula false.
    NotTautology,
    /// Satisfiability mode, root closed: no valuation makes the formula true.
    Unsatisfiable,
    /// Satisfiability mode, root not closed: some valuation makes it true.
    Satisfiable,
}

/// The formula whose tree answers the question: the formula itself, or in
/// proof mode its negation.
pub open spec fn working_formula(f: Prop, mode: Mode) -> Prop {
    match mode {
        Mode::Satisfiability => f,
        Mode::Proof => f.negated(),
    }
}

/// The verdict for a root of status `status`.
pub open spec fn verdict_of(mode: Mode, status: NodeStatus) -> Verdict {
    match mode {
        Mode::Proof => if status == NodeStatus::Closed {
            Verdict::Tautology
        } else {
            Verdict::NotTautology
        },
        Mode::Satisfiability => if status == NodeStatus::Closed {
            Verdict::Unsatisfiable
        } else {
            Verdict::Satisfiable
        },
    }
}

/// An analysis: the formula, the formula that was expanded, its derivation
/// tree and the verdict.
#[derive(Debug)]
pub struct Report {
    pub mode: Mode,
    pub formula: Formula,
    pub working: Formula,
    pub root: TableauNode,
    pub verdict: Verdict,
}

impl Report {
    /// The report is the analysis of `f` in `mode`.
    pub open spec fn is_analysis_of(&self, f: Prop, mode: Mode) -> bool {
        &&& self.mode == mode
        &&& self.formula@ == f
        &&& self.working@ == working_formula(f, mode)
        &&& self.root@ == tableau(seq![working_formula(f, mode)])
        &&& self.verdict == verdict_of(mode, self.root@.status)
    }
}

/// Analyses `formula` in `mode`. The verdict is read off the root of the
/// tree, and it is the truth: a tautology is reported exactly for the
/// formulas true under every valuation, an unsatisfiable formula exactly for
/// those true under none.
pub fn analyze(formula: Formula, mode: Mode) -> (r: Report)
    ensures
        r.is_analysis_of(formula@, mode),
        r.verdict == Verdict::Tautology <==> mode == Mode::Proof && formula@.is_tautology(),
        r.verdict == Verdict::NotTautology <==> mode == Mode::Proof && !formula@.is_tautology(),
        r.verdict == Verdict::Unsatisfiable <==> mode == Mode::Satisfiability && !satisfiable(
            seq![formula@],
        ),
        r.verdict == Verdict::Satisfiable <==> mode == Mode::Satisfiability && satisfiable(
            seq![formula@],
        ),
{
    let working = match mode {
        Mode::Satisfiability => formula.clone(),
        Mode::Proof => Formula::not(formula.clone()),
    };
    let mut set: Vec<Formula> = Vec::new();
    set.push(working.clone());
    assert(crate::tableau::node::props(set@) =~= seq![working_formula(formula@, mode)]);
    let root = build_tableau(set);
    let closed = root.status == NodeStatus::Closed;
    assert(root.status == root@.status);
    let verdict = match mode {
        Mode::Proof => if closed {
            Verdict::Tautology
        } else {
            Verdict::NotTautology
        },
        Mode::Satisfiability => if closed {
            Verdict::Unsatisfiable
        } else {
            Verdict::Satisfiable
        },
    };
    proof {
        theorem_tautology_iff_negation_closes(formula@);
        theorem_closed_iff_unsatisfiable(seq![formula@]);
    }
    Report { mode, formula, working, root, verdict }
}

/// The word that asks for a proof, with the blank that ends it.
pub open spec fn proof_keyword() -> Seq<char> {
    seq!['p', 'r', 'o', 'v', 'e', ' ']
}

/// The question that a line asks: a proof where the lowered line starts with
/// the keyword.
pub open spec fn mode_of(lowered: Seq<char>) -> Mode {
    if lowered.len() >= 6 && lowered.take(6) == proof_keyword() {
        Mode::Proof
    } else {
        Mode::Satisfiability
    }
}

/// The text of the formula in a line: in proof mode what follows the first
/// six characters of the trimmed line, otherwise the line as it is.
pub open spec fn formula_text(raw: Seq<char>, trimmed: Seq<char>, mode: Mode) -> Seq<char> {
    match mode {
        Mode::Proof => if trimmed.len() >= 6 {
            trimmed.skip(6)
        } else {
            Seq::empty()
        },
        Mode::Satisfiability => raw,
    }
}

/// Tells the question and the formula text of a line apart, given the line,
/// the line trimmed and the trimmed line in lower case.
pub fn split_lowered(raw: &str, trimmed: &str, lowered: &str) -> (r: (Mode, String))
    ensures
        r.0 == mode_of(lowered@),
        r.1@ == formula_text(raw@, trimmed@, r.0),
{
    let low = chars_of(lowered);
    let is_proof = low.len() >= 6 && low[0] == 'p' && low[1] == 'r' && low[2] == 'o' && low[3]
        == 'v' && low[4] == 'e' && low[5] == ' ';
    proof {
        if low.len() >= 6 {
            let head = lowered@.take(6);
            if is_proof {
                assert(head =~= proof_keyword());
            } else {
                assert(head[0] == low[0] && head[1] == low[1] && head[2] == low[2] && head[3]
                    == low[3] && head[4] == low[4] && head[5] == low[5]);
                assert(proof_keyword()[0] == 'p' && proof_keyword()[1] == 'r' && proof_keyword()[2]
                    == 'o' && proof_keyword()[3] == 'v' && proof_keyword()[4] == 'e'
                    && proof_keyword()[5] == ' ');
            }
        }
    }
    if is_proof {
        let len = trimmed.unicode_len();
        if len >= 6 {
            let rest = trimmed.substring_char(6, len);
            assert(rest@ =~= trimmed@.skip(6));
            (Mode::Proof, String::from_str(rest))
        } else {
            (Mode::Proof, String::new())
        }
    } else {
        (Mode::Satisfiability, String::from_str(raw))
    }
}

/// Tells the question and the formula text of a line apart: a line that
/// starts with the word `prove` and a blank, in any case and after any
/// leading blanks, asks for a proof of what follows.
pub fn split_request(input: &str) -> (r: (Mode, String))
    ensures
        r.0 == mode_of(lowered(trimmed(marked(input@)))),
        r.1@ == formula_text(input@, trimmed(marked(input@)), r.0),
{
    let chars = mark_blanks(input);
    let trimmed = trim_marked(&chars);
    let lowered = lower(trimmed.as_str());
    split_lowered(input, trimmed.as_str(), lowered.as_str())
}

/// What a whole request comes to, over the models: nothing for an empty
/// line, else the syntax error of the formula text or the formula with the
/// mode.
pub open spec fn request_outcome(raw: Seq<char>) -> Option<Result<(Prop, Mode), SyntaxError>> {
    if raw.len() == 0 {
        None
    } else {
        let trimmed = trimmed(marked(raw));
        let mode = mode_of(lowered(trimmed));
        Some(
            match parse_glyphs(glyphs_of(formula_text(raw, trimmed, mode))) {
                Ok(f) => Ok((f, mode)),
                Err(e) => Err(e),
            },
        )
    }
}

/// Runs one request: `None` for an empty line, the syntax error where the
/// formula text is not a formula, else the analysis of the formula in the
/// mode that the line asks for.
pub fn run_request(input: &str) -> (r: Option<Result<Report, SyntaxError>>)
    ensures
        match r {
            None => request_outcome(input@) is None,
            Some(Err(e)) => request_outcome(input@) == Some(
                Err::<(Prop, Mode), SyntaxError>(e),
            ),
            Some(Ok(report)) => request_outcome(input@) matches Some(Ok((f, mode)))
                && report.is_analysis_of(f, mode),
        },
{
    if input.unicode_len() == 0 {
        return None;
    }
    let (mode, text) = split_request(input);
    match parse_formula(text.as_str()) {
        Ok(formula) => Some(Ok(analyze(formula, mode))),
        Err(e) => Some(Err(e)),
    }
}

} // verus!
