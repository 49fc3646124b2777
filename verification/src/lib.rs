//! Propositional logic toolkit: formulas, a semantic-tableau decision
//! procedure with its derivation tree, a formula parser and a term minimizer.

pub mod analysis;
pub mod formula;
pub mod implicants;
pub mod input;
pub mod invariance;
pub mod minimizer;
pub mod parser;
pub mod spelling;
pub mod tableau;
pub mod text;
