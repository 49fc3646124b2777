//! The semantic-tableau decision procedure and its derivation tree.

pub mod node;
pub mod printer;
pub mod semantics;
pub mod shape;
pub mod solver;

pub use node::{NodeStatus, TableauNode, Tree};
pub use printer::render_tree;
pub use solver::build_tableau;
