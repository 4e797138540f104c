//! A propositional resolution prover: formulas are normalised into clauses
//! and a refutation search looks for the empty clause.

pub mod clauses;
mod literal_index;
pub mod propositions;
pub mod resolution;

pub use clauses::{Clause, ClausePart};
pub use propositions::{and, iff, not, or, term, Proposition};
pub use resolution::resolve;
