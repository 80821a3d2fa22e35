//! A library for manipulating and solving logical propositions.
//!
//! A [`Proposition`] is a recursive formula tree over boolean variables.
//! The pipeline rewrites it into negation normal form ([`PropositionNNF`]),
//! then into a list of conjunctive-normal-form clause trees
//! ([`proposition::PropositionCNF`]), flattens and simplifies the clauses
//! ([`clause`]), and finally enumerates every satisfying assignment with a
//! backtracking search ([`solver::solve`]).

pub mod clause;
pub mod proposition;
pub mod solver;

pub use proposition::Proposition;
pub use proposition::PropositionNNF;
