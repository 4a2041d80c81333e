//! Equality with uninterpreted functions as a theory for the search over Boolean assignments.
//!
//! - a permanent registry of sorts, symbols, terms and equality atoms,
//! - search-local congruence-closure state with rollback and explanations,
//! - the theory interface of [`theory::EufTheory`].

pub mod classes;
pub mod closure;
pub mod explain;
pub mod ids;
pub mod proof_graph;
pub mod registry;
pub mod search_state;
pub mod table;
pub mod theory;
