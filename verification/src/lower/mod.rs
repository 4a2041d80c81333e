//! Incremental SMT-LIB command lowering for the equality-logic solver.
//!
//! This module owns the command-level state machine that sits above the Boolean plus equality
//! backend: asserted formulas, zero-arity definitions, push/pop frames, and the persistent semantic
//! representation used to avoid rebuilding the formulas on every `check-sat`.
//!
//! `set-info :status ...` is treated as benchmark metadata only: it never influences a result.

pub mod backend;
pub mod budget;
pub mod command;
pub mod context;
pub mod cost;
pub mod denote;
pub mod encode;
pub mod frames;
pub mod ground;
pub mod laws;
pub mod lowering;
pub mod meaning;
pub mod nodes;
pub mod search;
pub mod sessions;
pub mod solver;
pub mod symbols;
pub mod work;
