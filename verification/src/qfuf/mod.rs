//! Incremental SMT-LIB driver for quantifier-free equality with uninterpreted functions.

pub mod connectives;
pub mod denote;
pub mod driver;
pub mod laws;
pub mod lexing;
pub mod lowering;
pub mod meaning;
pub mod models;
pub mod parser;
pub mod script;
pub mod sessions;
pub mod sexpr;
pub mod terms;
pub mod work;
