//! A small incremental solver for quantifier-free equality with uninterpreted functions,
//! together with the containers, command front ends and benchmark-harness rules around it.

pub mod arena;
pub mod batch;
pub mod bitsum;
pub mod costs;
pub mod effort;
pub mod euf;
pub mod euf_core;
pub mod harness;
pub mod lower;
pub mod observability;
pub mod order;
pub mod qfuf;
pub mod sat;
pub mod sat_harness;
pub mod semantics;
pub mod strings;
pub mod sums;
pub mod tallies;
pub mod telemetry;
pub mod text;
pub mod totals;
pub mod wording;
