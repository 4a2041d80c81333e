//! The benchmark harness: discovery metadata, classification, comparison and summaries.

pub mod benchmark;
pub mod case_io;
pub mod cases;
pub mod child;
pub mod cli;
pub mod compare;
pub mod discover;
pub mod lines;
pub mod matching;
pub mod measures;
pub mod model;
pub mod outcomes;
pub mod parent;
pub mod reading;
pub mod render;
pub mod traces;
