//! The harness that runs whole traces through a separate solver process.

pub mod child;
pub mod discover;
pub mod jobs;
pub mod laws;
pub mod model;
pub mod parent;
pub mod render;
