//! Structural type-mismatch diffing engine.
//!
//! Given two type representations that a solver has already found to be
//! incompatible, this library renders both into printable byte documents and
//! classifies *why* they differ: arity mismatch, missing or misspelled record
//! fields and tags, or a rigid-variable conflict.  Everything here is pure:
//! one comparison reads its two inputs and allocates fresh output.

pub mod allocation;
pub mod diff;
pub mod name;
pub mod render;
pub mod report;
pub mod rows;
pub mod status;
pub mod types;
