//! Feature-correspondence graphs over per-frame descriptor extractions.

pub mod checkpoints;
pub mod codec;
pub mod correspondence;
pub mod detection;
pub mod distance;
pub mod graph;
pub mod guarantees;
pub mod matrix;
pub mod search;
