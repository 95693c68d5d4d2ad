//! Text utilities: a line-oriented keyword search core with deterministic
//! reporting, plus a few small helpers for counting and formatting.

pub mod config;
pub mod downloads;
pub mod engine;
pub mod fizzbuzz;
pub mod laws;
pub mod order;
pub mod pattern;
pub mod record;
pub mod report;
pub mod search;
pub mod sort;
pub mod stats;
pub mod text;
pub mod wordcount;
