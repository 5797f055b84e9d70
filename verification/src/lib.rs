//! Search for numbers whose SHA-256 digest, written in lowercase hex, ends in
//! a given number of zero characters.
//!
//! The candidates `0, 1, 2, ...` are split into lanes, one per worker; each
//! worker scans its lane for the first matches, and the lists are merged into
//! the smallest matches overall. The result does not depend on the number of
//! workers.

pub mod ascending;
pub mod calculator;
pub mod digest;
pub mod lanes;
pub mod merge;
pub mod parallel;
pub mod search;
pub mod text;

pub use calculator::HashCalculator;
