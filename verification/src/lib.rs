//! An offline key-derivation brute-force library: given a target derived key,
//! a salt and an iteration count, it scans candidate word lists and reports
//! the first candidate whose derived key matches the target.

pub mod counters;
pub mod engine;
pub mod hex;
pub mod report;
pub mod source;
