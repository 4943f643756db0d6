//! What the shell shows of a result.

pub mod display;
