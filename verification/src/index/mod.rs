//! Indexes on the values of a column.

pub mod error;
pub mod index;
