//! What a statement gives back.

use vstd::prelude::*;

verus! {

/// The result of a statement.
#[derive(Debug)]
pub enum QueryResult {
    /// The rows that were selected, each with the values of its columns as
    /// text.
    Select(Vec<Vec<String>>),
    /// The number of rows that went in.
    Insert(usize),
    /// The number of rows that were changed.
    Update(usize),
    /// The number of rows that went out.
    Delete(usize),
    CreateTable,
    DropTable,
    Error(String),
    Join(JoinResult),
    Aggregation(AggregationResult),
}

/// The rows of a join, with the names of their columns.
#[derive(Debug)]
pub struct JoinResult {
    pub headers: Vec<String>,
    pub rows: Vec<Vec<String>>,
}

/// The rows of an aggregation, with the names of their columns and the
/// columns by which the rows were grouped.
#[derive(Debug)]
pub struct AggregationResult {
    pub headers: Vec<String>,
    pub rows: Vec<Vec<String>>,
    pub group_by_columns: Vec<String>,
}

} // verus!
