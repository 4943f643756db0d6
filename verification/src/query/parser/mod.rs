//! The readers of the statements, clause by clause.

pub mod aggregation;
pub mod column;
pub mod create;
pub mod delete;
pub mod grouping;
pub mod insert;
pub mod join;
pub mod select;
pub mod update;
pub mod where_clause;

pub use aggregation::{AggregateFunction, AggregationClause, AggregationParser};
pub use column::ColumnParser;
pub use create::CreateParser;
pub use delete::DeleteParser;
pub use insert::InsertParser;
pub use join::{JoinClause, JoinParser, JoinType};
pub use select::SelectParser;
pub use update::UpdateParser;
pub use where_clause::WhereClause;
