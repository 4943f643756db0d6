//! The schema of a table: its columns and what they hold.

pub mod column;
pub mod schema;
pub mod table;

pub use column::{Column, ColumnType};
pub use schema::Schema;
pub use table::Table;
