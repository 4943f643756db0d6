//! Statements: their readers, their results and their errors, and the
//! catalog of the tables that they are about.

pub mod catalog;
pub mod error;
pub mod parser;
pub mod result;
pub mod statement;
pub mod words;

pub use error::QueryError;
pub use result::QueryResult;
