//! A small relational database without its shell: an LSM-tree engine per
//! table, a row codec, a catalog of table schemas, and the readers of the
//! statements.
//!
//! The library performs no file or network access and no floating-point
//! work. Every operation that has to reach storage returns what is to be
//! written as plain values, and takes what was read as arguments; the
//! caller moves the bytes to and from disk. A floating-point value is held
//! as its bit pattern; the caller reads and writes its text.

pub mod cli;
pub mod codec;
pub mod index;
pub mod metadata;
pub mod query;
pub mod storage;
pub mod text;
pub mod transaction;

pub use metadata::Column;
pub use metadata::Schema;
pub use metadata::Table as MetadataTable;
pub use query::QueryError;
pub use query::QueryResult;
pub use storage::block::Block;
pub use storage::record::Record;
pub use storage::table::Table as StorageTable;
