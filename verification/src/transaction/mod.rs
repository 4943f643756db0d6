//! Transactions: so far only the bookkeeping of whether one is open.

pub mod error;
pub mod transaction;

pub use error::TransactionError;
pub use transaction::Transaction;
