//! What can go wrong with a transaction.

use vstd::prelude::*;

verus! {

/// Why an operation on a transaction failed.
#[derive(Debug)]
pub enum TransactionError {
    AlreadyInTransaction,
    NotInTransaction,
    TableNotFound(String),
    ExecutionError(String),
}

} // verus!
