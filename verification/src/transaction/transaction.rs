//! A transaction that is open or not. It does not reach the engines yet.

use vstd::prelude::*;
use super::error::TransactionError;
use crate::metadata::table::Table;

verus! {

/// A transaction: whether it is open, and the tables that it has touched.
pub struct Transaction {
    tables: Vec<(String, Table)>,
    is_active: bool,
}

impl Transaction {
    /// Whether the transaction is open.
    pub closed spec fn active(&self) -> bool {
        self.is_active
    }

    /// The number of tables that the transaction has touched.
    pub closed spec fn touched(&self) -> nat {
        self.tables@.len()
    }

    /// A transaction that is not open.
    pub fn new() -> (r: Self)
        ensures
            !r.active(),
            r.touched() == 0,
    {
        Transaction { tables: Vec::new(), is_active: false }
    }

    /// Opens the transaction, unless it is open.
    pub fn begin(&mut self) -> (r: Result<(), TransactionError>)
        ensures
            final(self).touched() == old(self).touched(),
            match r {
                Ok(_) => !old(self).active() && final(self).active(),
                Err(e) => old(self).active() && final(self).active() && e is AlreadyInTransaction,
            },
    {
        if self.is_active {
            return Err(TransactionError::AlreadyInTransaction);
        }
        self.is_active = true;
        Ok(())
    }

    /// Closes the transaction, if it is open, and forgets its tables.
    pub fn commit(&mut self) -> (r: Result<(), TransactionError>)
        ensures
            !final(self).active(),
            match r {
                Ok(_) => old(self).active() && final(self).touched() == 0,
                Err(e) => !old(self).active() && final(self).touched() == old(self).touched()
                    && e is NotInTransaction,
            },
    {
        if !self.is_active {
            return Err(TransactionError::NotInTransaction);
        }
        self.is_active = false;
        self.tables.clear();
        Ok(())
    }

    /// Closes the transaction, if it is open, and forgets its tables.
    pub fn rollback(&mut self) -> (r: Result<(), TransactionError>)
        ensures
            !final(self).active(),
            match r {
                Ok(_) => old(self).active() && final(self).touched() == 0,
                Err(e) => !old(self).active() && final(self).touched() == old(self).touched()
                    && e is NotInTransaction,
            },
    {
        if !self.is_active {
            return Err(TransactionError::NotInTransaction);
        }
        self.is_active = false;
        self.tables.clear();
        Ok(())
    }
}

} // verus!
