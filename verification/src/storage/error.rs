//! What can go wrong in the storage engine.

use vstd::prelude::*;

verus! {

/// Why an operation on a block or a sorted table gave no result.
#[derive(Debug, Clone, Copy, PartialEq, Eq, Structural)]
pub enum TableError {
    /// The table's file has not been read into memory yet.
    NotLoaded,
    /// The bytes are not the image of a run of records in key order.
    Corrupt,
    /// The records could not be put into bytes. The encoder has no failure
    /// to report for records, so no operation returns this.
    Encoding,
}

/// The error in words.
pub open spec fn table_error_text(e: TableError) -> Seq<char> {
    match e {
        TableError::NotLoaded => "table file not loaded"@,
        TableError::Corrupt => "table file is corrupt"@,
        TableError::Encoding => "records could not be encoded"@,
    }
}

impl TableError {
    /// The error in words.
    pub fn message(&self) -> (r: &'static str)
        ensures
            r@ == table_error_text(*self),
    {
        match self {
            TableError::NotLoaded => "table file not loaded",
            TableError::Corrupt => "table file is corrupt",
            TableError::Encoding => "records could not be encoded",
        }
    }
}

} // verus!
