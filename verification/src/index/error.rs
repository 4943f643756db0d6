//! What can go wrong with an index.

use vstd::prelude::*;

verus! {

/// Why an operation on an index failed, with the name it was about.
#[derive(Debug)]
pub enum IndexError {
    ColumnNotFound(String),
    IndexAlreadyExists(String),
    IndexNotFound(String),
}

} // verus!
