//! The errors of a statement.

use vstd::prelude::*;
use vstd::string::StringExecFns;

verus! {

/// Why a statement failed: the kind, and a message for the user.
#[derive(Debug)]
pub enum QueryError {
    SyntaxError(String),
    TableNotFound(String),
    ColumnNotFound(String),
    TypeMismatch(String),
    DuplicateKey(String),
    InvalidValue(String),
    InternalError(String),
}

/// What an error says.
pub enum QueryErrorView {
    SyntaxError(Seq<char>),
    TableNotFound(Seq<char>),
    ColumnNotFound(Seq<char>),
    TypeMismatch(Seq<char>),
    DuplicateKey(Seq<char>),
    InvalidValue(Seq<char>),
    InternalError(Seq<char>),
}

impl View for QueryError {
    type V = QueryErrorView;

    open spec fn view(&self) -> QueryErrorView {
        match self {
            QueryError::SyntaxError(m) => QueryErrorView::SyntaxError(m@),
            QueryError::TableNotFound(m) => QueryErrorView::TableNotFound(m@),
            QueryError::ColumnNotFound(m) => QueryErrorView::ColumnNotFound(m@),
            QueryError::TypeMismatch(m) => QueryErrorView::TypeMismatch(m@),
            QueryError::DuplicateKey(m) => QueryErrorView::DuplicateKey(m@),
            QueryError::InvalidValue(m) => QueryErrorView::InvalidValue(m@),
            QueryError::InternalError(m) => QueryErrorView::InternalError(m@),
        }
    }
}

/// The line that the user reads for an error.
pub open spec fn error_line(e: QueryErrorView) -> Seq<char> {
    match e {
        QueryErrorView::SyntaxError(m) => "Syntax error: "@ + m,
        QueryErrorView::TableNotFound(m) => "Table not found: "@ + m,
        QueryErrorView::ColumnNotFound(m) => "Column not found: "@ + m,
        QueryErrorView::TypeMismatch(m) => "Type mismatch: "@ + m,
        QueryErrorView::DuplicateKey(m) => "Duplicate key: "@ + m,
        QueryErrorView::InvalidValue(m) => "Invalid value: "@ + m,
        QueryErrorView::InternalError(m) => "Internal error: "@ + m,
    }
}

impl QueryError {
    /// The error as a line of text: the kind, then the message.
    pub fn message(&self) -> (r: String)
        ensures
            r@ == error_line(self@),
    {
        match self {
            QueryError::SyntaxError(m) => String::from_str("Syntax error: ").concat(m.as_str()),
            QueryError::TableNotFound(m) => String::from_str("Table not found: ").concat(m.as_str()),
            QueryError::ColumnNotFound(m) => String::from_str("Column not found: ").concat(m.as_str()),
            QueryError::TypeMismatch(m) => String::from_str("Type mismatch: ").concat(m.as_str()),
            QueryError::DuplicateKey(m) => String::from_str("Duplicate key: ").concat(m.as_str()),
            QueryError::InvalidValue(m) => String::from_str("Invalid value: ").concat(m.as_str()),
            QueryError::InternalError(m) => String::from_str("Internal error: ").concat(m.as_str()),
        }
    }
}

} // verus!
