//! The condition of a `WHERE`.

use vstd::prelude::*;
use vstd::string::StringExecFns;
use vstd::utf8::encode_utf8;
use super::insert::{column_place, lemma_column_place};
use super::join::short_row_message;
use crate::metadata::table::Table;
use crate::query::error::{QueryError, QueryErrorView};
use crate::query::words::{trim, trimmed};
use crate::text::same_text;

verus! {

/// A condition on one column: the column, the operator and the value to
/// compare with, each as it was written.
#[derive(Debug)]
pub struct WhereClause {
    pub column: String,
    pub operator: String,
    pub value: String,
}

/// Reads conditions.
pub struct WhereParser;

impl WhereParser {
    pub fn new() -> Self {
        WhereParser
    }

    /// The condition that the first three tokens spell; fewer are refused.
    pub fn parse_where_clause(&self, tokens: &[&str]) -> (r: Result<WhereClause, QueryError>)
        ensures
            match r {
                Ok(clause) => {
                    &&& tokens@.len() >= 3
                    &&& clause.column@ == tokens@[0]@
                    &&& clause.operator@ == tokens@[1]@
                    &&& clause.value@ == tokens@[2]@
                },
                Err(e) => tokens@.len() < 3 && e@ == QueryErrorView::SyntaxError(
                    "Invalid WHERE clause"@,
                ),
            },
    {
        if tokens.len() < 3 {
            return Err(QueryError::SyntaxError(String::from_str("Invalid WHERE clause")));
        }
        Ok(
            WhereClause {
                column: String::from_str(tokens[0]),
                operator: String::from_str(tokens[1]),
                value: String::from_str(tokens[2]),
            },
        )
    }
}

/// How two numbers compare. `Unordered` is for a number that is no number.
#[derive(Debug, Clone, Copy, PartialEq, Eq, Structural)]
pub enum Comparison {
    Less,
    Equal,
    Greater,
    Unordered,
}

/// Whether the bytes `a` come before the bytes `b` in the order of the
/// dictionary.
pub open spec fn bytes_before(a: Seq<u8>, b: Seq<u8>) -> bool
    decreases a.len(),
{
    if b.len() == 0 {
        false
    } else if a.len() == 0 {
        true
    } else if a[0] != b[0] {
        a[0] < b[0]
    } else {
        bytes_before(a.drop_first(), b.drop_first())
    }
}

/// Whether the text `a` comes before the text `b`: by the order of their
/// bytes.
pub open spec fn text_before(a: Seq<char>, b: Seq<char>) -> bool {
    bytes_before(encode_utf8(a), encode_utf8(b))
}

/// The single and the double quote.
pub open spec fn quotes() -> Seq<char> {
    seq!['\'', '"']
}

/// Whether a condition holds of the value `value`, where `wanted` is the
/// value to compare with and `numeric` says how the two compare as numbers,
/// if both are numbers. Nothing where the operator is none of `=`, `!=`,
/// `>`, `<`, `>=`, `<=`.
pub open spec fn condition_holds(
    operator: Seq<char>,
    value: Seq<char>,
    wanted: Seq<char>,
    numeric: Option<Comparison>,
) -> Option<bool> {
    if operator == "="@ {
        Some(value == wanted)
    } else if operator == "!="@ {
        Some(value != wanted)
    } else if operator == ">"@ {
        Some(
            match numeric {
                Some(c) => c == Comparison::Greater,
                None => text_before(wanted, value),
            },
        )
    } else if operator == "<"@ {
        Some(
            match numeric {
                Some(c) => c == Comparison::Less,
                None => text_before(value, wanted),
            },
        )
    } else if operator == ">="@ {
        Some(
            match numeric {
                Some(c) => c == Comparison::Greater || c == Comparison::Equal,
                None => !text_before(value, wanted),
            },
        )
    } else if operator == "<="@ {
        Some(
            match numeric {
                Some(c) => c == Comparison::Less || c == Comparison::Equal,
                None => !text_before(wanted, value),
            },
        )
    } else {
        None
    }
}

/// Whether `a` comes before `b` in the order of the dictionary.
fn comes_before(a: &[u8], b: &[u8]) -> (r: bool)
    ensures
        r == bytes_before(a@, b@),
{
    let mut i: usize = 0;
    proof {
        assert(a@.subrange(0, a@.len() as int) =~= a@);
        assert(b@.subrange(0, b@.len() as int) =~= b@);
    }
    while i < a.len() && i < b.len()
        invariant
            i <= a@.len(),
            i <= b@.len(),
            bytes_before(a@, b@) == bytes_before(
                a@.subrange(i as int, a@.len() as int),
                b@.subrange(i as int, b@.len() as int),
            ),
        decreases a@.len() - i,
    {
        let ghost x = a@.subrange(i as int, a@.len() as int);
        let ghost y = b@.subrange(i as int, b@.len() as int);
        proof {
            assert(x[0] == a@[i as int]);
            assert(y[0] == b@[i as int]);
            assert(x.drop_first() =~= a@.subrange(i + 1, a@.len() as int));
            assert(y.drop_first() =~= b@.subrange(i + 1, b@.len() as int));
        }
        if a[i] != b[i] {
            return a[i] < b[i];
        }
        i += 1;
    }
    i < b.len()
}

/// Whether the text `a` comes before the text `b`.
pub fn goes_before(a: &str, b: &str) -> (r: bool)
    ensures
        r == text_before(a@, b@),
{
    comes_before(a.as_bytes(), b.as_bytes())
}

impl WhereParser {
    /// The two values that a condition compares in a row: the value of the
    /// row in the column of the condition, and the value of the condition
    /// without the quotes around it. A column that the table does not have
    /// is refused, and so is a row without a value for the column.
    pub fn where_operands(&self, row_data: &[String], table: &Table, clause: &WhereClause) -> (r:
        Result<(String, String), QueryError>)
        ensures
            ({
                let place = column_place(table.columns@, clause.column@);
                match r {
                    Ok(found) => {
                        &&& place < table.columns@.len()
                        &&& place < row_data@.len()
                        &&& found.0@ == row_data@[place]@
                        &&& found.1@ == trim(clause.value@, quotes())
                    },
                    Err(e) => if place >= table.columns@.len() {
                        e@ == QueryErrorView::ColumnNotFound(clause.column@)
                    } else {
                        place >= row_data@.len() && e@ == QueryErrorView::InternalError(
                            short_row_message(),
                        )
                    },
                }
            }),
    {
        let place = match table.get_column_index(clause.column.as_str()) {
            Some(i) => {
                proof {
                    lemma_column_place(table.columns@, clause.column@, 0, i as int);
                }
                i
            },
            None => {
                proof {
                    lemma_column_place(
                        table.columns@,
                        clause.column@,
                        0,
                        table.columns@.len() as int,
                    );
                }
                return Err(QueryError::ColumnNotFound(clause.column.clone()));
            },
        };
        if place >= row_data.len() {
            return Err(QueryError::InternalError(String::from_str("Row is shorter than its headers")));
        }
        let mut cut: Vec<char> = Vec::new();
        cut.push('\'');
        cut.push('"');
        assert(cut@ =~= quotes());
        Ok((row_data[place].clone(), trimmed(clause.value.as_str(), &cut)))
    }

    /// Whether a row meets a condition. `numeric` says how the two values of
    /// `where_operands` compare as numbers, if both are numbers; where they
    /// are not, the texts are compared.
    pub fn evaluate_where_clause(
        &self,
        row_data: &[String],
        table: &Table,
        where_clause: &WhereClause,
        numeric: Option<Comparison>,
    ) -> (r: Result<bool, QueryError>)
        ensures
            ({
                let place = column_place(table.columns@, where_clause.column@);
                let wanted = trim(where_clause.value@, quotes());
                match r {
                    Ok(holds) => place < table.columns@.len() && place < row_data@.len()
                        && condition_holds(
                        where_clause.operator@,
                        row_data@[place]@,
                        wanted,
                        numeric,
                    ) == Some(holds),
                    Err(e) => if place >= table.columns@.len() {
                        e@ == QueryErrorView::ColumnNotFound(where_clause.column@)
                    } else if place >= row_data@.len() {
                        e@ == QueryErrorView::InternalError(short_row_message())
                    } else {
                        condition_holds(where_clause.operator@, row_data@[place]@, wanted, numeric)
                            is None && e@ == QueryErrorView::SyntaxError(
                            "Invalid operator: "@ + where_clause.operator@,
                        )
                    },
                }
            }),
    {
        let (value, wanted) = match self.where_operands(row_data, table, where_clause) {
            Ok(found) => found,
            Err(e) => {
                return Err(e);
            },
        };
        let operator = where_clause.operator.as_str();
        let v = value.as_str();
        let w = wanted.as_str();
        if same_text(operator, "=") {
            Ok(same_text(v, w))
        } else if same_text(operator, "!=") {
            Ok(!same_text(v, w))
        } else if same_text(operator, ">") {
            Ok(
                match numeric {
                    Some(c) => c == Comparison::Greater,
                    None => comes_before(w.as_bytes(), v.as_bytes()),
                },
            )
        } else if same_text(operator, "<") {
            Ok(
                match numeric {
                    Some(c) => c == Comparison::Less,
                    None => comes_before(v.as_bytes(), w.as_bytes()),
                },
            )
        } else if same_text(operator, ">=") {
            Ok(
                match numeric {
                    Some(c) => c == Comparison::Greater || c == Comparison::Equal,
                    None => !comes_before(v.as_bytes(), w.as_bytes()),
                },
            )
        } else if same_text(operator, "<=") {
            Ok(
                match numeric {
                    Some(c) => c == Comparison::Less || c == Comparison::Equal,
                    None => !comes_before(w.as_bytes(), v.as_bytes()),
                },
            )
        } else {
            Err(QueryError::SyntaxError(String::from_str("Invalid operator: ").concat(operator)))
        }
    }
}

} // verus!
