//! The `DELETE` statement: which rows go.

use vstd::prelude::*;
use vstd::string::StringExecFns;
use super::column::token_views;
use super::where_clause::{WhereClause, WhereParser};
use crate::query::error::{QueryError, QueryErrorView};
use crate::query::words::{is_word, uppercase};

verus! {

/// Reads `DELETE` statements.
pub struct DeleteParser {
    where_parser: WhereParser,
}

impl DeleteParser {
    pub fn new() -> Self {
        DeleteParser { where_parser: WhereParser::new() }
    }

    /// The condition of a `DELETE FROM <table> [WHERE <condition>]`, if it
    /// has one.
    pub fn parse_filter(&self, tokens: &[&str]) -> (r: Result<Option<WhereClause>, QueryError>)
        ensures
            ({
                let tv = token_views(tokens@);
                let filtered = tv.len() > 3 && uppercase(tv[3]) == "WHERE"@;
                let from = tv.len() >= 2 && uppercase(tv[1]) == "FROM"@;
                match r {
                    Ok(found) => delete_filter(tv, from, filtered) == Ok::<
                        Option<(Seq<char>, Seq<char>, Seq<char>)>,
                        Seq<char>,
                    >(clause_view(found)),
                    Err(e) => match delete_filter(tv, from, filtered) {
                        Ok(_) => false,
                        Err(message) => e@ == QueryErrorView::SyntaxError(message),
                    },
                }
            }),
    {
        let ghost tv = token_views(tokens@);
        proof {
            if tokens@.len() >= 2 {
                assert(tv[1] == tokens@[1]@);
            }
            if tokens@.len() > 3 {
                assert(tv[3] == tokens@[3]@);
            }
        }
        let from_word = tokens.len() >= 2 && is_word(tokens[1], "FROM");
        let where_word = tokens.len() > 3 && is_word(tokens[3], "WHERE");
        self.filter_where(tokens, from_word, where_word)
    }

    /// The condition of a `DELETE`, given whether its second token is
    /// `FROM` and whether its fourth is `WHERE`.
    pub fn filter_where(&self, tokens: &[&str], from_word: bool, where_word: bool) -> (r: Result<
        Option<WhereClause>,
        QueryError,
    >)
        ensures
            match r {
                Ok(found) => delete_filter(token_views(tokens@), from_word, where_word) == Ok::<
                    Option<(Seq<char>, Seq<char>, Seq<char>)>,
                    Seq<char>,
                >(clause_view(found)),
                Err(e) => match delete_filter(token_views(tokens@), from_word, where_word) {
                    Ok(_) => false,
                    Err(message) => e@ == QueryErrorView::SyntaxError(message),
                },
            },
    {
        let ghost tv = token_views(tokens@);
        if !from_word {
            return Err(QueryError::SyntaxError(String::from_str("Expected FROM clause")));
        }
        if where_word {
            if tokens.len() < 4 {
                return Err(QueryError::SyntaxError(String::from_str("Invalid WHERE clause")));
            }
            let rest = vstd::slice::slice_subrange(tokens, 4, tokens.len());
            proof {
                if rest@.len() >= 3 {
                    assert(tv[4] == rest@[0]@);
                    assert(tv[5] == rest@[1]@);
                    assert(tv[6] == rest@[2]@);
                }
            }
            match self.where_parser.parse_where_clause(rest) {
                Ok(clause) => Ok(Some(clause)),
                Err(e) => Err(e),
            }
        } else {
            Ok(None)
        }
    }
}

/// What a condition says, where there is one: its column, its operator and
/// its value.
pub open spec fn clause_view(clause: Option<WhereClause>) -> Option<(Seq<char>, Seq<char>, Seq<char>)> {
    match clause {
        Some(c) => Some((c.column@, c.operator@, c.value@)),
        None => None,
    }
}

/// The condition of a `DELETE` where `from_word` says whether the second
/// token is `FROM` and `where_word` whether the fourth is `WHERE`, or what
/// the user is told. The condition is spelled by the three tokens behind
/// `WHERE`.
pub open spec fn delete_filter(tokens: Seq<Seq<char>>, from_word: bool, where_word: bool) -> Result<
    Option<(Seq<char>, Seq<char>, Seq<char>)>,
    Seq<char>,
> {
    if !from_word {
        Err("Expected FROM clause"@)
    } else if !where_word {
        Ok(None)
    } else if tokens.len() < 7 {
        Err("Invalid WHERE clause"@)
    } else {
        Ok(Some((tokens[4], tokens[5], tokens[6])))
    }
}

} // verus!
