//! The `SELECT` statement: what kind it is, which columns it shows and
//! which rows it keeps.

use vstd::prelude::*;
use vstd::string::StringExecFns;
use super::aggregation::{function_list_of, AggregationParser};
use super::column::{
    column_list_of, find_word, listed_columns, text_views, token_views, word_at, ColumnParser,
};
use super::insert::{column_place, lemma_column_place};
use super::join::short_row_message;
use super::where_clause::{WhereClause, WhereParser};
use crate::metadata::column::Column;
use crate::metadata::table::Table;
use crate::query::error::{QueryError, QueryErrorView};
use crate::text::same_text;

verus! {

/// The kind of a `SELECT` over one table.
#[derive(Debug, Clone, Copy, PartialEq, Eq, Structural)]
pub enum SelectKind {
    /// It shows rows.
    Rows,
    /// It shows aggregates: it calls a function or groups its rows.
    Aggregates,
}

/// The tokens between `SELECT` and `FROM`.
pub open spec fn select_list(tokens: Seq<Seq<char>>) -> Seq<Seq<char>> {
    let from = word_at(tokens, "FROM"@, 0);
    if from < 1 || tokens.len() < 1 {
        Seq::empty()
    } else {
        tokens.subrange(1, from)
    }
}

/// The kind of a `SELECT` that calls `calls` functions and groups its rows
/// or not.
pub open spec fn kind_where(calls: nat, grouped: bool) -> SelectKind {
    if calls > 0 || grouped {
        SelectKind::Aggregates
    } else {
        SelectKind::Rows
    }
}

/// The kind of a `SELECT` over one table, or what the user is told. A join
/// is refused: it goes over two tables.
pub open spec fn select_kind_of(tokens: Seq<Seq<char>>) -> Result<SelectKind, QueryErrorView> {
    if word_at(tokens, "JOIN"@, 0) < tokens.len() {
        Err(QueryErrorView::SyntaxError("JOIN queries should use the QueryEngine directly"@))
    } else {
        match function_list_of(select_list(tokens)) {
            Err(e) => Err(e),
            Ok(found) => Ok(kind_where(found.len(), word_at(tokens, "GROUP"@, 0) < tokens.len())),
        }
    }
}

/// Whether `name` is one of `names`.
pub open spec fn is_listed(names: Seq<Seq<char>>, name: Seq<char>) -> bool {
    exists|i: int| 0 <= i < names.len() && #[trigger] names[i] == name
}

/// The places of the columns that a `SELECT` shows: for each column of the
/// table, in the order of the table, whose name is listed, the place of
/// the first column of that name. With `*` for a list, every column.
pub open spec fn shown(table: Seq<Column>, names: Option<Seq<Seq<char>>>, upto: int) -> Seq<int>
    decreases upto,
{
    if upto <= 0 || upto > table.len() {
        Seq::empty()
    } else {
        let rest = shown(table, names, upto - 1);
        let name = table[upto - 1].name@;
        match names {
            None => rest.push(column_place(table, name)),
            Some(listed) => if is_listed(listed, name) {
                rest.push(column_place(table, name))
            } else {
                rest
            },
        }
    }
}

/// The values of a row at the places `places`, in their order.
pub open spec fn shown_values(row: Seq<Seq<char>>, places: Seq<int>) -> Seq<Seq<char>> {
    Seq::new(places.len(), |i: int| row[places[i]])
}

/// The place of `WHERE` among the tokens, and the tokens behind it.
pub open spec fn filter_tokens(tokens: Seq<Seq<char>>) -> Seq<Seq<char>> {
    tokens.subrange(word_at(tokens, "WHERE"@, 0) + 1, tokens.len() as int)
}

/// Reads `SELECT` statements.
pub struct SelectParser {
    where_parser: WhereParser,
    pub column_parser: ColumnParser,
    aggregation_parser: AggregationParser,
}

/// Whether `name` is one of `names`.
fn listed(names: &Vec<String>, name: &str) -> (r: bool)
    ensures
        r == is_listed(text_views(names@), name@),
{
    let mut i: usize = 0;
    while i < names.len()
        invariant
            i <= names@.len(),
            forall|k: int| 0 <= k < i ==> #[trigger] text_views(names@)[k] != name@,
        decreases names@.len() - i,
    {
        proof {
            assert(text_views(names@)[i as int] == names@[i as int]@);
        }
        if same_text(names[i].as_str(), name) {
            return true;
        }
        i += 1;
    }
    false
}

impl SelectParser {
    pub fn new() -> Self {
        SelectParser {
            where_parser: WhereParser::new(),
            column_parser: ColumnParser::new(),
            aggregation_parser: AggregationParser::new(),
        }
    }

    /// The kind of a `SELECT` over one table. A join is refused here: it
    /// goes over two tables.
    pub fn classify(&self, tokens: &[&str]) -> (r: Result<SelectKind, QueryError>)
        ensures
            match r {
                Ok(kind) => select_kind_of(token_views(tokens@)) == Ok::<SelectKind, QueryErrorView>(
                    kind,
                ),
                Err(e) => select_kind_of(token_views(tokens@)) == Err::<SelectKind, QueryErrorView>(
                    e@,
                ),
            },
    {
        let ghost tv = token_views(tokens@);
        if find_word(tokens, "JOIN", 0) < tokens.len() {
            return Err(
                QueryError::SyntaxError(
                    String::from_str("JOIN queries should use the QueryEngine directly"),
                ),
            );
        }
        let from = find_word(tokens, "FROM", 0);
        let select_tokens = if from < 1 {
            vstd::slice::slice_subrange(tokens, 0, 0)
        } else {
            vstd::slice::slice_subrange(tokens, 1, from)
        };
        proof {
            assert(token_views(select_tokens@) =~= select_list(tv));
        }
        let functions = match self.aggregation_parser.parse_aggregation_functions(select_tokens) {
            Ok(f) => f,
            Err(e) => {
                return Err(e);
            },
        };
        let grouped = find_word(tokens, "GROUP", 0) < tokens.len();
        Ok(self.kind_where(functions.len(), grouped))
    }

    /// The kind of a `SELECT` that calls `calls` functions and has a
    /// `GROUP` among its tokens or not: it shows aggregates where it calls
    /// a function or groups its rows.
    pub fn kind_where(&self, calls: usize, grouped: bool) -> (r: SelectKind)
        ensures
            r == kind_where(calls as nat, grouped),
    {
        if calls > 0 || grouped {
            SelectKind::Aggregates
        } else {
            SelectKind::Rows
        }
    }

    /// The places of the columns that a `SELECT` of rows shows.
    pub fn shown_columns(&self, tokens: &[&str], table: &Table) -> (r: Result<Vec<usize>, QueryError>)
        ensures
            ({
                let tv = token_views(tokens@);
                let rest = if tv.len() >= 1 {
                    tv.subrange(1, tv.len() as int)
                } else {
                    tv
                };
                let all = tv.len() >= 2 && tv[1] == "*"@;
                let listed = column_list_of(rest);
                let names = if all {
                    None
                } else {
                    Some(listed_columns(rest))
                };
                match r {
                    Ok(places) => (all || listed is Ok) && places@.map_values(|p: usize| p as int)
                        == shown(table.columns@, names, table.columns@.len() as int) && forall|i: int|
                        0 <= i < places@.len() ==> (#[trigger] places@[i]) < table.columns@.len(),
                    Err(e) => !all && match listed {
                        Ok(_) => false,
                        Err(message) => e@ == QueryErrorView::SyntaxError(message),
                    },
                }
            }),
    {
        let ghost tv = token_views(tokens@);
        proof {
            if tokens@.len() >= 2 {
                assert(tv[1] == tokens@[1]@);
            }
        }
        let all = tokens.len() >= 2 && same_text(tokens[1], "*");
        let names: Vec<String> = if all {
            Vec::new()
        } else {
            let rest = if tokens.len() >= 1 {
                vstd::slice::slice_subrange(tokens, 1, tokens.len())
            } else {
                tokens
            };
            proof {
                if tokens@.len() >= 1 {
                    assert(token_views(rest@) =~= tv.subrange(1, tv.len() as int));
                }
            }
            match self.column_parser.parse_column_list(rest) {
                Ok(names) => names,
                Err(e) => {
                    return Err(e);
                },
            }
        };
        Ok(self.shown_places(all, &names, table))
    }

    /// The places of the columns that are shown: every column where `all`
    /// holds, else the columns whose names are among `names`, in the order
    /// of the table; for each the place of the first column of its name.
    pub fn shown_places(&self, all: bool, names: &Vec<String>, table: &Table) -> (places: Vec<usize>)
        ensures
            places@.map_values(|p: usize| p as int) == shown(
                table.columns@,
                if all {
                    None
                } else {
                    Some(text_views(names@))
                },
                table.columns@.len() as int,
            ),
            forall|i: int| 0 <= i < places@.len() ==> (#[trigger] places@[i]) < table.columns@.len(),
    {
        let ghost wanted = if all {
            None
        } else {
            Some(text_views(names@))
        };
        let mut places: Vec<usize> = Vec::new();
        let mut i: usize = 0;
        proof {
            assert(places@.map_values(|p: usize| p as int) =~= shown(table.columns@, wanted, 0));
        }
        while i < table.columns.len()
            invariant
                i <= table.columns@.len(),
                wanted == if all {
                    None
                } else {
                    Some(text_views(names@))
                },
                places@.map_values(|p: usize| p as int) == shown(table.columns@, wanted, i as int),
                forall|k: int| 0 <= k < places@.len() ==> (#[trigger] places@[k]) < table.columns@.len(),
            decreases table.columns@.len() - i,
        {
            let name = table.columns[i].name.as_str();
            if all || listed(names, name) {
                let place = match table.get_column_index(name) {
                    Some(p) => {
                        proof {
                            lemma_column_place(table.columns@, name@, 0, p as int);
                        }
                        p
                    },
                    None => i,
                };
                let ghost before = places@.map_values(|p: usize| p as int);
                places.push(place);
                proof {
                    assert(places@.map_values(|p: usize| p as int) =~= before.push(place as int));
                }
            }
            i += 1;
        }
        places
    }

    /// The condition of a statement: what stands behind `WHERE`, if the
    /// statement has one.
    pub fn parse_filter(&self, tokens: &[&str]) -> (r: Result<Option<WhereClause>, QueryError>)
        ensures
            ({
                let tv = token_views(tokens@);
                let rest = filter_tokens(tv);
                match r {
                    Ok(None) => word_at(tv, "WHERE"@, 0) >= tv.len(),
                    Ok(Some(clause)) => {
                        &&& word_at(tv, "WHERE"@, 0) < tv.len()
                        &&& rest.len() >= 3
                        &&& clause.column@ == rest[0]
                        &&& clause.operator@ == rest[1]
                        &&& clause.value@ == rest[2]
                    },
                    Err(e) => word_at(tv, "WHERE"@, 0) < tv.len() && rest.len() < 3 && e@
                        == QueryErrorView::SyntaxError("Invalid WHERE clause"@),
                }
            }),
    {
        let at = find_word(tokens, "WHERE", 0);
        self.filter_at(tokens, at)
    }

    /// The condition of a statement, given the place of `WHERE` among its
    /// tokens: the three tokens behind it. A place at or behind the end
    /// says that there is no condition.
    pub fn filter_at(&self, tokens: &[&str], where_at: usize) -> (r: Result<
        Option<WhereClause>,
        QueryError,
    >)
        ensures
            ({
                let tv = token_views(tokens@);
                match r {
                    Ok(None) => where_at >= tv.len(),
                    Ok(Some(clause)) => {
                        &&& where_at + 3 < tv.len()
                        &&& clause.column@ == tv[where_at + 1]
                        &&& clause.operator@ == tv[where_at + 2]
                        &&& clause.value@ == tv[where_at + 3]
                    },
                    Err(e) => where_at < tv.len() && where_at + 3 >= tv.len() && e@
                        == QueryErrorView::SyntaxError("Invalid WHERE clause"@),
                }
            }),
    {
        let ghost tv = token_views(tokens@);
        if where_at >= tokens.len() {
            return Ok(None);
        }
        let rest = vstd::slice::slice_subrange(tokens, where_at + 1, tokens.len());
        proof {
            if rest@.len() >= 3 {
                assert(tv[where_at + 1] == rest@[0]@);
                assert(tv[where_at + 2] == rest@[1]@);
                assert(tv[where_at + 3] == rest@[2]@);
            }
        }
        match self.where_parser.parse_where_clause(rest) {
            Ok(clause) => Ok(Some(clause)),
            Err(e) => Err(e),
        }
    }

    /// The values of a row at the places `places`, in their order. A row
    /// without a value at one of the places is refused.
    pub fn project_row(&self, row: &[String], places: &Vec<usize>) -> (r: Result<
        Vec<String>,
        QueryError,
    >)
        ensures
            match r {
                Ok(values) => {
                    &&& forall|i: int| 0 <= i < places@.len() ==> (#[trigger] places@[i]) < row@.len()
                    &&& text_views(values@) == shown_values(
                        text_views(row@),
                        places@.map_values(|p: usize| p as int),
                    )
                },
                Err(e) => {
                    &&& exists|i: int| 0 <= i < places@.len() && (#[trigger] places@[i]) >= row@.len()
                    &&& e@ == QueryErrorView::InternalError(short_row_message())
                },
            },
    {
        let mut values: Vec<String> = Vec::new();
        let mut i: usize = 0;
        while i < places.len()
            invariant
                i <= places@.len(),
                values@.len() == i,
                forall|k: int| 0 <= k < i ==> (#[trigger] places@[k]) < row@.len(),
                forall|k: int| 0 <= k < i ==> (#[trigger] values@[k])@ == row@[places@[k] as int]@,
            decreases places@.len() - i,
        {
            let place = places[i];
            if place >= row.len() {
                return Err(
                    QueryError::InternalError(String::from_str("Row is shorter than its headers")),
                );
            }
            values.push(row[place].clone());
            i += 1;
        }
        proof {
            assert(text_views(values@) =~= shown_values(
                text_views(row@),
                places@.map_values(|p: usize| p as int),
            ));
        }
        Ok(values)
    }
}

} // verus!
