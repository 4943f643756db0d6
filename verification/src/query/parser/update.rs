//! The `UPDATE` statement: the column that changes, its new value, and the
//! rows that change.

use vstd::prelude::*;
use vstd::string::StringExecFns;
use super::column::{find_word, token_views, word_at};
use super::insert::{bits_at, column_place, lemma_column_place};
use super::where_clause::{WhereClause, WhereParser};
use crate::codec::{
    column_types, convert_value_to_bytes, decode_row, decoded_row, encode_row, encoded,
    encoded_row, mismatch_message, value_of_text, value_views, Value, ValueView,
};
use crate::metadata::column::{Column, ColumnType};
use crate::metadata::table::Table;
use crate::query::error::{QueryError, QueryErrorView};
use crate::query::words::{is_word, trim, trimmed, uppercase};
use crate::storage::record::Record;
use crate::text::{append_decimal, decimal_chars, same_text};

verus! {

/// What an `UPDATE` asks for.
#[derive(Debug)]
pub struct UpdatePlan {
    /// The name of the column that changes.
    pub column: String,
    /// The new value, as it was written.
    pub value: String,
    /// The condition on the rows that change, if there is one.
    pub filter: Option<WhereClause>,
}

/// The values of a row with the value `new` in every column of the name
/// `column`, from place `k` on.
pub open spec fn with_value(
    columns: Seq<Column>,
    values: Seq<ValueView>,
    column: Seq<char>,
    new: spec_fn(int) -> ValueView,
) -> Seq<ValueView> {
    Seq::new(
        values.len(),
        |i: int|
            if 0 <= i < columns.len() && columns[i].name@ == column {
                new(i)
            } else {
                values[i]
            },
    )
}

/// Whether the new value stands for a value in every column of the name
/// `column`.
pub open spec fn value_suits(
    columns: Seq<Column>,
    column: Seq<char>,
    text: Seq<u8>,
    float_bits: Option<u64>,
    upto: int,
) -> bool {
    forall|i: int|
        0 <= i < upto && i < columns.len() && (#[trigger] columns[i]).name@ == column ==> value_of_text(
            columns[i].data_type,
            text,
            float_bits,
        ) is Some
}

/// The single and the double quote.
pub open spec fn quote_marks() -> Seq<char> {
    seq!['\'', '"']
}

/// What the user is told where the text of an assignment stands for no
/// value of the column's type `t`.
pub open spec fn assign_message(t: ColumnType, text: Seq<char>) -> Seq<char> {
    match t {
        ColumnType::Varchar(max_len) => "Value '"@ + trim(text, quote_marks())
            + "' exceeds column length of "@ + decimal_chars(max_len as nat),
        _ => mismatch_message(t, text),
    }
}

/// Whether the flag at place `at` is set.
pub open spec fn flag_at(flags: Seq<bool>, at: int) -> bool {
    0 <= at < flags.len() && flags[at]
}

/// For each token, whether it is the word `WHERE`.
pub open spec fn where_flags(tokens: Seq<Seq<char>>) -> Seq<bool> {
    Seq::new(tokens.len(), |i: int| uppercase(tokens[i]) == "WHERE"@)
}

/// The assignments of a `SET` list from place `at` on, each as the name of
/// its column and the bytes of its new value in the form of that column, or
/// what the user is told of the first that cannot be read. An assignment is
/// a column, `=` and a value; a comma of its own may stand behind it. The
/// list ends at the end of the tokens, or where an assignment would begin
/// with a token that `stops` flags: a condition of three tokens must follow
/// there. `float_bits` says for each token what it reads as, if it reads
/// as a floating-point number.
pub open spec fn assignments_from(
    tokens: Seq<Seq<char>>,
    stops: Seq<bool>,
    columns: Seq<Column>,
    float_bits: Seq<Option<u64>>,
    at: int,
) -> Result<Seq<(Seq<char>, Seq<u8>)>, QueryErrorView>
    decreases tokens.len() - at,
{
    let n = tokens.len() as int;
    if at < 0 || at >= n {
        Ok(Seq::empty())
    } else if flag_at(stops, at) {
        if at + 3 < n {
            Ok(Seq::empty())
        } else {
            Err(QueryErrorView::SyntaxError("Invalid WHERE clause"@))
        }
    } else if at + 1 >= n || tokens[at + 1] != "="@ {
        Err(QueryErrorView::SyntaxError("Expected = after column name"@))
    } else if at + 2 >= n {
        Err(QueryErrorView::SyntaxError("Invalid SET clause"@))
    } else {
        let place = column_place(columns, tokens[at]);
        if place >= columns.len() {
            Err(QueryErrorView::ColumnNotFound(tokens[at]))
        } else {
            let t = columns[place].data_type;
            match value_of_text(t, vstd::utf8::encode_utf8(tokens[at + 2]), bits_at(float_bits, at + 2)) {
                None => Err(QueryErrorView::TypeMismatch(assign_message(t, tokens[at + 2]))),
                Some(v) => {
                    let next = if at + 3 < n && tokens[at + 3] == ","@ {
                        at + 4
                    } else {
                        at + 3
                    };
                    match assignments_from(tokens, stops, columns, float_bits, next) {
                        Ok(rest) => Ok(seq![(tokens[at], encoded(v))] + rest),
                        Err(e) => Err(e),
                    }
                },
            }
        }
    }
}

/// The assignments of an `UPDATE` whose `SET` stands at place `set`, or what
/// the user is told; a place at or behind the end says that `SET` is
/// missing.
pub open spec fn assignments_where(
    tokens: Seq<Seq<char>>,
    stops: Seq<bool>,
    columns: Seq<Column>,
    float_bits: Seq<Option<u64>>,
    set: int,
) -> Result<Seq<(Seq<char>, Seq<u8>)>, QueryErrorView> {
    if set >= tokens.len() {
        Err(QueryErrorView::SyntaxError("Expected SET clause"@))
    } else {
        assignments_from(tokens, stops, columns, float_bits, set + 1)
    }
}

/// Pairs of a name and bytes as plain values.
pub open spec fn pair_views(pairs: Seq<(String, Vec<u8>)>) -> Seq<(Seq<char>, Seq<u8>)> {
    pairs.map_values(|p: (String, Vec<u8>)| (p.0@, p.1@))
}

/// Reads `UPDATE` statements.
pub struct UpdateParser {
    where_parser: WhereParser,
}

impl UpdateParser {
    pub fn new() -> Self {
        UpdateParser { where_parser: WhereParser::new() }
    }

    /// What an `UPDATE <table> SET <column> = <value> [WHERE <condition>]`
    /// asks for. The column must be one of the table.
    pub fn parse_update(&self, tokens: &[&str], table: &Table) -> (r: Result<UpdatePlan, QueryError>)
        ensures
            ({
                let tv = token_views(tokens@);
                let n = tv.len() as int;
                let set = word_at(tv, "SET"@, 0);
                let filtered = set + 4 < n && uppercase(tv[set + 4]) == "WHERE"@;
                match r {
                    Ok(plan) => {
                        &&& set + 3 < n
                        &&& tv[set + 2] == "="@
                        &&& plan.column@ == tv[set + 1]
                        &&& plan.value@ == tv[set + 3]
                        &&& column_place(table.columns@, plan.column@) < table.columns@.len()
                        &&& match plan.filter {
                            Some(clause) => filtered && set + 7 < n && clause.column@ == tv[set + 5]
                                && clause.operator@ == tv[set + 6] && clause.value@ == tv[set + 7],
                            None => !filtered,
                        }
                    },
                    Err(e) => if set >= n {
                        e@ == QueryErrorView::SyntaxError("Expected SET clause"@)
                    } else if set + 3 >= n {
                        e@ == QueryErrorView::SyntaxError("Invalid SET clause"@)
                    } else if tv[set + 2] != "="@ {
                        e@ == QueryErrorView::SyntaxError("Expected = after column name"@)
                    } else if column_place(table.columns@, tv[set + 1]) >= table.columns@.len() {
                        e@ == QueryErrorView::ColumnNotFound(tv[set + 1])
                    } else {
                        filtered && set + 7 >= n && e@ == QueryErrorView::SyntaxError(
                            "Invalid WHERE clause"@,
                        )
                    },
                }
            }),
    {
        let ghost tv = token_views(tokens@);
        let set = find_word(tokens, "SET", 0);
        let where_word = tokens.len() > set && tokens.len() - set > 4 && is_word(
            tokens[set + 4],
            "WHERE",
        );
        proof {
            if set + 4 < tokens@.len() {
                assert(tv[set + 4] == tokens@[set + 4]@);
            }
        }
        self.update_at(tokens, table, set, where_word)
    }

    /// What an `UPDATE` asks for, given the place of `SET` among its tokens
    /// and whether the fourth token behind it is `WHERE`; a place at or
    /// behind the end says that `SET` is missing.
    pub fn update_at(&self, tokens: &[&str], table: &Table, set: usize, where_word: bool) -> (r: Result<
        UpdatePlan,
        QueryError,
    >)
        ensures
            ({
                let tv = token_views(tokens@);
                let n = tv.len() as int;
                let set = set as int;
                let filtered = set + 4 < n && where_word;
                match r {
                    Ok(plan) => {
                        &&& set + 3 < n
                        &&& tv[set + 2] == "="@
                        &&& plan.column@ == tv[set + 1]
                        &&& plan.value@ == tv[set + 3]
                        &&& column_place(table.columns@, plan.column@) < table.columns@.len()
                        &&& match plan.filter {
                            Some(clause) => filtered && set + 7 < n && clause.column@ == tv[set + 5]
                                && clause.operator@ == tv[set + 6] && clause.value@ == tv[set + 7],
                            None => !filtered,
                        }
                    },
                    Err(e) => if set >= n {
                        e@ == QueryErrorView::SyntaxError("Expected SET clause"@)
                    } else if set + 3 >= n {
                        e@ == QueryErrorView::SyntaxError("Invalid SET clause"@)
                    } else if tv[set + 2] != "="@ {
                        e@ == QueryErrorView::SyntaxError("Expected = after column name"@)
                    } else if column_place(table.columns@, tv[set + 1]) >= table.columns@.len() {
                        e@ == QueryErrorView::ColumnNotFound(tv[set + 1])
                    } else {
                        filtered && set + 7 >= n && e@ == QueryErrorView::SyntaxError(
                            "Invalid WHERE clause"@,
                        )
                    },
                }
            }),
    {
        let ghost tv = token_views(tokens@);
        let n = tokens.len();
        if set >= n {
            return Err(QueryError::SyntaxError(String::from_str("Expected SET clause")));
        }
        if n - set <= 3 {
            return Err(QueryError::SyntaxError(String::from_str("Invalid SET clause")));
        }
        proof {
            assert(tv[set + 1] == tokens@[set + 1]@);
            assert(tv[set + 2] == tokens@[set + 2]@);
            assert(tv[set + 3] == tokens@[set + 3]@);
        }
        let column_name = tokens[set + 1];
        if !same_text(tokens[set + 2], "=") {
            return Err(QueryError::SyntaxError(String::from_str("Expected = after column name")));
        }
        match table.get_column_index(column_name) {
            Some(i) => {
                proof {
                    lemma_column_place(table.columns@, column_name@, 0, i as int);
                }
            },
            None => {
                proof {
                    lemma_column_place(table.columns@, column_name@, 0, table.columns@.len() as int);
                }
                return Err(QueryError::ColumnNotFound(String::from_str(column_name)));
            },
        }
        let filter = if n - set > 4 && where_word {
            let rest = vstd::slice::slice_subrange(tokens, set + 5, n);
            proof {
                if rest@.len() >= 3 {
                    assert(tv[set + 5] == rest@[0]@);
                    assert(tv[set + 6] == rest@[1]@);
                    assert(tv[set + 7] == rest@[2]@);
                }
            }
            match self.where_parser.parse_where_clause(rest) {
                Ok(clause) => Some(clause),
                Err(e) => {
                    return Err(e);
                },
            }
        } else {
            None
        };
        Ok(
            UpdatePlan {
                column: String::from_str(column_name),
                value: String::from_str(tokens[set + 3]),
                filter,
            },
        )
    }

    /// The assignments of an `UPDATE <table> SET <column> = <value>, ...
    /// [WHERE <condition>]`, each as the name of its column and the bytes of
    /// its new value. `float_bits` says for each token what it reads as, if
    /// it reads as a floating-point number.
    pub fn parse_assignments(&self, tokens: &[&str], table: &Table, float_bits: &[Option<u64>]) -> (r:
        Result<Vec<(String, Vec<u8>)>, QueryError>)
        ensures
            ({
                let tv = token_views(tokens@);
                let expected = assignments_where(
                    tv,
                    where_flags(tv),
                    table.columns@,
                    float_bits@,
                    word_at(tv, "SET"@, 0),
                );
                match r {
                    Ok(pairs) => expected == Ok::<Seq<(Seq<char>, Seq<u8>)>, QueryErrorView>(
                        pair_views(pairs@),
                    ),
                    Err(e) => expected == Err::<Seq<(Seq<char>, Seq<u8>)>, QueryErrorView>(e@),
                }
            }),
    {
        let ghost tv = token_views(tokens@);
        let set = find_word(tokens, "SET", 0);
        let mut stops: Vec<bool> = Vec::new();
        let mut i: usize = 0;
        while i < tokens.len()
            invariant
                i <= tokens@.len(),
                tv == token_views(tokens@),
                stops@.len() == i,
                forall|k: int| 0 <= k < i ==> stops@[k] == (uppercase(#[trigger] tv[k]) == "WHERE"@),
            decreases tokens@.len() - i,
        {
            proof {
                assert(tv[i as int] == tokens@[i as int]@);
            }
            stops.push(is_word(tokens[i], "WHERE"));
            i += 1;
        }
        proof {
            assert(stops@ =~= where_flags(tv));
        }
        self.assignments_at(tokens, table, set, stops.as_slice(), float_bits)
    }

    /// The assignments of an `UPDATE`, given the place of `SET` among its
    /// tokens and, for each token, whether it is the word `WHERE`.
    pub fn assignments_at(
        &self,
        tokens: &[&str],
        table: &Table,
        set: usize,
        stops: &[bool],
        float_bits: &[Option<u64>],
    ) -> (r: Result<Vec<(String, Vec<u8>)>, QueryError>)
        ensures
            ({
                let expected = assignments_where(
                    token_views(tokens@),
                    stops@,
                    table.columns@,
                    float_bits@,
                    set as int,
                );
                match r {
                    Ok(pairs) => expected == Ok::<Seq<(Seq<char>, Seq<u8>)>, QueryErrorView>(
                        pair_views(pairs@),
                    ),
                    Err(e) => expected == Err::<Seq<(Seq<char>, Seq<u8>)>, QueryErrorView>(e@),
                }
            }),
    {
        let ghost tv = token_views(tokens@);
        let ghost cols = table.columns@;
        let ghost fb = float_bits@;
        let ghost sv = stops@;
        let n = tokens.len();
        if set >= n {
            return Err(QueryError::SyntaxError(String::from_str("Expected SET clause")));
        }
        let mut cut: Vec<char> = Vec::new();
        cut.push('\'');
        cut.push('"');
        assert(cut@ =~= quote_marks());
        let mut pairs: Vec<(String, Vec<u8>)> = Vec::new();
        let mut at: usize = set + 1;
        let mut done = false;
        while at < n && !done
            invariant
                at <= n + 1,
                n == tokens@.len(),
                tv == token_views(tokens@),
                cols == table.columns@,
                fb == float_bits@,
                sv == stops@,
                cut@ == quote_marks(),
                assignments_from(tv, sv, cols, fb, set + 1) == if done {
                    Ok::<Seq<(Seq<char>, Seq<u8>)>, QueryErrorView>(pair_views(pairs@))
                } else {
                    match assignments_from(tv, sv, cols, fb, at as int) {
                        Ok(rest) => Ok::<Seq<(Seq<char>, Seq<u8>)>, QueryErrorView>(
                            pair_views(pairs@) + rest,
                        ),
                        Err(e) => Err(e),
                    }
                },
            decreases n + 1 - at + if done { 0int } else { 1int },
        {
            proof {
                assert(tv[at as int] == tokens@[at as int]@);
                if at + 1 < n {
                    assert(tv[at + 1] == tokens@[at + 1]@);
                }
                if at + 2 < n {
                    assert(tv[at + 2] == tokens@[at + 2]@);
                }
                if at + 3 < n {
                    assert(tv[at + 3] == tokens@[at + 3]@);
                }
            }
            if at < stops.len() && stops[at] {
                if n - at <= 3 {
                    return Err(QueryError::SyntaxError(String::from_str("Invalid WHERE clause")));
                }
                proof {
                    assert(pair_views(pairs@) + Seq::<(Seq<char>, Seq<u8>)>::empty() =~= pair_views(
                        pairs@,
                    ));
                }
                done = true;
            } else {
                if n - at <= 1 || !same_text(tokens[at + 1], "=") {
                    return Err(
                        QueryError::SyntaxError(String::from_str("Expected = after column name")),
                    );
                }
                if n - at <= 2 {
                    return Err(QueryError::SyntaxError(String::from_str("Invalid SET clause")));
                }
                let name = tokens[at];
                let value = tokens[at + 2];
                let place = match table.get_column_index(name) {
                    Some(i) => {
                        proof {
                            lemma_column_place(cols, name@, 0, i as int);
                        }
                        i
                    },
                    None => {
                        proof {
                            lemma_column_place(cols, name@, 0, cols.len() as int);
                        }
                        return Err(QueryError::ColumnNotFound(String::from_str(name)));
                    },
                };
                let column = &table.columns[place];
                let bits = if at + 2 < float_bits.len() {
                    float_bits[at + 2]
                } else {
                    None
                };
                let bytes = match convert_value_to_bytes(value, column, bits) {
                    Ok(bytes) => bytes,
                    Err(e) => {
                        match column.data_type {
                            ColumnType::Varchar(max_len) => {
                                let mut message = String::from_str("Value '").concat(
                                    trimmed(value, &cut).as_str(),
                                ).concat("' exceeds column length of ");
                                append_decimal(&mut message, max_len as u64);
                                proof {
                                    assert(message@ =~= assign_message(column.data_type, value@));
                                }
                                return Err(QueryError::TypeMismatch(message));
                            },
                            _ => {
                                return Err(e);
                            },
                        }
                    },
                };
                let ghost before = pair_views(pairs@);
                let ghost piece = (name@, bytes@);
                pairs.push((String::from_str(name), bytes));
                let next = if n - at > 3 && same_text(tokens[at + 3], ",") {
                    at + 4
                } else {
                    at + 3
                };
                proof {
                    assert(pair_views(pairs@) =~= before.push(piece));
                    match assignments_from(tv, sv, cols, fb, next as int) {
                        Ok(rest) => {
                            assert(before + (seq![piece] + rest) =~= before.push(piece) + rest);
                        },
                        Err(_) => {},
                    }
                }
                at = next;
            }
        }
        proof {
            if !done {
                assert(pair_views(pairs@) + Seq::<(Seq<char>, Seq<u8>)>::empty() =~= pair_views(
                    pairs@,
                ));
            }
        }
        Ok(pairs)
    }

    /// The payload of a record after an update: the values that the record
    /// holds under the columns of the table, with the new value in every
    /// column of the name `update_column`. The caller says in `float_bits`
    /// what the new value reads as, if it reads as a floating-point number.
    /// A new value that does not suit the column is refused.
    pub fn build_updated_record_data(
        &self,
        original_record: &Record,
        table: &Table,
        update_column: &str,
        new_value: &str,
        float_bits: Option<u64>,
    ) -> (r: Result<Vec<u8>, QueryError>)
        ensures
            ({
                let columns = table.columns@;
                let text = vstd::utf8::encode_utf8(new_value@);
                let old = decoded_row(column_types(columns), original_record.data@);
                match r {
                    Ok(bytes) => value_suits(
                        columns,
                        update_column@,
                        text,
                        float_bits,
                        columns.len() as int,
                    ) && bytes@ == encoded_row(
                        with_value(
                            columns,
                            old,
                            update_column@,
                            |i: int| value_of_text(columns[i].data_type, text, float_bits).unwrap(),
                        ),
                    ),
                    Err(e) => exists|i: int|
                        0 <= i < columns.len() && (#[trigger] columns[i]).name@ == update_column@
                            && value_of_text(columns[i].data_type, text, float_bits) is None
                            && value_suits(columns, update_column@, text, float_bits, i) && e@
                            == QueryErrorView::TypeMismatch(
                            mismatch_message(columns[i].data_type, new_value@),
                        ),
                }
            }),
    {
        let ghost columns = table.columns@;
        let ghost text = vstd::utf8::encode_utf8(new_value@);
        let ghost new = |i: int| value_of_text(columns[i].data_type, text, float_bits).unwrap();
        let mut values = decode_row(&table.columns, original_record.data.as_slice());
        let ghost old = value_views(values@);
        proof {
            lemma_decoded_len(column_types(columns), original_record.data@, 0, 0);
            assert(old.len() == columns.len());
        }
        let n = table.columns.len();
        let mut i: usize = 0;
        while i < n
            invariant
                i <= n,
                n == table.columns@.len(),
                columns == table.columns@,
                text == vstd::utf8::encode_utf8(new_value@),
                new == |i: int| value_of_text(columns[i].data_type, text, float_bits).unwrap(),
                values@.len() == n,
                old.len() == n,
                old == decoded_row(column_types(columns), original_record.data@),
                value_suits(columns, update_column@, text, float_bits, i as int),
                forall|k: int|
                    0 <= k < n ==> (#[trigger] values@[k])@ == if k < i && columns[k].name@
                        == update_column@ {
                        new(k)
                    } else {
                        old[k]
                    },
            decreases n - i,
        {
            if same_text(table.columns[i].name.as_str(), update_column) {
                match Value::from_text(&table.columns[i].data_type, new_value, float_bits) {
                    Ok(v) => {
                        values[i] = v;
                    },
                    Err(e) => {
                        return Err(e);
                    },
                }
            }
            i += 1;
        }
        proof {
            assert(value_views(values@) =~= with_value(columns, old, update_column@, new));
        }
        Ok(encode_row(&values))
    }
}

/// A row has a value for each column.
pub proof fn lemma_decoded_len(
    types: Seq<crate::metadata::column::ColumnType>,
    data: Seq<u8>,
    k: int,
    offset: int,
)
    requires
        0 <= k <= types.len(),
    ensures
        crate::codec::decoded_from(types, data, k, offset).len() == types.len() - k,
    decreases types.len() - k,
{
    if k < types.len() {
        let step = crate::codec::decoded_at(types[k], data, offset);
        lemma_decoded_len(types, data, k + 1, step.1);
    }
}

} // verus!
