//! The `INNER JOIN` of two tables: its clause, its rows and its columns.

use vstd::prelude::*;
use vstd::string::StringExecFns;
use super::column::{find_word, text_views, token_views, word_at};
use crate::metadata::column::Column;
use crate::query::error::{QueryError, QueryErrorView};
use crate::query::words::{chars_of, cut_out, find_char, has_char, index_of};
use crate::text::same_text;

verus! {

/// The kind of a join.
#[derive(Debug, Clone, Copy, PartialEq, Eq, Structural)]
pub enum JoinType {
    Inner,
}

/// A join of two tables on the equality of one column of each.
#[derive(Debug)]
pub struct JoinClause {
    pub join_type: JoinType,
    pub left_table: String,
    pub right_table: String,
    pub left_column: String,
    pub right_column: String,
}

/// What a join clause says.
pub struct JoinClauseView {
    pub left_table: Seq<char>,
    pub right_table: Seq<char>,
    pub left_column: Seq<char>,
    pub right_column: Seq<char>,
}

impl View for JoinClause {
    type V = JoinClauseView;

    open spec fn view(&self) -> JoinClauseView {
        JoinClauseView {
            left_table: self.left_table@,
            right_table: self.right_table@,
            left_column: self.left_column@,
            right_column: self.right_column@,
        }
    }
}

/// Whether a token is a table and a column with one dot between them.
pub open spec fn is_qualified(token: Seq<char>) -> bool {
    let dot = index_of(token, '.', 0);
    dot < token.len() && index_of(token, '.', dot + 1) >= token.len()
}

/// What stands behind the first dot of a token.
pub open spec fn behind_dot(token: Seq<char>) -> Seq<char> {
    token.subrange(index_of(token, '.', 0) + 1, token.len() as int)
}

/// The join that the tokens of a statement spell, or what the user is told:
/// `<left> INNER JOIN <right> ON <table>.<column> = <table>.<column>`.
pub open spec fn join_clause_of(tokens: Seq<Seq<char>>) -> Result<JoinClauseView, Seq<char>> {
    join_clause_at(
        tokens,
        word_at(tokens, "INNER"@, 0),
        word_at(tokens, "JOIN"@, 0),
        word_at(tokens, "ON"@, 0),
    )
}

/// The join that the tokens spell where `INNER`, `JOIN` and `ON` stand at
/// the places `inner`, `join` and `on`; a place at or behind the end says
/// that the word is missing.
pub open spec fn join_clause_at(tokens: Seq<Seq<char>>, inner: int, join: int, on: int) -> Result<
    JoinClauseView,
    Seq<char>,
> {
    let n = tokens.len() as int;
    if n < 6 {
        Err("Invalid JOIN syntax"@)
    } else if inner >= n {
        Err("Expected INNER keyword"@)
    } else if join >= n {
        Err("Expected JOIN keyword"@)
    } else if on >= n {
        Err("Expected ON keyword"@)
    } else if inner + 1 != join || join + 2 != on || inner == 0 {
        Err("Invalid JOIN syntax order"@)
    } else if on + 3 >= n {
        Err("Invalid ON clause"@)
    } else if tokens[on + 2] != "="@ {
        Err("Only equality joins are supported"@)
    } else if !is_qualified(tokens[on + 1]) || !is_qualified(tokens[on + 3]) {
        Err("Expected table.column format in ON clause"@)
    } else {
        Ok(
            JoinClauseView {
                left_table: tokens[inner - 1],
                right_table: tokens[join + 1],
                left_column: behind_dot(tokens[on + 1]),
                right_column: behind_dot(tokens[on + 3]),
            },
        )
    }
}

/// Whether the header `h` is the column that `column` selects: the same
/// text where `column` names its table, else a header that ends in a dot
/// and `column`.
pub open spec fn selects(h: Seq<char>, column: Seq<char>) -> bool {
    if has_char(column, '.') {
        h == column
    } else {
        h.len() >= column.len() + 1 && h.subrange(h.len() - column.len() - 1, h.len() as int) == seq![
            '.',
        ] + column
    }
}

/// How many headers lie from `from` on before the first that `column`
/// selects, or the end.
pub open spec fn headers_before(headers: Seq<Seq<char>>, column: Seq<char>, from: int) -> nat
    decreases headers.len() - from,
{
    if from < 0 || from >= headers.len() || selects(headers[from], column) {
        0
    } else {
        1 + headers_before(headers, column, from + 1)
    }
}

/// The place of the first header that `column` selects, or the number of
/// headers.
pub open spec fn header_place(headers: Seq<Seq<char>>, column: Seq<char>) -> int {
    headers_before(headers, column, 0) as int
}

/// What each row says.
pub open spec fn row_views(rows: Seq<Vec<String>>) -> Seq<Seq<Seq<char>>> {
    rows.map_values(|r: Vec<String>| text_views(r@))
}

/// Whether two rows agree on the columns of the join. A row that lacks the
/// column agrees with none.
pub open spec fn keys_agree(
    l: Seq<Seq<char>>,
    r: Seq<Seq<char>>,
    left_index: int,
    right_index: int,
) -> bool {
    0 <= left_index < l.len() && 0 <= right_index < r.len() && l[left_index] == r[right_index]
}

/// The rows that one left row makes with the right rows that agree with
/// it, in the order of the right rows.
pub open spec fn pairs_for(
    l: Seq<Seq<char>>,
    right: Seq<Seq<Seq<char>>>,
    left_index: int,
    right_index: int,
) -> Seq<Seq<Seq<char>>>
    decreases right.len(),
{
    if right.len() == 0 {
        Seq::empty()
    } else {
        let rest = pairs_for(l, right.drop_last(), left_index, right_index);
        if keys_agree(l, right.last(), left_index, right_index) {
            rest.push(l + right.last())
        } else {
            rest
        }
    }
}

/// The rows of the join: for each left row in order, the rows that it makes
/// with the right rows that agree with it.
pub open spec fn joined(
    left: Seq<Seq<Seq<char>>>,
    right: Seq<Seq<Seq<char>>>,
    left_index: int,
    right_index: int,
) -> Seq<Seq<Seq<char>>>
    decreases left.len(),
{
    if left.len() == 0 {
        Seq::empty()
    } else {
        joined(left.drop_last(), right, left_index, right_index) + pairs_for(
            left.last(),
            right,
            left_index,
            right_index,
        )
    }
}

/// The headers of the columns of a table: the table, a dot, the column.
pub open spec fn qualified(table: Seq<char>, columns: Seq<Column>) -> Seq<Seq<char>> {
    columns.map_values(|c: Column| table + seq!['.'] + c.name@)
}

/// Whether every selected column selects a header.
pub open spec fn all_selected(headers: Seq<Seq<char>>, selected: Seq<Seq<char>>) -> bool {
    forall|i: int|
        0 <= i < selected.len() ==> header_place(headers, #[trigger] selected[i]) < headers.len()
}

/// Whether the selected column at place `k` is the first that selects no
/// header.
pub open spec fn first_unselected(headers: Seq<Seq<char>>, selected: Seq<Seq<char>>, k: int) -> bool {
    &&& 0 <= k < selected.len()
    &&& header_place(headers, selected[k]) >= headers.len()
    &&& forall|j: int| 0 <= j < k ==> header_place(headers, #[trigger] selected[j]) < headers.len()
}

/// Whether the row has a value for every selected column.
pub open spec fn row_is_wide(row: Seq<Seq<char>>, headers: Seq<Seq<char>>, selected: Seq<Seq<char>>) -> bool {
    forall|i: int| 0 <= i < selected.len() ==> header_place(headers, #[trigger] selected[i]) < row.len()
}

/// The values of the selected columns of a row, in the order of the
/// selection.
pub open spec fn picked(row: Seq<Seq<char>>, headers: Seq<Seq<char>>, selected: Seq<Seq<char>>) -> Seq<
    Seq<char>,
> {
    Seq::new(selected.len(), |i: int| row[header_place(headers, selected[i])])
}

/// What the user is told of a row that lacks a selected column.
pub open spec fn short_row_message() -> Seq<char> {
    "Row is shorter than its headers"@
}

/// Reads and carries out joins.
pub struct JoinParser;

/// The first header from `from` on that `column` selects is where it is
/// found.
proof fn lemma_header_place(headers: Seq<Seq<char>>, column: Seq<char>, from: int, at: int)
    requires
        0 <= from <= at <= headers.len(),
        forall|k: int| from <= k < at ==> !selects(#[trigger] headers[k], column),
        at == headers.len() || selects(headers[at], column),
    ensures
        from + headers_before(headers, column, from) == at,
    decreases at - from,
{
    if from < at {
        lemma_header_place(headers, column, from + 1, at);
    }
}

/// The place of the first header that `column` selects, or the number of
/// headers.
fn place_of(headers: &[String], column: &str) -> (r: usize)
    ensures
        r == header_place(text_views(headers@), column@),
        r <= headers@.len(),
{
    let ghost hv = text_views(headers@);
    let mut i: usize = 0;
    while i < headers.len()
        invariant
            i <= headers@.len(),
            hv == text_views(headers@),
            forall|k: int| 0 <= k < i ==> !selects(#[trigger] hv[k], column@),
        decreases headers@.len() - i,
    {
        proof {
            assert(hv[i as int] == headers@[i as int]@);
        }
        if header_matches(headers[i].as_str(), column) {
            proof {
                lemma_header_place(hv, column@, 0, i as int);
            }
            return i;
        }
        i += 1;
    }
    proof {
        lemma_header_place(hv, column@, 0, i as int);
    }
    i
}

/// Whether `token` holds exactly one dot; if so, what stands behind it.
fn column_of(token: &str) -> (r: Option<String>)
    ensures
        match r {
            Some(column) => is_qualified(token@) && column@ == behind_dot(token@),
            None => !is_qualified(token@),
        },
{
    let chars = chars_of(token);
    let dot = find_char(&chars, '.', 0);
    if dot >= chars.len() {
        return None;
    }
    if find_char(&chars, '.', dot + 1) < chars.len() {
        return None;
    }
    Some(cut_out(token, dot + 1, chars.len()))
}

/// Whether the header `h` is the column that `column` selects.
fn header_matches(h: &str, column: &str) -> (r: bool)
    ensures
        r == selects(h@, column@),
{
    let c = chars_of(column);
    if find_char(&c, '.', 0) < c.len() {
        return same_text(h, column);
    }
    let hc = chars_of(h);
    if hc.len() <= c.len() {
        return false;
    }
    let hn = hc.len();
    let start = hn - c.len() - 1;
    let ghost tail = hc@.subrange(start as int, hc@.len() as int);
    let ghost want = seq!['.'] + c@;
    if hc[start] != '.' {
        proof {
            assert(tail[0] != want[0]);
        }
        return false;
    }
    let mut i: usize = 0;
    while i < c.len()
        invariant
            i <= c@.len(),
            hc@ == h@,
            c@ == column@,
            !has_char(c@, '.'),
            hn == hc@.len(),
            start + 1 + c@.len() == hc@.len(),
            tail == hc@.subrange(start as int, hc@.len() as int),
            want == seq!['.'] + c@,
            forall|k: int| 0 <= k < i ==> hc@[start + 1 + k] == c@[k],
        decreases c@.len() - i,
    {
        if hc[start + 1 + i] != c[i] {
            proof {
                assert(tail[1 + i] != want[1 + i]);
            }
            return false;
        }
        i += 1;
    }
    proof {
        assert(tail =~= want);
    }
    true
}

impl JoinParser {
    pub fn new() -> Self {
        JoinParser
    }

    /// The join that the tokens of a statement spell.
    pub fn parse_join_clause(&self, tokens: &[&str]) -> (r: Result<JoinClause, QueryError>)
        ensures
            match r {
                Ok(clause) => join_clause_of(token_views(tokens@)) == Ok::<JoinClauseView, Seq<char>>(
                    clause@,
                ) && clause.join_type == JoinType::Inner,
                Err(e) => match join_clause_of(token_views(tokens@)) {
                    Ok(_) => false,
                    Err(message) => e@ == QueryErrorView::SyntaxError(message),
                },
            },
    {
        let inner = find_word(tokens, "INNER", 0);
        let join = find_word(tokens, "JOIN", 0);
        let on = find_word(tokens, "ON", 0);
        self.join_clause_at(tokens, inner, join, on)
    }

    /// The join that the tokens spell, given the places of `INNER`, `JOIN`
    /// and `ON` among them; a place at or behind the end says that the word
    /// is missing.
    pub fn join_clause_at(&self, tokens: &[&str], inner: usize, join: usize, on: usize) -> (r: Result<
        JoinClause,
        QueryError,
    >)
        ensures
            match r {
                Ok(clause) => join_clause_at(
                    token_views(tokens@),
                    inner as int,
                    join as int,
                    on as int,
                ) == Ok::<JoinClauseView, Seq<char>>(clause@) && clause.join_type == JoinType::Inner,
                Err(e) => match join_clause_at(
                    token_views(tokens@),
                    inner as int,
                    join as int,
                    on as int,
                ) {
                    Ok(_) => false,
                    Err(message) => e@ == QueryErrorView::SyntaxError(message),
                },
            },
    {
        let ghost tv = token_views(tokens@);
        let n = tokens.len();
        if n < 6 {
            return Err(QueryError::SyntaxError(String::from_str("Invalid JOIN syntax")));
        }
        if inner >= n {
            return Err(QueryError::SyntaxError(String::from_str("Expected INNER keyword")));
        }
        if join >= n {
            return Err(QueryError::SyntaxError(String::from_str("Expected JOIN keyword")));
        }
        if on >= n {
            return Err(QueryError::SyntaxError(String::from_str("Expected ON keyword")));
        }
        if inner + 1 != join || on < 2 || on - 2 != join || inner == 0 {
            return Err(QueryError::SyntaxError(String::from_str("Invalid JOIN syntax order")));
        }
        if n - on <= 3 {
            return Err(QueryError::SyntaxError(String::from_str("Invalid ON clause")));
        }
        proof {
            assert(tv[on + 1] == tokens@[on + 1]@);
            assert(tv[on + 2] == tokens@[on + 2]@);
            assert(tv[on + 3] == tokens@[on + 3]@);
            assert(tv[inner - 1] == tokens@[inner - 1]@);
            assert(tv[join + 1] == tokens@[join + 1]@);
        }
        if !same_text(tokens[on + 2], "=") {
            return Err(QueryError::SyntaxError(String::from_str("Only equality joins are supported")));
        }
        let left_column = match column_of(tokens[on + 1]) {
            Some(c) => c,
            None => {
                return Err(
                    QueryError::SyntaxError(
                        String::from_str("Expected table.column format in ON clause"),
                    ),
                );
            },
        };
        let right_column = match column_of(tokens[on + 3]) {
            Some(c) => c,
            None => {
                return Err(
                    QueryError::SyntaxError(
                        String::from_str("Expected table.column format in ON clause"),
                    ),
                );
            },
        };
        Ok(
            JoinClause {
                join_type: JoinType::Inner,
                left_table: String::from_str(tokens[inner - 1]),
                right_table: String::from_str(tokens[join + 1]),
                left_column,
                right_column,
            },
        )
    }

    /// The headers and the rows of a join cut down to the selected columns,
    /// in the order of the selection. A column is selected with its table
    /// in front, or bare: then the first header that ends in a dot and the
    /// column is taken. A column that selects no header is refused, and so
    /// is a row that lacks a selected column.
    pub fn filter_selected_columns(
        &self,
        headers: &[String],
        rows: &[Vec<String>],
        selected_columns: &[String],
    ) -> (r: Result<(Vec<String>, Vec<Vec<String>>), QueryError>)
        ensures
            ({
                let hv = text_views(headers@);
                let sv = text_views(selected_columns@);
                let rv = row_views(rows@);
                match r {
                    Ok(found) => {
                        &&& all_selected(hv, sv)
                        &&& text_views(found.0@) == picked(hv, hv, sv)
                        &&& found.1@.len() == rv.len()
                        &&& forall|k: int|
                            0 <= k < rv.len() ==> row_is_wide(#[trigger] rv[k], hv, sv) && row_views(
                                found.1@,
                            )[k] == picked(rv[k], hv, sv)
                    },
                    Err(e) => if all_selected(hv, sv) {
                        &&& exists|k: int| 0 <= k < rv.len() && !row_is_wide(#[trigger] rv[k], hv, sv)
                        &&& e@ == QueryErrorView::InternalError(short_row_message())
                    } else {
                        exists|k: int|
                            first_unselected(hv, sv, k) && e@ == QueryErrorView::ColumnNotFound(
                                #[trigger] sv[k],
                            )
                    },
                }
            }),
    {
        let ghost hv = text_views(headers@);
        let ghost sv = text_views(selected_columns@);
        let ghost rv = row_views(rows@);
        let mut places: Vec<usize> = Vec::new();
        let mut filtered_headers: Vec<String> = Vec::new();
        let mut i: usize = 0;
        while i < selected_columns.len()
            invariant
                i <= selected_columns@.len(),
                hv == text_views(headers@),
                sv == text_views(selected_columns@),
                places@.len() == i,
                filtered_headers@.len() == i,
                forall|k: int|
                    0 <= k < i ==> (#[trigger] places@[k]) == header_place(hv, sv[k]) && places@[k]
                        < hv.len(),
                forall|k: int|
                    0 <= k < i ==> (#[trigger] filtered_headers@[k])@ == hv[header_place(hv, sv[k])],
            decreases selected_columns@.len() - i,
        {
            let column = &selected_columns[i];
            proof {
                assert(sv[i as int] == column@);
            }
            let place = place_of(headers, column.as_str());
            if place >= headers.len() {
                proof {
                    assert forall|j: int| 0 <= j < i implies header_place(hv, #[trigger] sv[j])
                        < hv.len() by {
                        assert(places@[j] == header_place(hv, sv[j]));
                    }
                    assert(first_unselected(hv, sv, i as int));
                }
                return Err(QueryError::ColumnNotFound(column.clone()));
            }
            proof {
                assert(hv[place as int] == headers@[place as int]@);
            }
            places.push(place);
            filtered_headers.push(headers[place].clone());
            i += 1;
        }
        proof {
            assert forall|k: int| 0 <= k < sv.len() implies header_place(hv, #[trigger] sv[k])
                < hv.len() by {
                assert(places@[k] == header_place(hv, sv[k]));
            }
            assert(text_views(filtered_headers@) =~= picked(hv, hv, sv));
        }
        let mut filtered_rows: Vec<Vec<String>> = Vec::new();
        let mut r: usize = 0;
        while r < rows.len()
            invariant
                r <= rows@.len(),
                hv == text_views(headers@),
                sv == text_views(selected_columns@),
                rv == row_views(rows@),
                all_selected(hv, sv),
                places@.len() == sv.len(),
                forall|k: int| 0 <= k < sv.len() ==> (#[trigger] places@[k]) == header_place(hv, sv[k]),
                filtered_rows@.len() == r,
                forall|k: int|
                    0 <= k < r ==> row_is_wide(#[trigger] rv[k], hv, sv) && row_views(filtered_rows@)[k]
                        == picked(rv[k], hv, sv),
            decreases rows@.len() - r,
        {
            let row = &rows[r];
            let ghost this = text_views(row@);
            proof {
                assert(rv[r as int] == this);
            }
            let mut out: Vec<String> = Vec::new();
            let mut c: usize = 0;
            while c < places.len()
                invariant
                    c <= places@.len(),
                    places@.len() == sv.len(),
                    this == text_views(row@),
                    r < rows@.len(),
                    rv == row_views(rows@),
                    rv[r as int] == this,
                    hv == text_views(headers@),
                    sv == text_views(selected_columns@),
                    all_selected(hv, sv),
                    forall|k: int|
                        0 <= k < sv.len() ==> (#[trigger] places@[k]) == header_place(hv, sv[k]),
                    out@.len() == c,
                    forall|k: int| 0 <= k < c ==> header_place(hv, #[trigger] sv[k]) < this.len(),
                    forall|k: int| 0 <= k < c ==> (#[trigger] out@[k])@ == this[header_place(hv, sv[k])],
                decreases places@.len() - c,
            {
                let place = places[c];
                if place >= row.len() {
                    proof {
                        assert(places@[c as int] == header_place(hv, sv[c as int]));
                        assert(!row_is_wide(rv[r as int], hv, sv));
                        assert(rv.len() == rows@.len());
                        assert(exists|k: int|
                            0 <= k < rv.len() && !row_is_wide(#[trigger] rv[k], hv, sv));
                    }
                    return Err(
                        QueryError::InternalError(String::from_str("Row is shorter than its headers")),
                    );
                }
                proof {
                    assert(this[place as int] == row@[place as int]@);
                }
                out.push(row[place].clone());
                c += 1;
            }
            let ghost before = row_views(filtered_rows@);
            proof {
                assert(text_views(out@) =~= picked(this, hv, sv));
            }
            filtered_rows.push(out);
            proof {
                assert(row_views(filtered_rows@) =~= before.push(picked(this, hv, sv)));
                assert forall|k: int| 0 <= k < r + 1 implies row_is_wide(#[trigger] rv[k], hv, sv)
                    && row_views(filtered_rows@)[k] == picked(rv[k], hv, sv) by {
                    if k < r {
                        assert(row_views(filtered_rows@)[k] == before[k]);
                    }
                }
            }
            r += 1;
        }
        Ok((filtered_headers, filtered_rows))
    }

    /// The headers of the rows of a join: the columns of the left table,
    /// then those of the right, each with its table in front.
    pub fn join_headers(
        &self,
        left_table: &str,
        left_columns: &Vec<Column>,
        right_table: &str,
        right_columns: &Vec<Column>,
    ) -> (r: Vec<String>)
        ensures
            text_views(r@) == qualified(left_table@, left_columns@) + qualified(
                right_table@,
                right_columns@,
            ),
    {
        let mut headers: Vec<String> = Vec::new();
        let ghost left = qualified(left_table@, left_columns@);
        let ghost right = qualified(right_table@, right_columns@);
        let mut i: usize = 0;
        while i < left_columns.len()
            invariant
                i <= left_columns@.len(),
                left == qualified(left_table@, left_columns@),
                headers@.len() == i,
                forall|k: int| 0 <= k < i ==> (#[trigger] headers@[k])@ == left[k],
            decreases left_columns@.len() - i,
        {
            let h = String::from_str(left_table).concat(".").concat(left_columns[i].name.as_str());
            proof {
                reveal_strlit(".");
                assert(h@ =~= left[i as int]);
            }
            headers.push(h);
            i += 1;
        }
        let mut j: usize = 0;
        while j < right_columns.len()
            invariant
                j <= right_columns@.len(),
                left == qualified(left_table@, left_columns@),
                right == qualified(right_table@, right_columns@),
                headers@.len() == left.len() + j,
                forall|k: int| 0 <= k < left.len() ==> (#[trigger] headers@[k])@ == left[k],
                forall|k: int| 0 <= k < j ==> (#[trigger] headers@[left.len() + k])@ == right[k],
            decreases right_columns@.len() - j,
        {
            let h = String::from_str(right_table).concat(".").concat(right_columns[j].name.as_str());
            proof {
                reveal_strlit(".");
                assert(h@ =~= right[j as int]);
            }
            headers.push(h);
            j += 1;
        }
        proof {
            assert forall|k: int| 0 <= k < headers@.len() implies text_views(headers@)[k] == (left
                + right)[k] by {
                if k >= left.len() {
                    assert(headers@[left.len() + (k - left.len())]@ == right[k - left.len()]);
                }
            }
            assert(text_views(headers@) =~= left + right);
        }
        headers
    }

    /// The rows of the join of `left_rows` and `right_rows` on the equality
    /// of the column at `left_index` with the column at `right_index`.
    pub fn join_rows(
        &self,
        left_rows: &Vec<Vec<String>>,
        right_rows: &Vec<Vec<String>>,
        left_index: usize,
        right_index: usize,
    ) -> (r: Vec<Vec<String>>)
        ensures
            row_views(r@) == joined(
                row_views(left_rows@),
                row_views(right_rows@),
                left_index as int,
                right_index as int,
            ),
    {
        let ghost left = row_views(left_rows@);
        let ghost right = row_views(right_rows@);
        let ghost li = left_index as int;
        let ghost ri = right_index as int;
        let mut out: Vec<Vec<String>> = Vec::new();
        let mut i: usize = 0;
        proof {
            assert(left.subrange(0, 0) =~= Seq::<Seq<Seq<char>>>::empty());
            assert(row_views(out@) =~= Seq::<Seq<Seq<char>>>::empty());
        }
        while i < left_rows.len()
            invariant
                i <= left_rows@.len(),
                left == row_views(left_rows@),
                right == row_views(right_rows@),
                li == left_index as int,
                ri == right_index as int,
                row_views(out@) == joined(left.subrange(0, i as int), right, li, ri),
            decreases left_rows@.len() - i,
        {
            let l = &left_rows[i];
            let ghost done = row_views(out@);
            let ghost lv = text_views(l@);
            proof {
                assert(left[i as int] == lv);
                assert(left.subrange(0, i + 1).drop_last() =~= left.subrange(0, i as int));
                assert(left.subrange(0, i + 1).last() == lv);
                assert(right.subrange(0, 0) =~= Seq::<Seq<Seq<char>>>::empty());
                assert(done + pairs_for(lv, right.subrange(0, 0), li, ri) =~= done);
            }
            let mut j: usize = 0;
            while j < right_rows.len()
                invariant
                    j <= right_rows@.len(),
                    i < left_rows@.len(),
                    l == &left_rows@[i as int],
                    lv == text_views(l@),
                    right == row_views(right_rows@),
                    li == left_index as int,
                    ri == right_index as int,
                    row_views(out@) == done + pairs_for(lv, right.subrange(0, j as int), li, ri),
                decreases right_rows@.len() - j,
            {
                let r = &right_rows[j];
                let ghost rv = text_views(r@);
                let ghost before = row_views(out@);
                let ghost seen = pairs_for(lv, right.subrange(0, j as int), li, ri);
                proof {
                    assert(right[j as int] == rv);
                    assert(right.subrange(0, j + 1).drop_last() =~= right.subrange(0, j as int));
                    assert(right.subrange(0, j + 1).last() == rv);
                }
                let agree = left_index < l.len() && right_index < r.len() && same_text(
                    l[left_index].as_str(),
                    r[right_index].as_str(),
                );
                proof {
                    if left_index < l@.len() {
                        assert(lv[li] == l@[li]@);
                    }
                    if right_index < r@.len() {
                        assert(rv[ri] == r@[ri]@);
                    }
                    assert(agree == keys_agree(lv, rv, li, ri));
                }
                if agree {
                    let mut row: Vec<String> = Vec::new();
                    let mut a: usize = 0;
                    while a < l.len()
                        invariant
                            a <= l@.len(),
                            row@.len() == a,
                            forall|k: int| 0 <= k < a ==> (#[trigger] row@[k])@ == l@[k]@,
                        decreases l@.len() - a,
                    {
                        row.push(l[a].clone());
                        a += 1;
                    }
                    let mut b: usize = 0;
                    while b < r.len()
                        invariant
                            b <= r@.len(),
                            row@.len() == l@.len() + b,
                            forall|k: int| 0 <= k < l@.len() ==> (#[trigger] row@[k])@ == l@[k]@,
                            forall|k: int| 0 <= k < b ==> (#[trigger] row@[l@.len() + k])@ == r@[k]@,
                        decreases r@.len() - b,
                    {
                        row.push(r[b].clone());
                        b += 1;
                    }
                    proof {
                        assert(text_views(row@) =~= lv + rv) by {
                            assert forall|k: int| 0 <= k < row@.len() implies text_views(row@)[k] == (lv
                                + rv)[k] by {
                                if k < l@.len() {
                                    assert(row@[k]@ == l@[k]@);
                                } else {
                                    assert(row@[l@.len() + (k - l@.len())]@ == r@[k - l@.len()]@);
                                }
                            }
                        }
                    }
                    out.push(row);
                    proof {
                        assert(row_views(out@) =~= before.push(lv + rv));
                        assert(before.push(lv + rv) =~= done + seen.push(lv + rv));
                    }
                }
                j += 1;
            }
            proof {
                assert(right.subrange(0, j as int) =~= right);
            }
            i += 1;
        }
        proof {
            assert(left.subrange(0, i as int) =~= left);
        }
        out
    }
}

} // verus!
