//! The aggregate functions of a `SELECT` and its `GROUP BY`.

use vstd::prelude::*;
use vstd::string::{StrSliceExecFns, StringExecFns};
use super::column::{find_word, text_views, token_views, word_at};
use super::insert::{column_place, lemma_column_place};
use super::join::row_views;
use super::where_clause::{goes_before, text_before};
use crate::metadata::table::Table;
use crate::text::same_text;
use crate::query::error::{QueryError, QueryErrorView};
use crate::query::words::{
    chars_of, cut_out, find_char, has_char, index_of, is_word, trim_end, trimmed_end, upper_text,
    uppercase,
};

verus! {

/// An aggregate function over the column that it names; `COUNT` may name
/// `*` for all rows.
#[derive(Debug)]
pub enum AggregateFunction {
    Sum(String),
    Count(String),
    Avg(String),
    Min(String),
    Max(String),
}

/// What an aggregate function says.
pub enum FunctionView {
    Sum(Seq<char>),
    Count(Seq<char>),
    Avg(Seq<char>),
    Min(Seq<char>),
    Max(Seq<char>),
}

impl View for AggregateFunction {
    type V = FunctionView;

    open spec fn view(&self) -> FunctionView {
        match self {
            AggregateFunction::Sum(c) => FunctionView::Sum(c@),
            AggregateFunction::Count(c) => FunctionView::Count(c@),
            AggregateFunction::Avg(c) => FunctionView::Avg(c@),
            AggregateFunction::Min(c) => FunctionView::Min(c@),
            AggregateFunction::Max(c) => FunctionView::Max(c@),
        }
    }
}

impl Clone for AggregateFunction {
    fn clone(&self) -> (r: Self)
        ensures
            r@ == self@,
    {
        match self {
            AggregateFunction::Sum(c) => AggregateFunction::Sum(c.clone()),
            AggregateFunction::Count(c) => AggregateFunction::Count(c.clone()),
            AggregateFunction::Avg(c) => AggregateFunction::Avg(c.clone()),
            AggregateFunction::Min(c) => AggregateFunction::Min(c.clone()),
            AggregateFunction::Max(c) => AggregateFunction::Max(c.clone()),
        }
    }
}

/// The aggregate functions of a statement and the columns to group by.
#[derive(Debug)]
pub struct AggregationClause {
    pub functions: Vec<AggregateFunction>,
    pub group_by_columns: Vec<String>,
}

/// What each function of `v` says, in order.
pub open spec fn function_views(v: Seq<AggregateFunction>) -> Seq<FunctionView> {
    v.map_values(|f: AggregateFunction| f@)
}

/// Whether a token looks like the call of a function: it holds an opening
/// and a closing parenthesis.
pub open spec fn is_call(token: Seq<char>) -> bool {
    has_char(token, '(') && has_char(token, ')')
}

/// The name that a call gives: what stands before the first opening
/// parenthesis.
pub open spec fn call_name(token: Seq<char>) -> Seq<char> {
    token.subrange(0, index_of(token, '(', 0))
}

/// The function that a token spells: a name, in any case, then the column
/// between the first opening and the first closing parenthesis.
pub open spec fn function_of(token: Seq<char>) -> Option<FunctionView> {
    function_named(token, uppercase(call_name(token)))
}

/// The function that a token spells where `name` is its name in upper
/// case.
pub open spec fn function_named(token: Seq<char>, name: Seq<char>) -> Option<FunctionView> {
    let open = index_of(token, '(', 0);
    let close = index_of(token, ')', 0);
    if open >= token.len() || close >= token.len() || close < open {
        None
    } else {
        let column = token.subrange(open + 1, close);
        if name == "SUM"@ {
            Some(FunctionView::Sum(column))
        } else if name == "COUNT"@ {
            Some(FunctionView::Count(column))
        } else if name == "AVG"@ {
            Some(FunctionView::Avg(column))
        } else if name == "MIN"@ {
            Some(FunctionView::Min(column))
        } else if name == "MAX"@ {
            Some(FunctionView::Max(column))
        } else {
            None
        }
    }
}

/// What the user is told of a token that spells no function.
pub open spec fn function_error(token: Seq<char>) -> QueryErrorView {
    let open = index_of(token, '(', 0);
    let close = index_of(token, ')', 0);
    if open >= token.len() || close >= token.len() || close < open {
        QueryErrorView::SyntaxError("Invalid function syntax"@)
    } else {
        QueryErrorView::SyntaxError("Unsupported function: "@ + call_name(token))
    }
}

/// The name at place `i` of a list of names; the empty text where there
/// is none.
pub open spec fn name_at(names: Seq<Seq<char>>, i: int) -> Seq<char> {
    if 0 <= i < names.len() {
        names[i]
    } else {
        Seq::empty()
    }
}

/// For each token, the name that it gives as a call, in upper case.
pub open spec fn call_names(tokens: Seq<Seq<char>>) -> Seq<Seq<char>> {
    Seq::new(tokens.len(), |i: int| uppercase(call_name(tokens[i])))
}

/// Whether the token at place `i` is a call that spells no function, where
/// `names` holds for each token its name in upper case.
pub open spec fn is_bad_call(tokens: Seq<Seq<char>>, names: Seq<Seq<char>>, i: int) -> bool {
    is_call(tokens[i]) && function_named(tokens[i], name_at(names, i)) is None
}

/// How many tokens lie from `from` on before the first call that spells no
/// function, or the end.
pub open spec fn good_before(tokens: Seq<Seq<char>>, names: Seq<Seq<char>>, from: int) -> nat
    decreases tokens.len() - from,
{
    if from < 0 || from >= tokens.len() || is_bad_call(tokens, names, from) {
        0
    } else {
        1 + good_before(tokens, names, from + 1)
    }
}

/// The place of the first call that spells no function, or the number of
/// tokens.
pub open spec fn bad_call_at(tokens: Seq<Seq<char>>, names: Seq<Seq<char>>) -> int {
    good_before(tokens, names, 0) as int
}

/// The first call that spells no function is where it is found.
pub proof fn lemma_bad_call_at(tokens: Seq<Seq<char>>, names: Seq<Seq<char>>, from: int, at: int)
    requires
        0 <= from <= at <= tokens.len(),
        forall|k: int| from <= k < at ==> !is_bad_call(tokens, names, k),
        at == tokens.len() || is_bad_call(tokens, names, at),
    ensures
        from + good_before(tokens, names, from) == at,
    decreases at - from,
{
    if from < at {
        lemma_bad_call_at(tokens, names, from + 1, at);
    }
}

/// The functions that the calls among the tokens spell, or what the user is
/// told of the first call that spells none.
pub open spec fn function_list_of(tokens: Seq<Seq<char>>) -> Result<Seq<FunctionView>, QueryErrorView> {
    function_list_named(tokens, call_names(tokens))
}

/// The functions that the calls among the tokens spell, or what the user is
/// told of the first call that spells none, where `names` holds for each
/// token its name in upper case.
pub open spec fn function_list_named(tokens: Seq<Seq<char>>, names: Seq<Seq<char>>) -> Result<
    Seq<FunctionView>,
    QueryErrorView,
> {
    match functions_upto(tokens, names, tokens.len() as int) {
        Some(found) => Ok(found),
        None => Err(function_error(tokens[bad_call_at(tokens, names)])),
    }
}

/// The functions that the calls among the first `k` tokens spell, in order,
/// where each call spells one.
pub open spec fn functions_upto(tokens: Seq<Seq<char>>, names: Seq<Seq<char>>, k: int) -> Option<
    Seq<FunctionView>,
>
    decreases k,
{
    if k <= 0 || k > tokens.len() {
        Some(Seq::empty())
    } else {
        match functions_upto(tokens, names, k - 1) {
            None => None,
            Some(found) => if is_call(tokens[k - 1]) {
                match function_named(tokens[k - 1], name_at(names, k - 1)) {
                    Some(f) => Some(found.push(f)),
                    None => None,
                }
            } else {
                Some(found)
            },
        }
    }
}

/// The name of a function in the head of a result.
pub open spec fn header_of(f: FunctionView) -> Seq<char> {
    match f {
        FunctionView::Count(c) => "COUNT("@ + c + ")"@,
        FunctionView::Sum(c) => "SUM("@ + c + ")"@,
        FunctionView::Avg(c) => "AVG("@ + c + ")"@,
        FunctionView::Min(c) => "MIN("@ + c + ")"@,
        FunctionView::Max(c) => "MAX("@ + c + ")"@,
    }
}

/// Whether a token, without the commas at its end, ends the list of a
/// `GROUP BY`: it is `ORDER` or `HAVING`.
pub open spec fn ends_group_by(token: Seq<char>) -> bool {
    let word = uppercase(trim_end(token, seq![',']));
    word == "ORDER"@ || word == "HAVING"@
}

/// How many tokens lie from `from` on before the first that ends the list,
/// or the end.
pub open spec fn grouped_before(tokens: Seq<Seq<char>>, from: int) -> nat
    decreases tokens.len() - from,
{
    if from < 0 || from >= tokens.len() || ends_group_by(tokens[from]) {
        0
    } else {
        1 + grouped_before(tokens, from + 1)
    }
}

/// The columns that a `GROUP BY` whose `GROUP` stands at place `g` lists:
/// the tokens behind `BY` up to `ORDER` or `HAVING`, each without the commas
/// at its end.
pub open spec fn grouped_columns(tokens: Seq<Seq<char>>, g: int) -> Seq<Seq<char>> {
    Seq::new(grouped_before(tokens, g + 2), |i: int| trim_end(tokens[g + 2 + i], seq![',']))
}

/// The columns that a `GROUP BY` lists, or what the user is told, where
/// `GROUP` stands at place `g`, `by_word` says whether `BY` follows it, and
/// the list ends before place `end`: the tokens from behind `BY` up to
/// `end`, each without the commas at its end. An `end` outside the tokens
/// behind `BY` counts as the nearest place among them.
pub open spec fn group_by_where(tokens: Seq<Seq<char>>, g: int, by_word: bool, end: int) -> Result<
    Seq<Seq<char>>,
    Seq<char>,
> {
    let n = tokens.len() as int;
    let stop = if end > n {
        n
    } else if end < g + 2 {
        g + 2
    } else {
        end
    };
    if g >= n {
        Err("Expected GROUP keyword"@)
    } else if g + 1 >= n || !by_word {
        Err("Expected BY after GROUP"@)
    } else if stop == g + 2 {
        Err("GROUP BY must specify at least one column"@)
    } else {
        Ok(Seq::new((stop - (g + 2)) as nat, |i: int| trim_end(tokens[g + 2 + i], seq![','])))
    }
}

/// Reads aggregate functions and `GROUP BY`.
pub struct AggregationParser;

impl AggregationParser {
    pub fn new() -> Self {
        AggregationParser
    }

    /// The function that one token spells.
    pub fn parse_single_function(&self, token: &str) -> (r: Result<AggregateFunction, QueryError>)
        ensures
            match r {
                Ok(f) => function_of(token@) == Some(f@),
                Err(e) => function_of(token@) is None && e@ == function_error(token@),
            },
    {
        let chars = chars_of(token);
        let open = find_char(&chars, '(', 0);
        let name = upper_text(cut_out(token, 0, open).as_str());
        self.function_named(token, name.as_str())
    }

    /// The function that one token spells, given its name in upper case:
    /// what stands before the first opening parenthesis.
    pub fn function_named(&self, token: &str, upper_name: &str) -> (r: Result<
        AggregateFunction,
        QueryError,
    >)
        ensures
            match r {
                Ok(f) => function_named(token@, upper_name@) == Some(f@),
                Err(e) => function_named(token@, upper_name@) is None && e@ == function_error(token@),
            },
    {
        let chars = chars_of(token);
        let open = find_char(&chars, '(', 0);
        let close = find_char(&chars, ')', 0);
        if open >= chars.len() || close >= chars.len() || close < open {
            return Err(QueryError::SyntaxError(String::from_str("Invalid function syntax")));
        }
        let name = cut_out(token, 0, open);
        let column = cut_out(token, open + 1, close);
        if same_text(upper_name, "SUM") {
            Ok(AggregateFunction::Sum(column))
        } else if same_text(upper_name, "COUNT") {
            Ok(AggregateFunction::Count(column))
        } else if same_text(upper_name, "AVG") {
            Ok(AggregateFunction::Avg(column))
        } else if same_text(upper_name, "MIN") {
            Ok(AggregateFunction::Min(column))
        } else if same_text(upper_name, "MAX") {
            Ok(AggregateFunction::Max(column))
        } else {
            Err(
                QueryError::SyntaxError(
                    String::from_str("Unsupported function: ").concat(name.as_str()),
                ),
            )
        }
    }

    /// The functions that the calls among the tokens of a `SELECT` spell, in
    /// order. The first call that spells none is refused.
    pub fn parse_aggregation_functions(&self, select_tokens: &[&str]) -> (r: Result<
        Vec<AggregateFunction>,
        QueryError,
    >)
        ensures
            match r {
                Ok(functions) => function_list_of(token_views(select_tokens@)) == Ok::<
                    Seq<FunctionView>,
                    QueryErrorView,
                >(function_views(functions@)),
                Err(e) => function_list_of(token_views(select_tokens@)) == Err::<
                    Seq<FunctionView>,
                    QueryErrorView,
                >(e@),
            },
    {
        let ghost tv = token_views(select_tokens@);
        let mut names: Vec<String> = Vec::new();
        let mut i: usize = 0;
        while i < select_tokens.len()
            invariant
                i <= select_tokens@.len(),
                tv == token_views(select_tokens@),
                names@.len() == i,
                forall|j: int| 0 <= j < i ==> (#[trigger] names@[j])@ == uppercase(call_name(tv[j])),
            decreases select_tokens@.len() - i,
        {
            let token = select_tokens[i];
            let chars = chars_of(token);
            let open = find_char(&chars, '(', 0);
            proof {
                assert(tv[i as int] == token@);
            }
            names.push(upper_text(cut_out(token, 0, open).as_str()));
            i += 1;
        }
        proof {
            assert(text_views(names@) =~= call_names(tv));
        }
        self.functions_named(select_tokens, &names)
    }

    /// The functions that the calls among the tokens spell, in order, given
    /// for each token its name in upper case: what stands before its first
    /// opening parenthesis. A token that is no call is passed over, and the
    /// first call that spells no function is refused.
    pub fn functions_named(&self, tokens: &[&str], upper_names: &Vec<String>) -> (r: Result<
        Vec<AggregateFunction>,
        QueryError,
    >)
        ensures
            match r {
                Ok(functions) => function_list_named(token_views(tokens@), text_views(upper_names@))
                    == Ok::<Seq<FunctionView>, QueryErrorView>(function_views(functions@)),
                Err(e) => function_list_named(token_views(tokens@), text_views(upper_names@)) == Err::<
                    Seq<FunctionView>,
                    QueryErrorView,
                >(e@),
            },
    {
        let ghost tv = token_views(tokens@);
        let ghost nv = text_views(upper_names@);
        let mut functions: Vec<AggregateFunction> = Vec::new();
        let mut i: usize = 0;
        proof {
            assert(function_views(functions@) =~= Seq::<FunctionView>::empty());
        }
        while i < tokens.len()
            invariant
                i <= tokens@.len(),
                tv == token_views(tokens@),
                nv == text_views(upper_names@),
                functions_upto(tv, nv, i as int) == Some(function_views(functions@)),
                forall|j: int| 0 <= j < i ==> !is_bad_call(tv, nv, j),
            decreases tokens@.len() - i,
        {
            let token = tokens[i];
            let chars = chars_of(token);
            let calls = find_char(&chars, '(', 0) < chars.len() && find_char(&chars, ')', 0)
                < chars.len();
            proof {
                assert(tv[i as int] == token@);
                if i < upper_names@.len() {
                    assert(nv[i as int] == upper_names@[i as int]@);
                }
            }
            if calls {
                let name = if i < upper_names.len() {
                    upper_names[i].as_str()
                } else {
                    ""
                };
                proof {
                    reveal_strlit("");
                    assert(name@ =~= name_at(nv, i as int));
                    assert(is_call(tv[i as int]));
                }
                match self.function_named(token, name) {
                    Ok(f) => {
                        let ghost before = function_views(functions@);
                        functions.push(f);
                        proof {
                            assert(function_views(functions@) =~= before.push(f@));
                        }
                    },
                    Err(e) => {
                        proof {
                            lemma_bad_call_at(tv, nv, 0, i as int);
                            lemma_functions_fail(tv, nv, i as int, tv.len() as int);
                        }
                        return Err(e);
                    },
                }
            }
            i += 1;
        }
        Ok(functions)
    }

    /// The columns that the `GROUP BY` of a statement lists.
    pub fn parse_group_by(&self, tokens: &[&str]) -> (r: Result<Vec<String>, QueryError>)
        ensures
            ({
                let tv = token_views(tokens@);
                let g = word_at(tv, "GROUP"@, 0);
                match r {
                    Ok(columns) => {
                        &&& g + 1 < tv.len()
                        &&& uppercase(tv[g + 1]) == "BY"@
                        &&& text_views(columns@) == grouped_columns(tv, g)
                        &&& columns@.len() > 0
                    },
                    Err(e) => if g >= tv.len() {
                        e@ == QueryErrorView::SyntaxError("Expected GROUP keyword"@)
                    } else if g + 1 >= tv.len() || uppercase(tv[g + 1]) != "BY"@ {
                        e@ == QueryErrorView::SyntaxError("Expected BY after GROUP"@)
                    } else {
                        grouped_columns(tv, g).len() == 0 && e@ == QueryErrorView::SyntaxError(
                            "GROUP BY must specify at least one column"@,
                        )
                    },
                }
            }),
    {
        let ghost tv = token_views(tokens@);
        let g = find_word(tokens, "GROUP", 0);
        if g >= tokens.len() {
            return self.group_by_at(tokens, g, false, g);
        }
        if g + 1 >= tokens.len() {
            return self.group_by_at(tokens, g, false, g);
        }
        proof {
            assert(tv[g + 1] == tokens@[g + 1]@);
        }
        let by_word = is_word(tokens[g + 1], "BY");
        let mut cut: Vec<char> = Vec::new();
        cut.push(',');
        assert(cut@ =~= seq![',']);
        let start = g + 2;
        let mut i: usize = start;
        let mut done = false;
        while i < tokens.len() && !done
            invariant
                done ==> i < tokens@.len() && ends_group_by(tv[i as int]),
                start <= i <= tokens@.len(),
                start == g + 2,
                tv == token_views(tokens@),
                cut@ == seq![','],
                grouped_before(tv, start as int) == (i - start) + grouped_before(tv, i as int),
            decreases tokens@.len() - i + if done { 0int } else { 1int },
        {
            let token = trimmed_end(tokens[i], &cut);
            proof {
                assert(tv[i as int] == tokens@[i as int]@);
            }
            if is_word(token.as_str(), "ORDER") || is_word(token.as_str(), "HAVING") {
                done = true;
            } else {
                i += 1;
            }
        }
        proof {
            assert(grouped_before(tv, i as int) == 0);
            assert(grouped_before(tv, g + 2) == i - start);
            assert(by_word == (uppercase(tv[g + 1]) == "BY"@));
            assert(grouped_columns(tv, g as int) =~= Seq::new(
                (i - start) as nat,
                |k: int| trim_end(tv[g + 2 + k], seq![',']),
            ));
        }
        match self.group_by_at(tokens, g, by_word, i) {
            Ok(columns) => {
                proof {
                    assert(text_views(columns@).len() == i - start);
                    assert(text_views(columns@) =~= grouped_columns(tv, g as int));
                }
                Ok(columns)
            },
            Err(e) => {
                proof {
                    assert(!by_word || i == start);
                }
                Err(e)
            },
        }
    }

    /// The columns that a `GROUP BY` lists, given the place `g` of `GROUP`
    /// among the tokens, whether `BY` follows it, and the place `end` before
    /// which the list ends.
    pub fn group_by_at(&self, tokens: &[&str], g: usize, by_word: bool, end: usize) -> (r: Result<
        Vec<String>,
        QueryError,
    >)
        ensures
            match r {
                Ok(columns) => group_by_where(token_views(tokens@), g as int, by_word, end as int)
                    == Ok::<Seq<Seq<char>>, Seq<char>>(text_views(columns@)),
                Err(e) => match group_by_where(token_views(tokens@), g as int, by_word, end as int) {
                    Ok(_) => false,
                    Err(message) => e@ == QueryErrorView::SyntaxError(message),
                },
            },
    {
        let ghost tv = token_views(tokens@);
        let n = tokens.len();
        if g >= n {
            return Err(QueryError::SyntaxError(String::from_str("Expected GROUP keyword")));
        }
        if g + 1 >= n || !by_word {
            return Err(QueryError::SyntaxError(String::from_str("Expected BY after GROUP")));
        }
        let start = g + 2;
        let stop: usize = if end > n {
            n
        } else if end < start {
            start
        } else {
            end
        };
        if stop == start {
            return Err(
                QueryError::SyntaxError(
                    String::from_str("GROUP BY must specify at least one column"),
                ),
            );
        }
        let mut cut: Vec<char> = Vec::new();
        cut.push(',');
        assert(cut@ =~= seq![',']);
        let mut columns: Vec<String> = Vec::new();
        let mut i: usize = start;
        while i < stop
            invariant
                start <= i <= stop <= tokens@.len(),
                tv == token_views(tokens@),
                cut@ == seq![','],
                columns@.len() == i - start,
                forall|k: int|
                    0 <= k < i - start ==> (#[trigger] columns@[k])@ == trim_end(
                        tv[start + k],
                        seq![','],
                    ),
            decreases stop - i,
        {
            let token = trimmed_end(tokens[i], &cut);
            proof {
                assert(tv[i as int] == tokens@[i as int]@);
            }
            columns.push(token);
            i += 1;
        }
        proof {
            assert(text_views(columns@) =~= Seq::new(
                (stop - start) as nat,
                |i: int| trim_end(tv[g + 2 + i], seq![',']),
            ));
        }
        Ok(columns)
    }

    /// The name of a function in the head of a result.
    pub fn get_function_header(&self, function: &AggregateFunction) -> (r: String)
        ensures
            r@ == header_of(function@),
    {
        match function {
            AggregateFunction::Count(c) => String::from_str("COUNT(").concat(c.as_str()).concat(")"),
            AggregateFunction::Sum(c) => String::from_str("SUM(").concat(c.as_str()).concat(")"),
            AggregateFunction::Avg(c) => String::from_str("AVG(").concat(c.as_str()).concat(")"),
            AggregateFunction::Min(c) => String::from_str("MIN(").concat(c.as_str()).concat(")"),
            AggregateFunction::Max(c) => String::from_str("MAX(").concat(c.as_str()).concat(")"),
        }
    }
}

/// Where a call spells no function, the calls of the tokens spell no list.
proof fn lemma_functions_fail(tokens: Seq<Seq<char>>, names: Seq<Seq<char>>, k: int, n: int)
    requires
        0 <= k < n <= tokens.len(),
        is_bad_call(tokens, names, k),
    ensures
        functions_upto(tokens, names, n) is None,
    decreases n,
{
    if k < n - 1 {
        lemma_functions_fail(tokens, names, k, n - 1);
    }
}

/// The column that a function is over.
pub open spec fn function_column(f: FunctionView) -> Seq<char> {
    match f {
        FunctionView::Sum(c) => c,
        FunctionView::Count(c) => c,
        FunctionView::Avg(c) => c,
        FunctionView::Min(c) => c,
        FunctionView::Max(c) => c,
    }
}

/// Whether a function counts all rows: it is `COUNT(*)`.
pub open spec fn counts_rows(f: FunctionView) -> bool {
    f is Count && function_column(f) == "*"@
}

/// Whether a row has a value in the column at `place`: a text that is
/// neither empty nor `null`.
pub open spec fn has_value(row: Seq<Seq<char>>, place: int) -> bool {
    0 <= place < row.len() && row[place].len() > 0 && row[place] != "null"@
}

/// The values that the rows have in the column at `place`, in the order of
/// the rows.
pub open spec fn values_at(rows: Seq<Seq<Seq<char>>>, place: int) -> Seq<Seq<char>>
    decreases rows.len(),
{
    if rows.len() == 0 {
        Seq::empty()
    } else {
        let rest = values_at(rows.drop_last(), place);
        if has_value(rows.last(), place) {
            rest.push(rows.last()[place])
        } else {
            rest
        }
    }
}

/// The least of the values, in the order of their bytes; the empty text
/// where there is none.
pub open spec fn least_of(values: Seq<Seq<char>>) -> Seq<char>
    decreases values.len(),
{
    if values.len() == 0 {
        Seq::empty()
    } else if values.len() == 1 {
        values[0]
    } else {
        let rest = least_of(values.drop_last());
        if text_before(values.last(), rest) {
            values.last()
        } else {
            rest
        }
    }
}

/// The greatest of the values, in the order of their bytes; the empty text
/// where there is none.
pub open spec fn greatest_of(values: Seq<Seq<char>>) -> Seq<char>
    decreases values.len(),
{
    if values.len() == 0 {
        Seq::empty()
    } else if values.len() == 1 {
        values[0]
    } else {
        let rest = greatest_of(values.drop_last());
        if text_before(values.last(), rest) {
            rest
        } else {
            values.last()
        }
    }
}

impl AggregationParser {
    /// The place in the table of the column that a function is over;
    /// nothing for `COUNT(*)`. A column that the table does not have is
    /// refused.
    pub fn aggregate_column(&self, function: &AggregateFunction, table: &Table) -> (r: Result<
        Option<usize>,
        QueryError,
    >)
        ensures
            ({
                let column = function_column(function@);
                let place = column_place(table.columns@, column);
                match r {
                    Ok(None) => counts_rows(function@),
                    Ok(Some(p)) => !counts_rows(function@) && p == place && p < table.columns@.len(),
                    Err(e) => !counts_rows(function@) && place >= table.columns@.len() && e@
                        == QueryErrorView::ColumnNotFound(column),
                }
            }),
    {
        let column = match function {
            AggregateFunction::Count(c) => {
                if same_text(c.as_str(), "*") {
                    return Ok(None);
                }
                c
            },
            AggregateFunction::Sum(c) => c,
            AggregateFunction::Avg(c) => c,
            AggregateFunction::Min(c) => c,
            AggregateFunction::Max(c) => c,
        };
        match table.get_column_index(column.as_str()) {
            Some(p) => {
                proof {
                    lemma_column_place(table.columns@, column@, 0, p as int);
                }
                Ok(Some(p))
            },
            None => {
                proof {
                    lemma_column_place(table.columns@, column@, 0, table.columns@.len() as int);
                }
                Err(QueryError::ColumnNotFound(column.clone()))
            },
        }
    }

    /// The values that the rows have in the column at `place`.
    pub fn column_values(&self, rows: &[Vec<String>], place: usize) -> (r: Vec<String>)
        ensures
            text_views(r@) == values_at(row_views(rows@), place as int),
    {
        let ghost rv = row_views(rows@);
        let mut values: Vec<String> = Vec::new();
        let mut i: usize = 0;
        proof {
            assert(rv.subrange(0, 0) =~= Seq::<Seq<Seq<char>>>::empty());
            assert(text_views(values@) =~= Seq::<Seq<char>>::empty());
        }
        while i < rows.len()
            invariant
                i <= rows@.len(),
                rv == row_views(rows@),
                text_views(values@) == values_at(rv.subrange(0, i as int), place as int),
            decreases rows@.len() - i,
        {
            let row = &rows[i];
            proof {
                assert(rv[i as int] == text_views(row@));
                assert(rv.subrange(0, i + 1).drop_last() =~= rv.subrange(0, i as int));
                assert(rv.subrange(0, i + 1).last() == text_views(row@));
                if place < row@.len() {
                    assert(text_views(row@)[place as int] == row@[place as int]@);
                }
            }
            if place < row.len() && row[place].as_str().unicode_len() > 0 && !same_text(
                row[place].as_str(),
                "null",
            ) {
                let ghost before = text_views(values@);
                values.push(row[place].clone());
                proof {
                    assert(text_views(values@) =~= before.push(row@[place as int]@));
                }
            }
            i += 1;
        }
        proof {
            assert(rv.subrange(0, i as int) =~= rv);
        }
        values
    }

    /// The least of the values; the empty text where there is none.
    pub fn least_value(&self, values: &Vec<String>) -> (r: String)
        ensures
            r@ == least_of(text_views(values@)),
    {
        let ghost tv = text_views(values@);
        if values.len() == 0 {
            return String::new();
        }
        let mut best: usize = 0;
        let mut i: usize = 1;
        proof {
            assert(tv.subrange(0, 1)[0] == values@[0]@);
        }
        while i < values.len()
            invariant
                1 <= i <= values@.len(),
                best < i,
                tv == text_views(values@),
                values@[best as int]@ == least_of(tv.subrange(0, i as int)),
            decreases values@.len() - i,
        {
            proof {
                assert(tv.subrange(0, i + 1).drop_last() =~= tv.subrange(0, i as int));
                assert(tv.subrange(0, i + 1).last() == values@[i as int]@);
            }
            if goes_before(values[i].as_str(), values[best].as_str()) {
                best = i;
            }
            i += 1;
        }
        proof {
            assert(tv.subrange(0, i as int) =~= tv);
        }
        values[best].clone()
    }

    /// The greatest of the values; the empty text where there is none.
    pub fn greatest_value(&self, values: &Vec<String>) -> (r: String)
        ensures
            r@ == greatest_of(text_views(values@)),
    {
        let ghost tv = text_views(values@);
        if values.len() == 0 {
            return String::new();
        }
        let mut best: usize = 0;
        let mut i: usize = 1;
        proof {
            assert(tv.subrange(0, 1)[0] == values@[0]@);
        }
        while i < values.len()
            invariant
                1 <= i <= values@.len(),
                best < i,
                tv == text_views(values@),
                values@[best as int]@ == greatest_of(tv.subrange(0, i as int)),
            decreases values@.len() - i,
        {
            proof {
                assert(tv.subrange(0, i + 1).drop_last() =~= tv.subrange(0, i as int));
                assert(tv.subrange(0, i + 1).last() == values@[i as int]@);
            }
            if !goes_before(values[i].as_str(), values[best].as_str()) {
                best = i;
            }
            i += 1;
        }
        proof {
            assert(tv.subrange(0, i as int) =~= tv);
        }
        values[best].clone()
    }
}

} // verus!
