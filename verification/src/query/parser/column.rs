//! The list of columns of a `SELECT`.

use vstd::prelude::*;
use vstd::string::{StrSliceExecFns, StringExecFns};
use crate::query::error::{QueryError, QueryErrorView};
use crate::query::words::{is_word, trim, trimmed, uppercase};

verus! {

/// What each token says.
pub open spec fn token_views(tokens: Seq<&str>) -> Seq<Seq<char>> {
    tokens.map_values(|t: &str| t@)
}

/// What each text says.
pub open spec fn text_views(texts: Seq<String>) -> Seq<Seq<char>> {
    texts.map_values(|t: String| t@)
}

/// How many tokens lie from `from` on before the first that is the key word
/// `word`, or the end.
pub open spec fn words_before(tokens: Seq<Seq<char>>, word: Seq<char>, from: int) -> nat
    decreases tokens.len() - from,
{
    if from < 0 || from >= tokens.len() || uppercase(tokens[from]) == word {
        0
    } else {
        1 + words_before(tokens, word, from + 1)
    }
}

/// The place of the first token at or after `from` that is the key word
/// `word`, in any case; the number of tokens if there is none.
pub open spec fn word_at(tokens: Seq<Seq<char>>, word: Seq<char>, from: int) -> int {
    from + words_before(tokens, word, from)
}

/// The first key word at or after `from` is where it is found.
pub proof fn lemma_word_at(tokens: Seq<Seq<char>>, word: Seq<char>, from: int, at: int)
    requires
        0 <= from <= at <= tokens.len(),
        forall|k: int| from <= k < at ==> uppercase(#[trigger] tokens[k]) != word,
        at == tokens.len() || uppercase(tokens[at]) == word,
    ensures
        word_at(tokens, word, from) == at,
    decreases at - from,
{
    if from < at {
        lemma_word_at(tokens, word, from + 1, at);
    }
}

/// The place of the first token at or after `from` that is the key word
/// `word`; the number of tokens if there is none.
pub fn find_word(tokens: &[&str], word: &str, from: usize) -> (r: usize)
    requires
        from <= tokens@.len(),
    ensures
        r == word_at(token_views(tokens@), word@, from as int),
        from <= r <= tokens@.len(),
{
    let mut i: usize = from;
    while i < tokens.len() && !is_word(tokens[i], word)
        invariant
            from <= i <= tokens@.len(),
            forall|k: int| from <= k < i ==> uppercase(#[trigger] token_views(tokens@)[k]) != word@,
        decreases tokens@.len() - i,
    {
        i += 1;
    }
    proof {
        lemma_word_at(token_views(tokens@), word@, from as int, i as int);
    }
    i
}

/// The comma alone.
pub open spec fn comma() -> Seq<char> {
    seq![',']
}

/// The names of the columns that the tokens up to `FROM` list: each token
/// without the commas around it.
pub open spec fn listed_columns(tokens: Seq<Seq<char>>) -> Seq<Seq<char>> {
    listed_before(tokens, word_at(tokens, "FROM"@, 0))
}

/// The names of the columns that the tokens before the place `end` list:
/// each token without the commas around it.
pub open spec fn listed_before(tokens: Seq<Seq<char>>, end: int) -> Seq<Seq<char>> {
    Seq::new(
        if 0 <= end <= tokens.len() {
            end as nat
        } else {
            tokens.len()
        },
        |i: int| trim(tokens[i], comma()),
    )
}

/// The columns that the tokens before the place `end` list, or what the
/// user is told.
pub open spec fn column_list_before(tokens: Seq<Seq<char>>, end: int) -> Result<
    Seq<Seq<char>>,
    Seq<char>,
> {
    let listed = listed_before(tokens, end);
    if exists|i: int| 0 <= i < listed.len() && (#[trigger] listed[i]).len() == 0 {
        Err("Empty column name"@)
    } else if listed.len() == 0 {
        Err("No columns specified"@)
    } else {
        Ok(listed)
    }
}

/// The columns that the tokens up to `FROM` list, or what the user is told:
/// a token of commas alone names no column, and a list must name one.
pub open spec fn column_list_of(tokens: Seq<Seq<char>>) -> Result<Seq<Seq<char>>, Seq<char>> {
    column_list_before(tokens, word_at(tokens, "FROM"@, 0))
}

/// Reads lists of column names.
pub struct ColumnParser;

impl ColumnParser {
    pub fn new() -> Self {
        ColumnParser
    }

    /// The names of the columns that the tokens up to `FROM` list. A token
    /// of commas alone, and a list of no column at all, are refused.
    pub fn parse_column_list(&self, tokens: &[&str]) -> (r: Result<Vec<String>, QueryError>)
        ensures
            match r {
                Ok(columns) => column_list_of(token_views(tokens@)) == Ok::<Seq<Seq<char>>, Seq<char>>(
                    text_views(columns@),
                ),
                Err(e) => match column_list_of(token_views(tokens@)) {
                    Ok(_) => false,
                    Err(message) => e@ == QueryErrorView::SyntaxError(message),
                },
            },
    {
        let end = find_word(tokens, "FROM", 0);
        self.columns_before(tokens, end)
    }

    /// The names of the columns that the tokens before the place `end`
    /// list; a place behind the end stands for the end.
    pub fn columns_before(&self, tokens: &[&str], end: usize) -> (r: Result<Vec<String>, QueryError>)
        ensures
            match r {
                Ok(columns) => column_list_before(token_views(tokens@), end as int) == Ok::<
                    Seq<Seq<char>>,
                    Seq<char>,
                >(text_views(columns@)),
                Err(e) => match column_list_before(token_views(tokens@), end as int) {
                    Ok(_) => false,
                    Err(message) => e@ == QueryErrorView::SyntaxError(message),
                },
            },
    {
        let ghost tv = token_views(tokens@);
        let ghost listed = listed_before(tv, end as int);
        let stop = if end <= tokens.len() { end } else { tokens.len() };
        let mut cut: Vec<char> = Vec::new();
        cut.push(',');
        assert(cut@ =~= comma());
        let mut columns: Vec<String> = Vec::new();
        let mut i: usize = 0;
        while i < stop
            invariant
                i <= stop <= tokens@.len(),
                tv == token_views(tokens@),
                listed == listed_before(tv, end as int),
                listed.len() == stop,
                forall|k: int| 0 <= k < stop ==> #[trigger] listed[k] == trim(tv[k], comma()),
                cut@ == comma(),
                columns@.len() == i,
                forall|k: int| 0 <= k < i ==> (#[trigger] columns@[k])@ == listed[k],
                forall|k: int| 0 <= k < i ==> (#[trigger] listed[k]).len() > 0,
            decreases stop - i,
        {
            let col = trimmed(tokens[i], &cut);
            proof {
                assert(tv[i as int] == tokens@[i as int]@);
                assert(col@ == listed[i as int]);
            }
            if col.as_str().unicode_len() == 0 {
                return Err(QueryError::SyntaxError(String::from_str("Empty column name")));
            }
            columns.push(col);
            i += 1;
        }
        if columns.len() == 0 {
            return Err(QueryError::SyntaxError(String::from_str("No columns specified")));
        }
        proof {
            assert(text_views(columns@) =~= listed);
        }
        Ok(columns)
    }
}

} // verus!
