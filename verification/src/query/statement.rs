//! The kind of a statement and the tables that it is about.

use vstd::prelude::*;
use vstd::string::StringExecFns;
use super::error::{QueryError, QueryErrorView};
use super::parser::column::{find_word, token_views, word_at};
use super::words::{is_word, upper_text, uppercase};
use crate::text::same_text;

verus! {

/// A statement by its first word, with the tables that it names.
#[derive(Debug)]
pub enum Statement {
    Select { table: String },
    Join { left: String, right: String },
    Insert { table: String },
    Update { table: String },
    Delete { table: String },
    Create,
    Drop { table: String },
}

/// What a statement is about.
pub enum StatementView {
    Select { table: Seq<char> },
    Join { left: Seq<char>, right: Seq<char> },
    Insert { table: Seq<char> },
    Update { table: Seq<char> },
    Delete { table: Seq<char> },
    Create,
    Drop { table: Seq<char> },
}

impl View for Statement {
    type V = StatementView;

    open spec fn view(&self) -> StatementView {
        match self {
            Statement::Select { table } => StatementView::Select { table: table@ },
            Statement::Join { left, right } => StatementView::Join { left: left@, right: right@ },
            Statement::Insert { table } => StatementView::Insert { table: table@ },
            Statement::Update { table } => StatementView::Update { table: table@ },
            Statement::Delete { table } => StatementView::Delete { table: table@ },
            Statement::Create => StatementView::Create,
            Statement::Drop { table } => StatementView::Drop { table: table@ },
        }
    }
}

/// The `SELECT` that the tokens spell, or what the user is told. With
/// `JOIN` among the tokens it is a join of the table behind `FROM` and the
/// table behind `JOIN`; else the table stands behind `FROM`, which is the
/// third token where the second is `*`.
pub open spec fn select_of(tokens: Seq<Seq<char>>) -> Result<StatementView, Seq<char>> {
    select_where(tokens, word_at(tokens, "FROM"@, 0), word_at(tokens, "JOIN"@, 0))
}

/// The `SELECT` that the tokens spell where `FROM` and `JOIN` stand at the
/// places `from` and `join`; a place at or behind the end says that the
/// word is missing.
pub open spec fn select_where(tokens: Seq<Seq<char>>, from: int, join: int) -> Result<
    StatementView,
    Seq<char>,
> {
    let n = tokens.len() as int;
    if n < 4 {
        Err("Invalid SELECT syntax"@)
    } else if join < n {
        if from >= n {
            Err("Expected FROM clause"@)
        } else if from + 1 >= n || join + 1 >= n {
            Err("Invalid JOIN syntax"@)
        } else {
            Ok(StatementView::Join { left: tokens[from + 1], right: tokens[join + 1] })
        }
    } else {
        let at = if tokens[1] == "*"@ {
            2
        } else {
            from
        };
        if at >= n {
            Err("Expected FROM clause"@)
        } else if at + 1 >= n {
            Err("Invalid SELECT syntax"@)
        } else {
            Ok(StatementView::Select { table: tokens[at + 1] })
        }
    }
}

/// The statement that the tokens spell, or what the user is told. The first
/// token says the kind, in any case.
pub open spec fn statement_of(tokens: Seq<Seq<char>>) -> Result<StatementView, Seq<char>> {
    statement_where(
        tokens,
        if tokens.len() > 0 {
            uppercase(tokens[0])
        } else {
            Seq::empty()
        },
        word_at(tokens, "FROM"@, 0),
        word_at(tokens, "JOIN"@, 0),
        tokens.len() > 1 && uppercase(tokens[1]) == "TABLE"@,
    )
}

/// The statement that the tokens spell where `word` is the first token in
/// upper case, `FROM` and `JOIN` stand at the places `from` and `join`, and
/// `table_word` says whether the second token is `TABLE`.
pub open spec fn statement_where(
    tokens: Seq<Seq<char>>,
    word: Seq<char>,
    from: int,
    join: int,
    table_word: bool,
) -> Result<StatementView, Seq<char>> {
    let n = tokens.len() as int;
    if n == 0 {
        Err("Empty query"@)
    } else {
        if word == "SELECT"@ {
            select_where(tokens, from, join)
        } else if word == "INSERT"@ {
            if n < 4 {
                Err("Invalid INSERT syntax"@)
            } else {
                Ok(StatementView::Insert { table: tokens[2] })
            }
        } else if word == "UPDATE"@ {
            if n < 4 {
                Err("Invalid UPDATE syntax"@)
            } else {
                Ok(StatementView::Update { table: tokens[1] })
            }
        } else if word == "DELETE"@ {
            if n < 3 {
                Err("Invalid DELETE syntax"@)
            } else {
                Ok(StatementView::Delete { table: tokens[2] })
            }
        } else if word == "CREATE"@ {
            if n < 3 {
                Err("Invalid CREATE TABLE syntax"@)
            } else {
                Ok(StatementView::Create)
            }
        } else if word == "DROP"@ {
            if n < 3 {
                Err("Invalid DROP TABLE syntax"@)
            } else if !table_word {
                Err("Expected TABLE keyword"@)
            } else {
                Ok(StatementView::Drop { table: tokens[2] })
            }
        } else {
            Err("Unknown command: "@ + tokens[0])
        }
    }
}

/// The `SELECT` that the tokens spell, given the places of `FROM` and
/// `JOIN` among them; a place at or behind the end says that the word is
/// missing.
pub fn select_at(tokens: &[&str], from: usize, join: usize) -> (r: Result<Statement, QueryError>)
    ensures
        match r {
            Ok(s) => select_where(token_views(tokens@), from as int, join as int) == Ok::<
                StatementView,
                Seq<char>,
            >(s@),
            Err(e) => match select_where(token_views(tokens@), from as int, join as int) {
                Ok(_) => false,
                Err(message) => e@ == QueryErrorView::SyntaxError(message),
            },
        },
{
    let ghost tv = token_views(tokens@);
    let n = tokens.len();
    if n < 4 {
        return Err(QueryError::SyntaxError(String::from_str("Invalid SELECT syntax")));
    }
    if join < n {
        if from >= n {
            return Err(QueryError::SyntaxError(String::from_str("Expected FROM clause")));
        }
        if n - from <= 1 || n - join <= 1 {
            return Err(QueryError::SyntaxError(String::from_str("Invalid JOIN syntax")));
        }
        proof {
            assert(tv[from + 1] == tokens@[from + 1]@);
            assert(tv[join + 1] == tokens@[join + 1]@);
        }
        return Ok(
            Statement::Join {
                left: String::from_str(tokens[from + 1]),
                right: String::from_str(tokens[join + 1]),
            },
        );
    }
    proof {
        assert(tv[1] == tokens@[1]@);
    }
    let at = if same_text(tokens[1], "*") { 2 } else { from };
    if at >= n {
        return Err(QueryError::SyntaxError(String::from_str("Expected FROM clause")));
    }
    if n - at <= 1 {
        return Err(QueryError::SyntaxError(String::from_str("Invalid SELECT syntax")));
    }
    proof {
        assert(tv[at + 1] == tokens@[at + 1]@);
    }
    Ok(Statement::Select { table: String::from_str(tokens[at + 1]) })
}

/// The statement that the tokens spell.
pub fn parse_statement(tokens: &[&str]) -> (r: Result<Statement, QueryError>)
    ensures
        match r {
            Ok(s) => statement_of(token_views(tokens@)) == Ok::<StatementView, Seq<char>>(s@),
            Err(e) => match statement_of(token_views(tokens@)) {
                Ok(_) => false,
                Err(message) => e@ == QueryErrorView::SyntaxError(message),
            },
        },
{
    let ghost tv = token_views(tokens@);
    proof {
        if tokens@.len() > 0 {
            assert(tv[0] == tokens@[0]@);
        }
        if tokens@.len() > 1 {
            assert(tv[1] == tokens@[1]@);
        }
    }
    let word = if tokens.len() > 0 {
        upper_text(tokens[0])
    } else {
        String::new()
    };
    let from = find_word(tokens, "FROM", 0);
    let join = find_word(tokens, "JOIN", 0);
    let table_word = tokens.len() > 1 && is_word(tokens[1], "TABLE");
    statement_for(tokens, word.as_str(), from, join, table_word)
}

/// The statement that the tokens spell, given the first token in upper
/// case, the places of `FROM` and `JOIN`, and whether the second token is
/// `TABLE`.
pub fn statement_for(tokens: &[&str], word: &str, from: usize, join: usize, table_word: bool) -> (r:
    Result<Statement, QueryError>)
    ensures
        match r {
            Ok(s) => statement_where(token_views(tokens@), word@, from as int, join as int, table_word)
                == Ok::<StatementView, Seq<char>>(s@),
            Err(e) => match statement_where(
                token_views(tokens@),
                word@,
                from as int,
                join as int,
                table_word,
            ) {
                Ok(_) => false,
                Err(message) => e@ == QueryErrorView::SyntaxError(message),
            },
        },
{
    let ghost tv = token_views(tokens@);
    let n = tokens.len();
    if n == 0 {
        return Err(QueryError::SyntaxError(String::from_str("Empty query")));
    }
    proof {
        assert(tv[0] == tokens@[0]@);
        if n > 1 {
            assert(tv[1] == tokens@[1]@);
        }
        if n > 2 {
            assert(tv[2] == tokens@[2]@);
        }
    }
    if same_text(word, "SELECT") {
        select_at(tokens, from, join)
    } else if same_text(word, "INSERT") {
        if n < 4 {
            return Err(QueryError::SyntaxError(String::from_str("Invalid INSERT syntax")));
        }
        Ok(Statement::Insert { table: String::from_str(tokens[2]) })
    } else if same_text(word, "UPDATE") {
        if n < 4 {
            return Err(QueryError::SyntaxError(String::from_str("Invalid UPDATE syntax")));
        }
        Ok(Statement::Update { table: String::from_str(tokens[1]) })
    } else if same_text(word, "DELETE") {
        if n < 3 {
            return Err(QueryError::SyntaxError(String::from_str("Invalid DELETE syntax")));
        }
        Ok(Statement::Delete { table: String::from_str(tokens[2]) })
    } else if same_text(word, "CREATE") {
        if n < 3 {
            return Err(QueryError::SyntaxError(String::from_str("Invalid CREATE TABLE syntax")));
        }
        Ok(Statement::Create)
    } else if same_text(word, "DROP") {
        if n < 3 {
            return Err(QueryError::SyntaxError(String::from_str("Invalid DROP TABLE syntax")));
        }
        if !table_word {
            return Err(QueryError::SyntaxError(String::from_str("Expected TABLE keyword")));
        }
        Ok(Statement::Drop { table: String::from_str(tokens[2]) })
    } else {
        Err(QueryError::SyntaxError(String::from_str("Unknown command: ").concat(tokens[0])))
    }
}

} // verus!
