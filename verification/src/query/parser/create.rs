//! The `CREATE TABLE` statement: the name of the table and its columns.

use vstd::prelude::*;
use vstd::string::StringExecFns;
use vstd::utf8::encode_utf8;
use super::column::{text_views, token_views};
use super::insert::{begins_with, finishes_with};
use crate::metadata::column::{Column, ColumnType};
use crate::metadata::table::Table;
use crate::query::error::{QueryError, QueryErrorView};
use crate::query::words::{
    chars_of, cut_out, drop_spaces, end_of_text, find_char, find_space, find_until, has_char,
    index_of, is_space, is_word, join_tokens, joined_text, scan, skip_spaces, trim, trimmed,
    upper_text, uppercase,
};
use crate::text::{parse_decimal, parse_u64, same_text};

verus! {

/// The length that a text spells, where it spells one that the machine
/// holds.
pub open spec fn length_of(text: Seq<char>) -> Option<usize> {
    match parse_decimal(encode_utf8(text)) {
        Some(n) => if n <= usize::MAX {
            Some(n as usize)
        } else {
            None
        },
        None => None,
    }
}

/// The opening and the closing parenthesis.
pub open spec fn parens() -> Seq<char> {
    seq!['(', ')']
}

/// Whether a text begins with `VARCHAR`.
pub open spec fn is_varchar(name: Seq<char>) -> bool {
    name.len() >= 7 && name.subrange(0, 7) == "VARCHAR"@
}

/// The type that the words of a column definition behind the name spell,
/// or what the user is told: `INT`, `INTEGER`, `FLOAT`, `BOOLEAN`,
/// `TIMESTAMP`, `VARCHAR(<n>)` or `VARCHAR <n>`, in any case.
pub open spec fn column_type_of(parts: Seq<Seq<char>>) -> Result<ColumnType, Seq<char>> {
    column_type_named(
        parts,
        if parts.len() > 0 {
            uppercase(parts[0])
        } else {
            Seq::empty()
        },
    )
}

/// The type that the words of a column definition behind the name spell
/// where `name` is the first of them in upper case.
pub open spec fn column_type_named(parts: Seq<Seq<char>>, name: Seq<char>) -> Result<
    ColumnType,
    Seq<char>,
> {
    if parts.len() == 0 {
        Err("Unsupported column type: "@)
    } else if is_varchar(name) {
        if has_char(name, '(') {
            let start = index_of(name, '(', 0) + 1;
            let end = index_of(name, ')', 0);
            if end >= name.len() || end < start {
                Err("Missing closing parenthesis for VARCHAR"@)
            } else {
                match length_of(name.subrange(start, end)) {
                    Some(n) => Ok(ColumnType::Varchar(n)),
                    None => Err("Invalid length for VARCHAR: "@ + name.subrange(start, end)),
                }
            }
        } else if parts.len() >= 2 {
            match length_of(trim(parts[1], parens())) {
                Some(n) => Ok(ColumnType::Varchar(n)),
                None => Err("Invalid length for VARCHAR: "@ + trim(parts[1], parens())),
            }
        } else {
            Err("VARCHAR requires length specification"@)
        }
    } else if name == "INT"@ || name == "INTEGER"@ {
        Ok(ColumnType::Integer)
    } else if name == "FLOAT"@ {
        Ok(ColumnType::Float)
    } else if name == "BOOLEAN"@ {
        Ok(ColumnType::Boolean)
    } else if name == "TIMESTAMP"@ {
        Ok(ColumnType::Timestamp)
    } else {
        Err("Unsupported column type: "@ + parts[0])
    }
}

/// The words of the text between `from` and `to`: what stands between
/// white space.
pub open spec fn words_in(s: Seq<char>, from: int, to: int) -> Seq<Seq<char>>
    decreases to - from,
{
    if from < 0 || from > to || to > s.len() {
        Seq::empty()
    } else {
        let a = scan(s, |x: char| !is_space(x), from, to);
        let b = scan(s, |x: char| is_space(x), a, to);
        if a >= to || b <= a || b > to {
            Seq::empty()
        } else {
            seq![s.subrange(a, b)] + words_in(s, b, to)
        }
    }
}

/// A column as a statement defines it: its name and its type.
pub struct ColumnDefinition {
    pub name: Seq<char>,
    pub data_type: ColumnType,
}

/// The column that the definition between `from` and `to` spells, or what
/// the user is told: a name, then a type.
pub open spec fn definition_of(s: Seq<char>, from: int, to: int) -> Result<
    ColumnDefinition,
    Seq<char>,
> {
    let a = scan(s, |x: char| !is_space(x), from, to);
    let b = end_of_text(s, a, to);
    let words = words_in(s, a, b);
    if words.len() < 2 {
        Err("Invalid column definition: "@ + s.subrange(a, b))
    } else {
        match column_type_of(words.subrange(1, words.len() as int)) {
            Ok(data_type) => Ok(ColumnDefinition { name: words[0], data_type }),
            Err(message) => Err(message),
        }
    }
}

/// The columns that the definitions between `from` and `to` spell, one
/// definition between each two commas, or what the user is told of the
/// first that spells none.
pub open spec fn definitions_in(s: Seq<char>, from: int, to: int) -> Result<
    Seq<ColumnDefinition>,
    Seq<char>,
>
    decreases to - from,
{
    if from < 0 || from > to || to > s.len() {
        Ok(Seq::empty())
    } else {
        let end = scan(s, |x: char| x == ',', from, to);
        match definition_of(s, from, end) {
            Err(message) => Err(message),
            Ok(d) => if end < to {
                match definitions_in(s, end + 1, to) {
                    Ok(rest) => Ok(seq![d] + rest),
                    Err(message) => Err(message),
                }
            } else {
                Ok(seq![d])
            },
        }
    }
}

/// What a `CREATE TABLE` makes: the name of the table and its columns.
pub struct CreateView {
    pub name: Seq<char>,
    pub columns: Seq<ColumnDefinition>,
}

/// A text without the one opening parenthesis at its start and the one
/// closing parenthesis at its end, where it has them. Parentheses further
/// in stay: they belong to the types.
pub open spec fn unwrapped(text: Seq<char>) -> Seq<char> {
    let from: int = if begins_with(text, '(') {
        1
    } else {
        0
    };
    let to: int = if finishes_with(text, ')') && text.len() > from {
        text.len() - 1
    } else {
        text.len() as int
    };
    text.subrange(from, to)
}

/// The text of the column definitions of a statement: the tokens behind the
/// name of the table, put together with blanks, without the parentheses
/// around them.
pub open spec fn definitions_text(tokens: Seq<Seq<char>>) -> Seq<char> {
    unwrapped(joined_text(tokens.subrange(3, tokens.len() as int)))
}

/// The table that the tokens of a `CREATE TABLE` spell, or what the user is
/// told: `CREATE TABLE <name> [(<column> <type>, ...)]`.
pub open spec fn create_of(tokens: Seq<Seq<char>>) -> Result<CreateView, Seq<char>> {
    create_where(tokens, tokens.len() >= 3 && uppercase(tokens[1]) == "TABLE"@)
}

/// The table that the tokens of a `CREATE TABLE` spell, or what the user is
/// told, where `table_word` says whether the second token is the word
/// `TABLE`.
pub open spec fn create_where(tokens: Seq<Seq<char>>, table_word: bool) -> Result<
    CreateView,
    Seq<char>,
> {
    let n = tokens.len() as int;
    if n < 3 {
        Err("Invalid CREATE TABLE syntax"@)
    } else if !table_word {
        Err("Expected TABLE keyword"@)
    } else if n == 3 {
        Ok(CreateView { name: tokens[2], columns: Seq::empty() })
    } else if !begins_with(tokens[3], '(') || !finishes_with(tokens[n - 1], ')') {
        Err("Expected column definitions in parentheses"@)
    } else {
        let text = definitions_text(tokens);
        match definitions_in(text, 0, text.len() as int) {
            Ok(columns) => Ok(CreateView { name: tokens[2], columns }),
            Err(message) => Err(message),
        }
    }
}

/// What the columns of a table define.
pub open spec fn defined_by(columns: Seq<Column>) -> Seq<ColumnDefinition> {
    columns.map_values(|c: Column| ColumnDefinition { name: c.name@, data_type: c.data_type })
}

/// Reads `CREATE TABLE` statements.
pub struct CreateParser;

/// The length that a text spells.
fn read_length(text: &str) -> (r: Option<usize>)
    ensures
        r == length_of(text@),
{
    match parse_u64(text.as_bytes()) {
        Some(n) => if n <= usize::MAX as u64 {
            Some(n as usize)
        } else {
            None
        },
        None => None,
    }
}

/// Whether the characters begin with `VARCHAR`.
fn starts_varchar(chars: &Vec<char>) -> (r: bool)
    ensures
        r == is_varchar(chars@),
{
    proof {
        reveal_strlit("VARCHAR");
    }
    if chars.len() < 7 {
        return false;
    }
    let ghost head = chars@.subrange(0, 7);
    let ok = chars[0] == 'V' && chars[1] == 'A' && chars[2] == 'R' && chars[3] == 'C' && chars[4]
        == 'H' && chars[5] == 'A' && chars[6] == 'R';
    proof {
        assert(head[0] == chars@[0]);
        assert(head[1] == chars@[1]);
        assert(head[2] == chars@[2]);
        assert(head[3] == chars@[3]);
        assert(head[4] == chars@[4]);
        assert(head[5] == chars@[5]);
        assert(head[6] == chars@[6]);
        if ok {
            assert(head =~= "VARCHAR"@);
        }
    }
    ok
}

impl CreateParser {
    pub fn new() -> Self {
        CreateParser
    }

    /// The type that the words of a column definition behind the name
    /// spell.
    pub fn parse_column_type(&self, parts: &Vec<String>) -> (r: Result<ColumnType, QueryError>)
        ensures
            match r {
                Ok(t) => column_type_of(text_views(parts@)) == Ok::<ColumnType, Seq<char>>(t),
                Err(e) => match column_type_of(text_views(parts@)) {
                    Ok(_) => false,
                    Err(message) => e@ == QueryErrorView::SyntaxError(message),
                },
            },
    {
        let ghost pv = text_views(parts@);
        proof {
            if parts@.len() > 0 {
                assert(pv[0] == parts@[0]@);
            }
        }
        let name = if parts.len() > 0 {
            upper_text(parts[0].as_str())
        } else {
            String::new()
        };
        self.column_type_named(parts, name.as_str())
    }

    /// The type that the words of a column definition behind the name
    /// spell, given the first of them in upper case.
    pub fn column_type_named(&self, parts: &Vec<String>, name: &str) -> (r: Result<
        ColumnType,
        QueryError,
    >)
        ensures
            match r {
                Ok(t) => column_type_named(text_views(parts@), name@) == Ok::<ColumnType, Seq<char>>(
                    t,
                ),
                Err(e) => match column_type_named(text_views(parts@), name@) {
                    Ok(_) => false,
                    Err(message) => e@ == QueryErrorView::SyntaxError(message),
                },
            },
    {
        let ghost pv = text_views(parts@);
        if parts.len() == 0 {
            return Err(QueryError::SyntaxError(String::from_str("Unsupported column type: ")));
        }
        proof {
            assert(pv[0] == parts@[0]@);
        }
        let chars = chars_of(name);
        if starts_varchar(&chars) {
            let open = find_char(&chars, '(', 0);
            if open < chars.len() {
                let start = open + 1;
                let end = find_char(&chars, ')', 0);
                if end >= chars.len() || end < start {
                    return Err(
                        QueryError::SyntaxError(
                            String::from_str("Missing closing parenthesis for VARCHAR"),
                        ),
                    );
                }
                let digits = cut_out(name, start, end);
                match read_length(digits.as_str()) {
                    Some(n) => Ok(ColumnType::Varchar(n)),
                    None => Err(
                        QueryError::SyntaxError(
                            String::from_str("Invalid length for VARCHAR: ").concat(digits.as_str()),
                        ),
                    ),
                }
            } else if parts.len() >= 2 {
                let mut cut: Vec<char> = Vec::new();
                cut.push('(');
                cut.push(')');
                assert(cut@ =~= parens());
                proof {
                    assert(pv[1] == parts@[1]@);
                }
                let digits = trimmed(parts[1].as_str(), &cut);
                match read_length(digits.as_str()) {
                    Some(n) => Ok(ColumnType::Varchar(n)),
                    None => Err(
                        QueryError::SyntaxError(
                            String::from_str("Invalid length for VARCHAR: ").concat(digits.as_str()),
                        ),
                    ),
                }
            } else {
                Err(QueryError::SyntaxError(String::from_str("VARCHAR requires length specification")))
            }
        } else if same_text(name, "INT") || same_text(name, "INTEGER") {
            Ok(ColumnType::Integer)
        } else if same_text(name, "FLOAT") {
            Ok(ColumnType::Float)
        } else if same_text(name, "BOOLEAN") {
            Ok(ColumnType::Boolean)
        } else if same_text(name, "TIMESTAMP") {
            Ok(ColumnType::Timestamp)
        } else {
            Err(
                QueryError::SyntaxError(
                    String::from_str("Unsupported column type: ").concat(parts[0].as_str()),
                ),
            )
        }
    }

    /// The words of the text between `from` and `to`.
    fn split_words(&self, text: &str, chars: &Vec<char>, from: usize, to: usize) -> (r: Vec<String>)
        requires
            chars@ == text@,
            from <= to <= chars@.len(),
        ensures
            text_views(r@) == words_in(text@, from as int, to as int),
    {
        let ghost s = text@;
        let mut words: Vec<String> = Vec::new();
        let mut at: usize = from;
        let mut done = false;
        proof {
            assert(text_views(words@) + words_in(s, from as int, to as int) =~= words_in(
                s,
                from as int,
                to as int,
            ));
        }
        while !done
            invariant
                from <= at <= to <= chars@.len(),
                chars@ == text@,
                s == text@,
                words_in(s, from as int, to as int) == if done {
                    text_views(words@)
                } else {
                    text_views(words@) + words_in(s, at as int, to as int)
                },
            decreases to - at + if done { 0int } else { 1int },
        {
            let a = skip_spaces(chars, at, to);
            let b = find_space(chars, a, to);
            let ghost before = text_views(words@);
            if a >= to || b <= a {
                proof {
                    assert(before + Seq::<Seq<char>>::empty() =~= before);
                }
                done = true;
            } else {
                words.push(cut_out(text, a, b));
                proof {
                    assert(text_views(words@) =~= before.push(s.subrange(a as int, b as int)));
                    assert(before + (seq![s.subrange(a as int, b as int)] + words_in(
                        s,
                        b as int,
                        to as int,
                    )) =~= before.push(s.subrange(a as int, b as int)) + words_in(
                        s,
                        b as int,
                        to as int,
                    ));
                }
                at = b;
            }
        }
        words
    }

    /// The name of the table and the table itself, with the columns that
    /// the statement defines, each made now.
    pub fn parse_and_execute(&self, tokens: &[&str]) -> (r: Result<(String, Table), QueryError>)
        ensures
            match r {
                Ok(made) => {
                    &&& create_of(token_views(tokens@)) == Ok::<CreateView, Seq<char>>(
                        CreateView { name: made.0@, columns: defined_by(made.1.columns@) },
                    )
                    &&& made.1.name@ == made.0@
                    &&& made.1.primary_key is None
                    &&& made.1.indexes@.len() == 0
                    &&& forall|i: int|
                        0 <= i < made.1.columns@.len() ==> (#[trigger] made.1.columns@[i]).constraints@.len()
                            == 0 && made.1.columns@[i].default_value is None
                },
                Err(e) => match create_of(token_views(tokens@)) {
                    Ok(_) => false,
                    Err(message) => e@ == QueryErrorView::SyntaxError(message),
                },
            },
    {
        let ghost tv = token_views(tokens@);
        proof {
            if tokens@.len() >= 3 {
                assert(tv[1] == tokens@[1]@);
            }
        }
        let table_word = tokens.len() >= 3 && is_word(tokens[1], "TABLE");
        self.create_with(tokens, table_word)
    }

    /// The name of the table and the table itself, with the columns that
    /// the statement defines, where `table_word` says whether the second
    /// token is the word `TABLE`. One opening parenthesis in front of the
    /// definitions and one closing parenthesis behind them are taken off;
    /// those of a type stay with the type.
    pub fn create_with(&self, tokens: &[&str], table_word: bool) -> (r: Result<
        (String, Table),
        QueryError,
    >)
        ensures
            match r {
                Ok(made) => {
                    &&& create_where(token_views(tokens@), table_word) == Ok::<CreateView, Seq<char>>(
                        CreateView { name: made.0@, columns: defined_by(made.1.columns@) },
                    )
                    &&& made.1.name@ == made.0@
                    &&& made.1.primary_key is None
                    &&& made.1.indexes@.len() == 0
                    &&& forall|i: int|
                        0 <= i < made.1.columns@.len() ==> (#[trigger] made.1.columns@[i]).constraints@.len()
                            == 0 && made.1.columns@[i].default_value is None
                },
                Err(e) => match create_where(token_views(tokens@), table_word) {
                    Ok(_) => false,
                    Err(message) => e@ == QueryErrorView::SyntaxError(message),
                },
            },
    {
        let ghost tv = token_views(tokens@);
        let n = tokens.len();
        if n < 3 {
            return Err(QueryError::SyntaxError(String::from_str("Invalid CREATE TABLE syntax")));
        }
        proof {
            assert(tv[2] == tokens@[2]@);
        }
        if !table_word {
            return Err(QueryError::SyntaxError(String::from_str("Expected TABLE keyword")));
        }
        let table_name = String::from_str(tokens[2]);
        let mut table = Table::new(table_name.clone());
        if n == 3 {
            proof {
                assert(defined_by(table.columns@) =~= Seq::<ColumnDefinition>::empty());
            }
            return Ok((table_name, table));
        }
        let first = chars_of(tokens[3]);
        let last = chars_of(tokens[n - 1]);
        proof {
            assert(tv[3] == tokens@[3]@);
            assert(tv[n - 1] == tokens@[n - 1]@);
        }
        if !(first.len() > 0 && first[0] == '(') || !(last.len() > 0 && last[last.len() - 1] == ')') {
            return Err(
                QueryError::SyntaxError(String::from_str("Expected column definitions in parentheses")),
            );
        }
        let joined = join_tokens(tokens, 3);
        let all = chars_of(joined.as_str());
        let a: usize = if all.len() > 0 && all[0] == '(' { 1 } else { 0 };
        let b: usize = if all.len() > a && all[all.len() - 1] == ')' {
            all.len() - 1
        } else {
            all.len()
        };
        let text = cut_out(joined.as_str(), a, b);
        proof {
            assert(text@ == definitions_text(tv));
        }
        let chars = chars_of(text.as_str());
        let ghost s = text@;
        let to = chars.len();
        let mut at: usize = 0;
        let mut done = false;
        proof {
            assert(defined_by(table.columns@) =~= Seq::<ColumnDefinition>::empty());
        }
        while !done
            invariant
                at <= to,
                to == chars@.len(),
                chars@ == s,
                s == text@,
                s == definitions_text(tv),
                tv == token_views(tokens@),
                n == tokens@.len(),
                n > 3,
                table_word,
                begins_with(tv[3], '('),
                finishes_with(tv[n - 1], ')'),
                table_name@ == tv[2],
                table.name@ == table_name@,
                table.primary_key is None,
                table.indexes@.len() == 0,
                forall|i: int|
                    0 <= i < table.columns@.len() ==> (#[trigger] table.columns@[i]).constraints@.len()
                        == 0 && table.columns@[i].default_value is None,
                definitions_in(s, 0, to as int) == if done {
                    Ok::<Seq<ColumnDefinition>, Seq<char>>(defined_by(table.columns@))
                } else {
                    match definitions_in(s, at as int, to as int) {
                        Ok(rest) => Ok::<Seq<ColumnDefinition>, Seq<char>>(
                            defined_by(table.columns@) + rest,
                        ),
                        Err(message) => Err(message),
                    }
                },
            decreases to - at + if done { 0int } else { 1int },
        {
            let end = find_until(&chars, ',', at, to);
            let da = skip_spaces(&chars, at, end);
            let db = drop_spaces(&chars, da, end);
            let parts = self.split_words(text.as_str(), &chars, da, db);
            if parts.len() < 2 {
                let definition = cut_out(text.as_str(), da, db);
                return Err(
                    QueryError::SyntaxError(
                        String::from_str("Invalid column definition: ").concat(definition.as_str()),
                    ),
                );
            }
            let mut type_parts: Vec<String> = Vec::new();
            let mut k: usize = 1;
            while k < parts.len()
                invariant
                    1 <= k <= parts@.len(),
                    type_parts@.len() == k - 1,
                    forall|j: int| 0 <= j < k - 1 ==> (#[trigger] type_parts@[j])@ == parts@[j + 1]@,
                decreases parts@.len() - k,
            {
                type_parts.push(parts[k].clone());
                k += 1;
            }
            proof {
                assert(text_views(type_parts@) =~= text_views(parts@).subrange(
                    1,
                    parts@.len() as int,
                ));
            }
            let data_type = match self.parse_column_type(&type_parts) {
                Ok(t) => t,
                Err(e) => {
                    return Err(e);
                },
            };
            let ghost before = defined_by(table.columns@);
            let column = Column::new(parts[0].clone(), data_type);
            let ghost d = ColumnDefinition { name: column.name@, data_type: column.data_type };
            table.add_column(column);
            proof {
                assert(text_views(parts@)[0] == parts@[0]@);
                assert(defined_by(table.columns@) =~= before.push(d));
                assert(definition_of(s, at as int, end as int) == Ok::<ColumnDefinition, Seq<char>>(d));
            }
            if end < to {
                proof {
                    match definitions_in(s, end + 1, to as int) {
                        Ok(rest) => {
                            assert(before + (seq![d] + rest) =~= before.push(d) + rest);
                        },
                        Err(_) => {},
                    }
                }
                at = end + 1;
            } else {
                proof {
                    assert(before + seq![d] =~= before.push(d));
                }
                done = true;
            }
        }
        Ok((table_name, table))
    }
}

} // verus!
