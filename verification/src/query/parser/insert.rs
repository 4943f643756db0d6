//! The `INSERT` statement: its columns, its groups of values, and the bytes
//! of a row.

use vstd::prelude::*;
use vstd::string::{StrSliceExecFns, StringExecFns};
use super::column::{find_word, text_views, token_views, word_at};
use super::join::row_views;
use crate::codec::{convert_value_to_bytes, encoded, value_of_text};
use crate::metadata::column::{value_fits, Column};
use crate::metadata::table::Table;
use crate::query::error::{QueryError, QueryErrorView};
use crate::query::words::{
    chars_of, cut_out, drop_spaces, end_of_text, find_until, is_space, is_word, join_tokens,
    joined_text, scan, skip_spaces, trim, trimmed, uppercase,
};
use crate::storage::block::{has_id, Block};
use crate::storage::record::{Record, RecordView};
use crate::storage::sorted::views;
use crate::text::{append_decimal, decimal_chars, same_text};

verus! {

/// The parentheses and the comma.
pub open spec fn list_marks() -> Seq<char> {
    seq!['(', ')', ',']
}

/// The names that the tokens of a column list give: each token without the
/// parentheses and commas around it, but for the tokens of which nothing is
/// left.
pub open spec fn named_columns(tokens: Seq<Seq<char>>) -> Seq<Seq<char>>
    decreases tokens.len(),
{
    if tokens.len() == 0 {
        Seq::empty()
    } else {
        let rest = named_columns(tokens.drop_last());
        let name = trim(tokens.last(), list_marks());
        if name.len() > 0 {
            rest.push(name)
        } else {
            rest
        }
    }
}

/// The values of a group: the text between `from` and `to` cut at the
/// commas, each piece without the white space around it, but for the pieces
/// of which nothing is left.
pub open spec fn values_in(s: Seq<char>, from: int, to: int) -> Seq<Seq<char>>
    decreases to - from,
{
    if from < 0 || from > to || to > s.len() {
        Seq::empty()
    } else {
        let end = scan(s, |x: char| x == ',', from, to);
        let a = scan(s, |x: char| !is_space(x), from, end);
        let b = end_of_text(s, a, end);
        let here = if a < b {
            seq![s.subrange(a, b)]
        } else {
            Seq::empty()
        };
        if end < to {
            here + values_in(s, end + 1, to)
        } else {
            here
        }
    }
}

/// The groups of values that the text from `i` on holds, where `start` is
/// the place behind the last opening parenthesis that has not been closed.
/// A group runs from there to the next closing parenthesis. The result is
/// nothing where a group holds no value.
pub open spec fn groups_from(s: Seq<char>, i: int, start: Option<int>) -> Option<Seq<Seq<Seq<char>>>>
    decreases s.len() - i,
{
    if i < 0 || i >= s.len() {
        Some(Seq::empty())
    } else if s[i] == '(' {
        groups_from(s, i + 1, Some(i + 1))
    } else if s[i] == ')' && start is Some {
        let row = values_in(s, start.unwrap(), i);
        if row.len() == 0 {
            None
        } else {
            match groups_from(s, i + 1, None) {
                Some(rest) => Some(seq![row] + rest),
                None => None,
            }
        }
    } else {
        groups_from(s, i + 1, start)
    }
}

/// The greatest key among the records of the blocks from place `from` on;
/// zero if there is no record.
pub open spec fn greatest_id(blocks: Seq<Seq<RecordView>>, k: int, i: int) -> u64
    decreases blocks.len() - k, (if 0 <= k < blocks.len() { blocks[k].len() - i } else { 0 }),
{
    if k < 0 || k >= blocks.len() {
        0
    } else if i < 0 || i >= blocks[k].len() {
        greatest_id(blocks, k + 1, 0)
    } else {
        let rest = greatest_id(blocks, k, i + 1);
        if blocks[k][i].id > rest {
            blocks[k][i].id
        } else {
            rest
        }
    }
}

/// The greatest key among the records from place `i` on; zero if there is
/// none.
pub open spec fn greatest_key(records: Seq<RecordView>, i: int) -> u64
    decreases records.len() - i,
{
    if i < 0 || i >= records.len() {
        0
    } else {
        let rest = greatest_key(records, i + 1);
        if records[i].id > rest {
            records[i].id
        } else {
            rest
        }
    }
}

/// What each block holds.
/// How many records a block takes before a new block is begun.
pub const BLOCK_CAPACITY: usize = 1000;

/// The blocks after a record was stored in them: it goes behind the records
/// of the last block where that block has room, unless the block holds its
/// key already; where there is no block, or the last is full, it begins a
/// new block.
pub open spec fn stored(blocks: Seq<Seq<RecordView>>, r: RecordView) -> Seq<Seq<RecordView>> {
    if blocks.len() > 0 && blocks.last().len() < BLOCK_CAPACITY {
        if has_id(blocks.last(), r.id) {
            blocks
        } else {
            blocks.drop_last().push(blocks.last().push(r))
        }
    } else {
        blocks.push(seq![r])
    }
}

pub open spec fn block_views(blocks: Seq<Block>) -> Seq<Seq<RecordView>> {
    blocks.map_values(|b: Block| b@)
}

/// Reads `INSERT` statements.
pub struct InsertParser;

impl InsertParser {
    pub fn new() -> Self {
        InsertParser
    }

    /// The names that the tokens of a column list give. A list that names
    /// nothing is refused.
    pub fn parse_column_list(&self, tokens: &[&str]) -> (r: Result<Vec<String>, QueryError>)
        ensures
            match r {
                Ok(columns) => text_views(columns@) == named_columns(token_views(tokens@))
                    && columns@.len() > 0,
                Err(e) => named_columns(token_views(tokens@)).len() == 0 && e@
                    == QueryErrorView::SyntaxError("No columns specified"@),
            },
    {
        let ghost tv = token_views(tokens@);
        let mut cut: Vec<char> = Vec::new();
        cut.push('(');
        cut.push(')');
        cut.push(',');
        assert(cut@ =~= list_marks());
        let mut columns: Vec<String> = Vec::new();
        let mut i: usize = 0;
        proof {
            assert(tv.subrange(0, 0) =~= Seq::<Seq<char>>::empty());
            assert(text_views(columns@) =~= Seq::<Seq<char>>::empty());
        }
        while i < tokens.len()
            invariant
                i <= tokens@.len(),
                tv == token_views(tokens@),
                cut@ == list_marks(),
                text_views(columns@) == named_columns(tv.subrange(0, i as int)),
            decreases tokens@.len() - i,
        {
            let name = trimmed(tokens[i], &cut);
            proof {
                assert(tv[i as int] == tokens@[i as int]@);
                assert(tv.subrange(0, i + 1).drop_last() =~= tv.subrange(0, i as int));
                assert(tv.subrange(0, i + 1).last() == tokens@[i as int]@);
            }
            if name.as_str().unicode_len() > 0 {
                let ghost before = text_views(columns@);
                columns.push(name);
                proof {
                    assert(text_views(columns@) =~= before.push(name@));
                }
            }
            i += 1;
        }
        proof {
            assert(tv.subrange(0, i as int) =~= tv);
        }
        if columns.len() == 0 {
            return Err(QueryError::SyntaxError(String::from_str("No columns specified")));
        }
        Ok(columns)
    }

    /// The values of one group of the text.
    fn group_values(&self, text: &str, chars: &Vec<char>, from: usize, to: usize) -> (r: Vec<String>)
        requires
            chars@ == text@,
            from <= to <= chars@.len(),
        ensures
            text_views(r@) == values_in(text@, from as int, to as int),
    {
        let mut row: Vec<String> = Vec::new();
        let mut at: usize = from;
        let mut done = false;
        let ghost s = text@;
        proof {
            assert(text_views(row@) + values_in(s, from as int, to as int) =~= values_in(
                s,
                from as int,
                to as int,
            ));
        }
        while !done
            invariant
                from <= at <= to <= chars@.len(),
                chars@ == text@,
                s == text@,
                values_in(s, from as int, to as int) == if done {
                    text_views(row@)
                } else {
                    text_views(row@) + values_in(s, at as int, to as int)
                },
            decreases to - at + if done { 0int } else { 1int },
        {
            let end = find_until(chars, ',', at, to);
            let a = skip_spaces(chars, at, end);
            let b = drop_spaces(chars, a, end);
            let ghost before = text_views(row@);
            let ghost here = if a < b {
                seq![s.subrange(a as int, b as int)]
            } else {
                Seq::<Seq<char>>::empty()
            };
            if a < b {
                row.push(cut_out(text, a, b));
            }
            proof {
                assert(text_views(row@) =~= before + here);
            }
            if end < to {
                proof {
                    assert(before + (here + values_in(s, end + 1, to as int)) =~= (before + here)
                        + values_in(s, end + 1, to as int));
                }
                at = end + 1;
            } else {
                proof {
                    assert(before + here =~= text_views(row@));
                }
                done = true;
            }
        }
        row
    }

    /// The groups of values of a statement: the tokens behind `VALUES`, put
    /// together with blanks, hold one group in parentheses for each row.
    /// A group without a value is refused, and so is a text without a group.
    pub fn parse_values(&self, tokens: &[&str]) -> (r: Result<Vec<Vec<String>>, QueryError>)
        ensures
            ({
                let text = joined_text(token_views(tokens@));
                match r {
                    Ok(values) => groups_from(text, 0, None) == Some(row_views(values@))
                        && values@.len() > 0,
                    Err(e) => match groups_from(text, 0, None) {
                        None => e@ == QueryErrorView::SyntaxError("No values specified in group"@),
                        Some(groups) => groups.len() == 0 && e@ == QueryErrorView::SyntaxError(
                            "No values specified"@,
                        ),
                    },
                }
            }),
    {
        let joined = join_tokens(tokens, 0);
        proof {
            assert(token_views(tokens@).subrange(0, tokens@.len() as int) =~= token_views(tokens@));
        }
        let chars = chars_of(joined.as_str());
        let ghost s = joined@;
        let mut values: Vec<Vec<String>> = Vec::new();
        let mut start: Option<usize> = None;
        let mut i: usize = 0;
        while i < chars.len()
            invariant
                i <= chars@.len(),
                chars@ == s,
                s == joined@,
                s == joined_text(token_views(tokens@)),
                match start {
                    Some(a) => a <= i,
                    None => true,
                },
                groups_from(s, 0, None) == match groups_from(
                    s,
                    i as int,
                    match start {
                        Some(a) => Some(a as int),
                        None => None,
                    },
                ) {
                    Some(rest) => Some(row_views(values@) + rest),
                    None => None,
                },
            decreases chars@.len() - i,
        {
            let c = chars[i];
            if c == '(' {
                start = Some(i + 1);
            } else if c == ')' {
                match start {
                    Some(a) => {
                        let row = self.group_values(joined.as_str(), &chars, a, i);
                        if row.len() == 0 {
                            proof {
                                assert(groups_from(s, i as int, Some(a as int)) is None);
                            }
                            return Err(
                                QueryError::SyntaxError(
                                    String::from_str("No values specified in group"),
                                ),
                            );
                        }
                        let ghost before = row_views(values@);
                        values.push(row);
                        proof {
                            assert(row_views(values@) =~= before.push(text_views(row@)));
                            match groups_from(s, i + 1, None) {
                                Some(rest) => {
                                    assert(before + (seq![text_views(row@)] + rest) =~= row_views(
                                        values@,
                                    ) + rest);
                                },
                                None => {},
                            }
                        }
                        start = None;
                    },
                    None => {},
                }
            }
            i += 1;
        }
        proof {
            assert(row_views(values@) + Seq::<Seq<Seq<char>>>::empty() =~= row_views(values@));
        }
        if values.len() == 0 {
            return Err(QueryError::SyntaxError(String::from_str("No values specified")));
        }
        Ok(values)
    }

    /// The key for the next record of a table with these records: one above
    /// the greatest key; none where the greatest key is the greatest number.
    pub fn next_record_id(&self, records: &[Record]) -> (r: Option<u64>)
        ensures
            r == if greatest_key(views(records@), 0) < u64::MAX {
                Some((greatest_key(views(records@), 0) + 1) as u64)
            } else {
                None
            },
    {
        let ghost rv = views(records@);
        let mut max_id: u64 = 0;
        let mut i: usize = records.len();
        while i > 0
            invariant
                i <= records@.len(),
                rv == views(records@),
                max_id == greatest_key(rv, i as int),
            decreases i,
        {
            i -= 1;
            proof {
                assert(rv[i as int] == records@[i as int]@);
            }
            if records[i].id > max_id {
                max_id = records[i].id;
            }
        }
        if max_id < u64::MAX {
            Some(max_id + 1)
        } else {
            None
        }
    }

    /// The key for the next record of a table held in blocks: one above the
    /// greatest key; none where the greatest key is the greatest number.
    pub fn generate_record_id(&self, blocks: &[Block]) -> (r: Option<u64>)
        ensures
            r == if greatest_id(block_views(blocks@), 0, 0) < u64::MAX {
                Some((greatest_id(block_views(blocks@), 0, 0) + 1) as u64)
            } else {
                None
            },
    {
        let ghost bv = block_views(blocks@);
        let mut max_id: u64 = 0;
        let mut k: usize = blocks.len();
        while k > 0
            invariant
                k <= blocks@.len(),
                bv == block_views(blocks@),
                max_id == greatest_id(bv, k as int, 0),
            decreases k,
        {
            k -= 1;
            let records = blocks[k].as_records();
            proof {
                assert(bv[k as int] == blocks@[k as int]@);
            }
            let mut i: usize = records.len();
            while i > 0
                invariant
                    i <= records@.len(),
                    k < blocks@.len(),
                    bv == block_views(blocks@),
                    bv[k as int] == records@.map_values(|x: crate::storage::record::Record| x@),
                    max_id == greatest_id(bv, k as int, i as int),
                decreases i,
            {
                i -= 1;
                proof {
                    assert(bv[k as int][i as int] == records@[i as int]@);
                }
                if records[i].id > max_id {
                    max_id = records[i].id;
                }
            }
        }
        if max_id < u64::MAX {
            Some(max_id + 1)
        } else {
            None
        }
    }

    /// Stores a record in a table held in blocks, and says whether it was
    /// taken: it is not where the last block has room and holds its key.
    pub fn store_record(&self, blocks: &mut Vec<Block>, record: Record) -> (ok: bool)
        ensures
            block_views(final(blocks)@) == stored(block_views(old(blocks)@), record@),
            ok == !(old(blocks)@.len() > 0 && old(blocks)@.last()@.len() < BLOCK_CAPACITY && has_id(
                old(blocks)@.last()@,
                record.id,
            )),
    {
        let ghost before = block_views(blocks@);
        let n = blocks.len();
        if n > 0 && blocks[n - 1].count() < BLOCK_CAPACITY {
            proof {
                assert(before.last() == blocks@[n - 1]@);
            }
            let mut last = match blocks.pop() {
                Some(block) => block,
                None => Block::new(),
            };
            proof {
                assert(block_views(blocks@) =~= before.drop_last());
            }
            let ok = last.insert(record);
            blocks.push(last);
            proof {
                assert(block_views(blocks@) =~= before.drop_last().push(last@));
                if !ok {
                    assert(before.drop_last().push(before.last()) =~= before);
                }
            }
            ok
        } else {
            let mut block = Block::new();
            let ok = block.insert(record);
            blocks.push(block);
            proof {
                assert(block@ =~= seq![record@]);
                assert(block_views(blocks@) =~= before.push(seq![record@]));
                if n > 0 {
                    assert(before.last() == old(blocks)@[n - 1]@);
                }
            }
            ok
        }
    }
}

/// Whether a text begins with `c`.
pub open spec fn begins_with(s: Seq<char>, c: char) -> bool {
    s.len() > 0 && s[0] == c
}

/// Whether a text ends with `c`.
pub open spec fn finishes_with(s: Seq<char>, c: char) -> bool {
    s.len() > 0 && s.last() == c
}

/// The names of the columns, in order.
pub open spec fn column_names(columns: Seq<Column>) -> Seq<Seq<char>> {
    columns.map_values(|c: Column| c.name@)
}

/// What an `INSERT` names: the columns, and for each row its values.
pub struct InsertView {
    pub columns: Seq<Seq<char>>,
    pub rows: Seq<Seq<Seq<char>>>,
}

/// What the tokens of an `INSERT` into a table with the columns `table`
/// name, or what the user is told: `INSERT INTO <table> [(<columns>)]
/// VALUES (<values>), ...`. Where no columns are listed, the columns of the
/// table are meant.
pub open spec fn insert_of(tokens: Seq<Seq<char>>, table: Seq<Seq<char>>) -> Result<
    InsertView,
    Seq<char>,
> {
    insert_where(
        tokens,
        table,
        tokens.len() > 1 && uppercase(tokens[1]) == "INTO"@,
        word_at(tokens, "VALUES"@, 0),
    )
}

/// What the tokens of an `INSERT` name where `into_word` says whether the
/// second token is `INTO` and `VALUES` stands at the place `values_at`; a
/// place at or behind the end says that the word is missing.
pub open spec fn insert_where(
    tokens: Seq<Seq<char>>,
    table: Seq<Seq<char>>,
    into_word: bool,
    values_at: int,
) -> Result<InsertView, Seq<char>> {
    let n = tokens.len() as int;
    let closing = scan_tokens(tokens, 0);
    if n < 4 {
        Err("Invalid INSERT syntax"@)
    } else if !into_word {
        Err("Expected INTO clause"@)
    } else if values_at >= n {
        Err("Expected VALUES clause"@)
    } else if begins_with(tokens[2], '(') && closing >= n {
        Err("Expected closing parenthesis for columns"@)
    } else if begins_with(tokens[2], '(') && (closing < 2 || named_columns(
        tokens.subrange(2, closing + 1),
    ).len() == 0) {
        Err("No columns specified"@)
    } else {
        let columns = if begins_with(tokens[2], '(') {
            named_columns(tokens.subrange(2, closing + 1))
        } else {
            table
        };
        match groups_from(joined_text(tokens.subrange(values_at + 1, n)), 0, None) {
            None => Err("No values specified in group"@),
            Some(rows) => if rows.len() == 0 {
                Err("No values specified"@)
            } else {
                Ok(InsertView { columns, rows })
            },
        }
    }
}

/// How many tokens lie from `from` on before the first that ends with a
/// closing parenthesis, or the end.
pub open spec fn open_tokens(tokens: Seq<Seq<char>>, from: int) -> nat
    decreases tokens.len() - from,
{
    if from < 0 || from >= tokens.len() || finishes_with(tokens[from], ')') {
        0
    } else {
        1 + open_tokens(tokens, from + 1)
    }
}

/// The place of the first token at or after `from` that ends with a closing
/// parenthesis, or the number of tokens.
pub open spec fn scan_tokens(tokens: Seq<Seq<char>>, from: int) -> int {
    from + open_tokens(tokens, from)
}

/// The first token that ends with a closing parenthesis is where it is
/// found.
proof fn lemma_scan_tokens(tokens: Seq<Seq<char>>, from: int, at: int)
    requires
        0 <= from <= at <= tokens.len(),
        forall|k: int| from <= k < at ==> !finishes_with(#[trigger] tokens[k], ')'),
        at == tokens.len() || finishes_with(tokens[at], ')'),
    ensures
        scan_tokens(tokens, from) == at,
    decreases at - from,
{
    if from < at {
        lemma_scan_tokens(tokens, from + 1, at);
    }
}

/// The message for a row with the wrong number of values.
pub open spec fn count_message(columns: nat, values: nat) -> Seq<char> {
    "Column count ("@ + decimal_chars(columns) + ") does not match value count ("@ + decimal_chars(
        values,
    ) + ")"@
}

/// The message for a value that its column does not accept.
pub open spec fn value_message(value: Seq<char>, column: Seq<char>) -> Seq<char> {
    "Invalid value '"@ + value + "' for column '"@ + column + "'"@
}

/// How many columns lie from `from` on before the first with the name
/// `name`, or the end.
pub open spec fn columns_before(columns: Seq<Column>, name: Seq<char>, from: int) -> nat
    decreases columns.len() - from,
{
    if from < 0 || from >= columns.len() || columns[from].name@ == name {
        0
    } else {
        1 + columns_before(columns, name, from + 1)
    }
}

/// The place of the first column with the name `name`, or the number of
/// columns.
pub open spec fn column_place(columns: Seq<Column>, name: Seq<char>) -> int {
    columns_before(columns, name, 0) as int
}

/// The bit pattern that the caller read from the value at place `k`, if it
/// read one.
pub open spec fn bits_at(float_bits: Seq<Option<u64>>, k: int) -> Option<u64> {
    if 0 <= k < float_bits.len() {
        float_bits[k]
    } else {
        None
    }
}

/// The payload of the values of a row from place `k` on, each in the form of
/// the column that is named for it, or what the user is told of the first
/// value that has no column or that its column does not accept.
pub open spec fn payload_from(
    table: Seq<Column>,
    columns: Seq<Seq<char>>,
    values: Seq<Seq<char>>,
    bytes: Seq<Seq<u8>>,
    float_bits: Seq<Option<u64>>,
    k: int,
) -> Result<Seq<u8>, QueryErrorView>
    decreases columns.len() - k,
{
    if k < 0 || k >= columns.len() || k >= values.len() || k >= bytes.len() {
        Ok(Seq::empty())
    } else {
        let place = column_place(table, columns[k]);
        if place >= table.len() {
            Err(QueryErrorView::ColumnNotFound(columns[k]))
        } else if !value_fits(table[place].data_type, bytes[k], bits_at(float_bits, k) is Some) {
            Err(QueryErrorView::TypeMismatch(value_message(values[k], columns[k])))
        } else {
            match payload_from(table, columns, values, bytes, float_bits, k + 1) {
                Ok(rest) => Ok(
                    encoded(
                        value_of_text(table[place].data_type, bytes[k], bits_at(float_bits, k)).unwrap(),
                    ) + rest,
                ),
                Err(e) => Err(e),
            }
        }
    }
}

/// The bytes of each text.
pub open spec fn text_bytes(texts: Seq<String>) -> Seq<Seq<u8>> {
    texts.map_values(|t: String| vstd::utf8::encode_utf8(t@))
}

/// The first column with the name is where it is found.
pub proof fn lemma_column_place(columns: Seq<Column>, name: Seq<char>, from: int, at: int)
    requires
        0 <= from <= at <= columns.len(),
        forall|k: int| from <= k < at ==> (#[trigger] columns[k]).name@ != name,
        at == columns.len() || columns[at].name@ == name,
    ensures
        from + columns_before(columns, name, from) == at,
    decreases at - from,
{
    if from < at {
        lemma_column_place(columns, name, from + 1, at);
    }
}

impl InsertParser {
    /// The columns and the rows of values that an `INSERT` names.
    pub fn parse_insert(&self, tokens: &[&str], table: &Table) -> (r: Result<
        (Vec<String>, Vec<Vec<String>>),
        QueryError,
    >)
        ensures
            match r {
                Ok(found) => insert_of(token_views(tokens@), column_names(table.columns@)) == Ok::<
                    InsertView,
                    Seq<char>,
                >(InsertView { columns: text_views(found.0@), rows: row_views(found.1@) }),
                Err(e) => match insert_of(token_views(tokens@), column_names(table.columns@)) {
                    Ok(_) => false,
                    Err(message) => e@ == QueryErrorView::SyntaxError(message),
                },
            },
    {
        proof {
            if tokens@.len() > 1 {
                assert(token_views(tokens@)[1] == tokens@[1]@);
            }
        }
        let into_word = tokens.len() > 1 && is_word(tokens[1], "INTO");
        let values_at = find_word(tokens, "VALUES", 0);
        self.insert_at(tokens, table, into_word, values_at)
    }

    /// The columns and the rows of values that an `INSERT` names, given
    /// whether its second token is `INTO` and the place of `VALUES`; a place
    /// at or behind the end says that the word is missing.
    pub fn insert_at(&self, tokens: &[&str], table: &Table, into_word: bool, values_at: usize) -> (r:
        Result<(Vec<String>, Vec<Vec<String>>), QueryError>)
        ensures
            match r {
                Ok(found) => insert_where(
                    token_views(tokens@),
                    column_names(table.columns@),
                    into_word,
                    values_at as int,
                ) == Ok::<InsertView, Seq<char>>(
                    InsertView { columns: text_views(found.0@), rows: row_views(found.1@) },
                ),
                Err(e) => match insert_where(
                    token_views(tokens@),
                    column_names(table.columns@),
                    into_word,
                    values_at as int,
                ) {
                    Ok(_) => false,
                    Err(message) => e@ == QueryErrorView::SyntaxError(message),
                },
            },
    {
        let ghost tv = token_views(tokens@);
        let n = tokens.len();
        if n < 4 {
            return Err(QueryError::SyntaxError(String::from_str("Invalid INSERT syntax")));
        }
        proof {
            assert(tv[2] == tokens@[2]@);
        }
        if !into_word {
            return Err(QueryError::SyntaxError(String::from_str("Expected INTO clause")));
        }
        if values_at >= n {
            return Err(QueryError::SyntaxError(String::from_str("Expected VALUES clause")));
        }
        let first = chars_of(tokens[2]);
        let listed = first.len() > 0 && first[0] == '(';
        let columns = if listed {
            let mut closing: usize = 0;
            while closing < n && !ends_with_paren(tokens[closing])
                invariant
                    closing <= n,
                    n == tokens@.len(),
                    tv == token_views(tokens@),
                    forall|k: int| 0 <= k < closing ==> !finishes_with(#[trigger] tv[k], ')'),
                decreases n - closing,
            {
                proof {
                    assert(tv[closing as int] == tokens@[closing as int]@);
                }
                closing += 1;
            }
            proof {
                if closing < n {
                    assert(tv[closing as int] == tokens@[closing as int]@);
                }
                lemma_scan_tokens(tv, 0, closing as int);
            }
            if closing >= n {
                return Err(
                    QueryError::SyntaxError(
                        String::from_str("Expected closing parenthesis for columns"),
                    ),
                );
            }
            if closing < 2 {
                return Err(QueryError::SyntaxError(String::from_str("No columns specified")));
            }
            let listed_tokens = vstd::slice::slice_subrange(tokens, 2, closing + 1);
            proof {
                assert(token_views(listed_tokens@) =~= tv.subrange(2, closing + 1));
            }
            match self.parse_column_list(listed_tokens) {
                Ok(columns) => columns,
                Err(e) => {
                    return Err(e);
                },
            }
        } else {
            let mut names: Vec<String> = Vec::new();
            let mut i: usize = 0;
            while i < table.columns.len()
                invariant
                    i <= table.columns@.len(),
                    names@.len() == i,
                    forall|k: int| 0 <= k < i ==> (#[trigger] names@[k])@ == table.columns@[k].name@,
                decreases table.columns@.len() - i,
            {
                names.push(table.columns[i].name.clone());
                i += 1;
            }
            proof {
                assert(text_views(names@) =~= column_names(table.columns@));
            }
            names
        };
        let value_tokens = vstd::slice::slice_subrange(tokens, values_at + 1, n);
        proof {
            assert(token_views(value_tokens@) =~= tv.subrange(values_at + 1, n as int));
        }
        match self.parse_values(value_tokens) {
            Ok(rows) => Ok((columns, rows)),
            Err(e) => Err(e),
        }
    }

    /// The payload of one row of an `INSERT`: the bytes of its values, each
    /// in the form of the column that is named for it, in the order of the
    /// values. For each value the caller says in `float_bits` what it reads
    /// as, if it reads as a floating-point number.
    pub fn row_bytes(
        &self,
        table: &Table,
        columns: &[String],
        values: &[String],
        float_bits: &[Option<u64>],
    ) -> (r: Result<Vec<u8>, QueryError>)
        ensures
            ({
                let expected = payload_from(
                    table.columns@,
                    text_views(columns@),
                    text_views(values@),
                    text_bytes(values@),
                    float_bits@,
                    0,
                );
                match r {
                    Ok(bytes) => columns@.len() == values@.len() && expected == Ok::<
                        Seq<u8>,
                        QueryErrorView,
                    >(bytes@),
                    Err(e) => if columns@.len() != values@.len() {
                        e@ == QueryErrorView::SyntaxError(
                            count_message(columns@.len(), values@.len()),
                        )
                    } else {
                        expected == Err::<Seq<u8>, QueryErrorView>(e@)
                    },
                }
            }),
    {
        if columns.len() != values.len() {
            let mut message = String::from_str("Column count (");
            append_decimal(&mut message, columns.len() as u64);
            message.append(") does not match value count (");
            append_decimal(&mut message, values.len() as u64);
            message.append(")");
            proof {
                assert(message@ =~= count_message(columns@.len(), values@.len()));
            }
            return Err(QueryError::SyntaxError(message));
        }
        let ghost cols = table.columns@;
        let ghost cv = text_views(columns@);
        let ghost vv = text_views(values@);
        let ghost vb = text_bytes(values@);
        let ghost fb = float_bits@;
        let n = columns.len();
        let mut k: usize = 0;
        let mut out: Vec<u8> = Vec::new();
        let mut failed: Option<QueryError> = None;
        let ghost mut head: Seq<u8> = Seq::empty();
        while k < n && failed.is_none()
            invariant
                k <= n,
                n == columns@.len(),
                n == values@.len(),
                cols == table.columns@,
                cv == text_views(columns@),
                vv == text_views(values@),
                vb == text_bytes(values@),
                fb == float_bits@,
                out@ == head,
                match failed {
                    Some(e) => payload_from(cols, cv, vv, vb, fb, 0) == Err::<Seq<u8>, QueryErrorView>(
                        e@,
                    ),
                    None => payload_from(cols, cv, vv, vb, fb, 0) == match payload_from(
                        cols,
                        cv,
                        vv,
                        vb,
                        fb,
                        k as int,
                    ) {
                        Ok(rest) => Ok::<Seq<u8>, QueryErrorView>(head + rest),
                        Err(e) => Err(e),
                    },
                },
            decreases n - k + if failed is None { 1int } else { 0int },
        {
            let name = &columns[k];
            let value = &values[k];
            proof {
                assert(cv[k as int] == name@);
                assert(vv[k as int] == value@);
                assert(vb[k as int] == vstd::utf8::encode_utf8(value@));
            }
            let mut place: usize = 0;
            while place < table.columns.len() && !same_text(
                table.columns[place].name.as_str(),
                name.as_str(),
            )
                invariant
                    place <= table.columns@.len(),
                    forall|j: int| 0 <= j < place ==> (#[trigger] table.columns@[j]).name@ != name@,
                decreases table.columns@.len() - place,
            {
                place += 1;
            }
            proof {
                lemma_column_place(table.columns@, name@, 0, place as int);
            }
            if place >= table.columns.len() {
                failed = Some(QueryError::ColumnNotFound(name.clone()));
            } else {
                let column = &table.columns[place];
                let bits = if k < float_bits.len() {
                    float_bits[k]
                } else {
                    None
                };
                if !column.validate_value(value.as_str(), bits) {
                    let message = String::from_str("Invalid value '").concat(value.as_str()).concat(
                        "' for column '",
                    ).concat(name.as_str()).concat("'");
                    proof {
                        assert(message@ =~= value_message(value@, name@));
                    }
                    failed = Some(QueryError::TypeMismatch(message));
                } else {
                    match convert_value_to_bytes(value.as_str(), column, bits) {
                        Ok(bytes) => {
                            let mut bytes = bytes;
                            let ghost piece = bytes@;
                            out.append(&mut bytes);
                            proof {
                                match payload_from(cols, cv, vv, vb, fb, k + 1) {
                                    Ok(rest) => {
                                        assert(head + (piece + rest) =~= (head + piece) + rest);
                                    },
                                    Err(_) => {},
                                }
                                head = head + piece;
                            }
                            k += 1;
                        },
                        Err(e) => {
                            failed = Some(e);
                        },
                    }
                }
            }
        }
        match failed {
            Some(e) => Err(e),
            None => {
                proof {
                    assert(head + Seq::<u8>::empty() =~= head);
                }
                Ok(out)
            },
        }
    }
}

/// Whether `token` ends with a closing parenthesis.
fn ends_with_paren(token: &str) -> (r: bool)
    ensures
        r == finishes_with(token@, ')'),
{
    let chars = chars_of(token);
    chars.len() > 0 && chars[chars.len() - 1] == ')'
}

} // verus!
