//! The text of a result, as the shell prints it.

use vstd::prelude::*;
use vstd::string::StringExecFns;
use crate::query::parser::column::text_views;
use crate::query::parser::join::row_views;
use crate::query::result::QueryResult;
use crate::text::{append_decimal, decimal_chars};

verus! {

/// The line of a row: each value with ` | ` behind it, then a line feed.
pub open spec fn row_line(values: Seq<Seq<char>>) -> Seq<char>
    decreases values.len(),
{
    if values.len() == 0 {
        seq!['\n']
    } else {
        values[0] + " | "@ + row_line(values.drop_first())
    }
}

/// The lines of the rows, one after another.
pub open spec fn row_lines(rows: Seq<Seq<Seq<char>>>) -> Seq<char>
    decreases rows.len(),
{
    if rows.len() == 0 {
        Seq::empty()
    } else {
        row_line(rows[0]) + row_lines(rows.drop_first())
    }
}

/// The line under a head: as many rules as the head has columns.
pub open spec fn rule_line(columns: nat) -> Seq<char>
    decreases columns,
{
    if columns == 0 {
        seq!['\n']
    } else {
        "--------- | "@ + rule_line((columns - 1) as nat)
    }
}

/// The text of rows under a head; `nothing` and a line feed where there is
/// no row.
pub open spec fn table_text(
    headers: Seq<Seq<char>>,
    rows: Seq<Seq<Seq<char>>>,
    nothing: Seq<char>,
) -> Seq<char> {
    if rows.len() == 0 {
        nothing + seq!['\n']
    } else {
        row_line(headers) + rule_line(headers.len()) + row_lines(rows)
    }
}

/// The text that the shell prints for a result.
pub open spec fn display_of(result: QueryResult) -> Seq<char> {
    match result {
        QueryResult::Select(rows) => if rows@.len() == 0 {
            "No results found\n"@
        } else {
            row_lines(row_views(rows@))
        },
        QueryResult::Join(join) => table_text(
            text_views(join.headers@),
            row_views(join.rows@),
            "No join results found"@,
        ),
        QueryResult::Aggregation(aggregation) => table_text(
            text_views(aggregation.headers@),
            row_views(aggregation.rows@),
            "No aggregation results found"@,
        ),
        QueryResult::Insert(count) => "Inserted "@ + decimal_chars(count as nat) + " rows\n"@,
        QueryResult::Update(count) => "Updated "@ + decimal_chars(count as nat) + " rows\n"@,
        QueryResult::Delete(count) => "Deleted "@ + decimal_chars(count as nat) + " rows\n"@,
        QueryResult::CreateTable => "Table created successfully\n"@,
        QueryResult::DropTable => "Table dropped successfully\n"@,
        QueryResult::Error(message) => "Error: "@ + message@ + seq!['\n'],
    }
}

/// Appends the line of a row.
fn append_row(out: &mut String, values: &Vec<String>)
    ensures
        final(out)@ == old(out)@ + row_line(text_views(values@)),
{
    let ghost tv = text_views(values@);
    let ghost start = out@;
    let mut i: usize = 0;
    proof {
        assert(tv.subrange(0, tv.len() as int) =~= tv);
    }
    while i < values.len()
        invariant
            i <= values@.len(),
            tv == text_views(values@),
            out@ + row_line(tv.subrange(i as int, tv.len() as int)) == start + row_line(tv),
        decreases values@.len() - i,
    {
        let ghost rest = tv.subrange(i as int, tv.len() as int);
        let ghost before = out@;
        proof {
            assert(rest[0] == values@[i as int]@);
            assert(rest.drop_first() =~= tv.subrange(i + 1, tv.len() as int));
        }
        out.append(values[i].as_str());
        out.append(" | ");
        proof {
            assert(out@ + row_line(rest.drop_first()) =~= before + row_line(rest));
        }
        i += 1;
    }
    proof {
        reveal_strlit("\n");
        assert(row_line(tv.subrange(i as int, tv.len() as int)) =~= seq!['\n']);
    }
    out.append("\n");
    proof {
        assert(out@ =~= start + row_line(tv));
    }
}

/// Appends the lines of the rows.
fn append_rows(out: &mut String, rows: &Vec<Vec<String>>)
    ensures
        final(out)@ == old(out)@ + row_lines(row_views(rows@)),
{
    let ghost rv = row_views(rows@);
    let ghost start = out@;
    let mut i: usize = 0;
    proof {
        assert(rv.subrange(0, rv.len() as int) =~= rv);
    }
    while i < rows.len()
        invariant
            i <= rows@.len(),
            rv == row_views(rows@),
            out@ + row_lines(rv.subrange(i as int, rv.len() as int)) == start + row_lines(rv),
        decreases rows@.len() - i,
    {
        let ghost rest = rv.subrange(i as int, rv.len() as int);
        let ghost before = out@;
        proof {
            assert(rest[0] == text_views(rows@[i as int]@));
            assert(rest.drop_first() =~= rv.subrange(i + 1, rv.len() as int));
        }
        append_row(out, &rows[i]);
        proof {
            assert(out@ + row_lines(rest.drop_first()) =~= before + row_lines(rest));
        }
        i += 1;
    }
    proof {
        assert(out@ + Seq::<char>::empty() =~= out@);
    }
}

/// The text of rows under a head.
fn table(headers: &Vec<String>, rows: &Vec<Vec<String>>, nothing: &str) -> (r: String)
    ensures
        r@ == table_text(text_views(headers@), row_views(rows@), nothing@),
{
    let mut out = String::new();
    if rows.len() == 0 {
        proof {
            reveal_strlit("\n");
        }
        out.append(nothing);
        out.append("\n");
        proof {
            assert(out@ =~= nothing@ + seq!['\n']);
        }
        return out;
    }
    append_row(&mut out, headers);
    let ghost head = out@;
    let n = headers.len();
    let mut i: usize = 0;
    while i < n
        invariant
            i <= n,
            n == text_views(headers@).len(),
            out@ + rule_line((n - i) as nat) == head + rule_line(n as nat),
        decreases n - i,
    {
        let ghost before = out@;
        out.append("--------- | ");
        proof {
            assert(out@ + rule_line((n - i - 1) as nat) =~= before + rule_line((n - i) as nat));
        }
        i += 1;
    }
    proof {
        reveal_strlit("\n");
    }
    out.append("\n");
    append_rows(&mut out, rows);
    proof {
        assert(out@ =~= row_line(text_views(headers@)) + rule_line(n as nat) + row_lines(
            row_views(rows@),
        ));
    }
    out
}

/// The text that the shell prints for a result.
pub fn display_text(result: &QueryResult) -> (r: String)
    ensures
        r@ == display_of(*result),
{
    match result {
        QueryResult::Select(rows) => {
            if rows.len() == 0 {
                return String::from_str("No results found\n");
            }
            let mut out = String::new();
            append_rows(&mut out, rows);
            proof {
                assert(out@ =~= row_lines(row_views(rows@)));
            }
            out
        },
        QueryResult::Join(join) => table(&join.headers, &join.rows, "No join results found"),
        QueryResult::Aggregation(aggregation) => table(
            &aggregation.headers,
            &aggregation.rows,
            "No aggregation results found",
        ),
        QueryResult::Insert(count) => {
            let mut out = String::from_str("Inserted ");
            append_decimal(&mut out, *count as u64);
            out.append(" rows\n");
            out
        },
        QueryResult::Update(count) => {
            let mut out = String::from_str("Updated ");
            append_decimal(&mut out, *count as u64);
            out.append(" rows\n");
            out
        },
        QueryResult::Delete(count) => {
            let mut out = String::from_str("Deleted ");
            append_decimal(&mut out, *count as u64);
            out.append(" rows\n");
            out
        },
        QueryResult::CreateTable => String::from_str("Table created successfully\n"),
        QueryResult::DropTable => String::from_str("Table dropped successfully\n"),
        QueryResult::Error(message) => {
            proof {
                reveal_strlit("\n");
            }
            String::from_str("Error: ").concat(message.as_str()).concat("\n")
        },
    }
}

} // verus!
