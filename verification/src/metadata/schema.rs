//! A named set of tables, each with its columns.

use vstd::prelude::*;
use super::column::Column;
use crate::text::same_text;

verus! {

/// A named set of tables. No table name stands twice.
pub struct Schema {
    name: String,
    tables: Vec<(String, Vec<Column>)>,
}

/// The columns listed under the table `name`, where the table is listed.
pub open spec fn columns_of(entries: Seq<(String, Vec<Column>)>, name: Seq<char>) -> Option<Vec<Column>>
    decreases entries.len(),
{
    if entries.len() == 0 {
        None
    } else if entries[0].0@ == name {
        Some(entries[0].1)
    } else {
        columns_of(entries.drop_first(), name)
    }
}

/// What a lookup finds is the list of the first entry with the name.
proof fn lemma_columns_of(entries: Seq<(String, Vec<Column>)>, name: Seq<char>, i: int)
    requires
        0 <= i <= entries.len(),
        forall|k: int| 0 <= k < i ==> (#[trigger] entries[k]).0@ != name,
        i < entries.len() ==> entries[i].0@ == name,
    ensures
        columns_of(entries, name) == if i < entries.len() {
            Some(entries[i].1)
        } else {
            None
        },
    decreases i,
{
    if i > 0 {
        let rest = entries.drop_first();
        assert(entries[0].0@ != name);
        assert forall|k: int| 0 <= k < i - 1 implies (#[trigger] rest[k]).0@ != name by {
            assert(entries[k + 1].0@ != name);
        }
        lemma_columns_of(rest, name, i - 1);
    }
}

/// A change of the columns of one entry, or a new entry, changes the answer
/// for no other name.
proof fn lemma_columns_elsewhere(
    before: Seq<(String, Vec<Column>)>,
    now: Seq<(String, Vec<Column>)>,
    other: Seq<char>,
    i: int,
)
    requires
        now.len() == before.len() || (now.len() == before.len() + 1 && i == before.len()),
        0 <= i < now.len() ==> now[i].0@ != other,
        forall|k: int| 0 <= k < before.len() && k != i ==> (#[trigger] now[k]) == before[k],
        0 <= i < before.len() ==> now[i].0@ == before[i].0@,
    ensures
        columns_of(now, other) == columns_of(before, other),
    decreases now.len(),
{
    if before.len() == 0 {
        if now.len() > 0 {
            assert(now.drop_first().len() == 0);
        }
    } else if i == 0 {
        let b = before.drop_first();
        let n = now.drop_first();
        assert(n =~= b) by {
            assert forall|k: int| 0 <= k < b.len() implies n[k] == b[k] by {
                assert(now[k + 1] == before[k + 1]);
            }
        }
    } else {
        assert(now[0] == before[0]);
        let b = before.drop_first();
        let n = now.drop_first();
        assert forall|k: int| 0 <= k < b.len() && k != i - 1 implies (#[trigger] n[k]) == b[k] by {
            assert(now[k + 1] == before[k + 1]);
        }
        if 0 <= i - 1 < n.len() {
            assert(n[i - 1] == now[i]);
        }
        if 0 <= i - 1 < b.len() {
            assert(b[i - 1] == before[i]);
        }
        lemma_columns_elsewhere(b, n, other, i - 1);
    }
}

impl Schema {
    /// The columns of the table `name`.
    pub closed spec fn columns(&self, name: Seq<char>) -> Option<Vec<Column>> {
        columns_of(self.tables@, name)
    }

    /// The name of the schema.
    pub closed spec fn spec_name(&self) -> Seq<char> {
        self.name@
    }

    /// Whether no table name stands twice.
    pub closed spec fn wf(&self) -> bool {
        forall|i: int, j: int|
            0 <= i < j < self.tables@.len() ==> (#[trigger] self.tables@[i]).0@ != (
            #[trigger] self.tables@[j]).0@
    }

    /// A schema without tables.
    pub fn new(name: String) -> (r: Self)
        ensures
            r.wf(),
            r.spec_name() == name@,
            forall|table: Seq<char>| r.columns(table) is None,
    {
        Schema { name, tables: Vec::new() }
    }

    /// The name of the schema.
    pub fn name(&self) -> (r: &str)
        ensures
            r@ == self.spec_name(),
    {
        self.name.as_str()
    }

    /// The place of the table `name`.
    fn place(&self, name: &str) -> (r: Option<usize>)
        ensures
            match r {
                Some(i) => i < self.tables@.len() && self.tables@[i as int].0@ == name@
                    && self.columns(name@) == Some(self.tables@[i as int].1),
                None => self.columns(name@) is None && forall|k: int|
                    0 <= k < self.tables@.len() ==> (#[trigger] self.tables@[k]).0@ != name@,
            },
    {
        let mut i: usize = 0;
        while i < self.tables.len()
            invariant
                i <= self.tables@.len(),
                forall|k: int| 0 <= k < i ==> (#[trigger] self.tables@[k]).0@ != name@,
            decreases self.tables@.len() - i,
        {
            if same_text(self.tables[i].0.as_str(), name) {
                proof {
                    lemma_columns_of(self.tables@, name@, i as int);
                }
                return Some(i);
            }
            i += 1;
        }
        proof {
            lemma_columns_of(self.tables@, name@, i as int);
        }
        None
    }

    /// Lists the table with these columns, in place of the columns that it
    /// had, if it was listed.
    pub fn add_table(&mut self, table_name: String, columns: Vec<Column>)
        requires
            old(self).wf(),
        ensures
            final(self).wf(),
            final(self).spec_name() == old(self).spec_name(),
            final(self).columns(table_name@) == Some(columns),
            forall|other: Seq<char>|
                other != table_name@ ==> final(self).columns(other) == old(self).columns(other),
    {
        let ghost before = self.tables@;
        match self.place(table_name.as_str()) {
            Some(i) => {
                self.tables[i].1 = columns;
                proof {
                    let now = self.tables@;
                    assert forall|a: int, b: int| 0 <= a < b < now.len() implies (#[trigger] now[a]).0@
                        != (#[trigger] now[b]).0@ by {
                        assert(before[a].0@ != before[b].0@);
                    }
                    lemma_columns_of(now, table_name@, i as int);
                    assert forall|other: Seq<char>| other != table_name@ implies self.columns(other)
                        == old(self).columns(other) by {
                        lemma_columns_elsewhere(before, now, other, i as int);
                    }
                }
            },
            None => {
                self.tables.push((table_name, columns));
                proof {
                    let now = self.tables@;
                    assert forall|a: int, b: int| 0 <= a < b < now.len() implies (#[trigger] now[a]).0@
                        != (#[trigger] now[b]).0@ by {
                        if b < before.len() {
                            assert(before[a].0@ != before[b].0@);
                        } else {
                            assert(before[a].0@ != table_name@);
                        }
                    }
                    lemma_columns_of(now, table_name@, before.len() as int);
                    assert forall|other: Seq<char>| other != table_name@ implies self.columns(other)
                        == old(self).columns(other) by {
                        lemma_columns_elsewhere(before, now, other, before.len() as int);
                    }
                }
            },
        }
    }

    /// The columns of the table `table_name`.
    pub fn get_table_columns(&self, table_name: &str) -> (r: Option<&Vec<Column>>)
        ensures
            match r {
                Some(columns) => self.columns(table_name@) == Some(*columns),
                None => self.columns(table_name@) is None,
            },
    {
        match self.place(table_name) {
            Some(i) => Some(&self.tables[i].1),
            None => None,
        }
    }
}

} // verus!
