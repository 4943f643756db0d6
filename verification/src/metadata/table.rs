//! The schema of one table.

use vstd::prelude::*;
use super::column::{Column, ColumnType};
use crate::text::same_text;

verus! {

/// The schema of a table: its name, its columns in order, the name of the
/// primary key column, and the columns that have an index with the rows
/// that each index lists.
#[derive(Debug)]
pub struct Table {
    pub name: String,
    pub columns: Vec<Column>,
    pub primary_key: Option<String>,
    pub indexes: Vec<(String, Vec<usize>)>,
}

/// The number of bytes that a value of the type takes at most in a record,
/// up to the largest number that the machine holds.
pub open spec fn nominal_width(data_type: ColumnType) -> nat {
    match data_type {
        ColumnType::Integer => 8,
        ColumnType::Float => 8,
        ColumnType::Varchar(len) => if 4 + len <= usize::MAX {
            (4 + len) as nat
        } else {
            usize::MAX as nat
        },
        ColumnType::Boolean => 1,
        ColumnType::Timestamp => 8,
    }
}

/// The sum of the nominal widths of the first `n` columns.
pub open spec fn width_before(columns: Seq<Column>, n: int) -> nat
    decreases n,
{
    if n <= 0 || n > columns.len() {
        0
    } else {
        width_before(columns, n - 1) + nominal_width(columns[n - 1].data_type)
    }
}

/// Whether an index is kept for the column `name`.
pub open spec fn has_index(indexes: Seq<(String, Vec<usize>)>, name: Seq<char>) -> bool {
    exists|i: int| 0 <= i < indexes.len() && (#[trigger] indexes[i]).0@ == name
}

impl Table {
    /// A table without columns.
    pub fn new(name: String) -> (r: Self)
        ensures
            r.name == name,
            r.columns@.len() == 0,
            r.primary_key is None,
            r.indexes@.len() == 0,
    {
        Self { name, columns: Vec::new(), primary_key: None, indexes: Vec::new() }
    }

    pub fn add_column(&mut self, column: Column)
        ensures
            final(self).columns@ == old(self).columns@.push(column),
            final(self).name == old(self).name,
            final(self).primary_key == old(self).primary_key,
            final(self).indexes == old(self).indexes,
    {
        self.columns.push(column);
    }

    pub fn set_primary_key(&mut self, column_name: String)
        ensures
            final(self).primary_key == Some(column_name),
            final(self).name == old(self).name,
            final(self).columns == old(self).columns,
            final(self).indexes == old(self).indexes,
    {
        self.primary_key = Some(column_name);
    }

    /// Starts an empty index for the column, in place of the one that the
    /// column had, if it had one.
    pub fn create_index(&mut self, column_name: String)
        ensures
            final(self).name == old(self).name,
            final(self).columns == old(self).columns,
            final(self).primary_key == old(self).primary_key,
            has_index(final(self).indexes@, column_name@),
            forall|i: int|
                0 <= i < final(self).indexes@.len() && (#[trigger] final(self).indexes@[i]).0@
                    == column_name@ ==> final(self).indexes@[i].1@.len() == 0,
            forall|i: int|
                0 <= i < old(self).indexes@.len() && (#[trigger] old(self).indexes@[i]).0@ != column_name@
                    ==> final(self).indexes@[i] == old(self).indexes@[i],
            final(self).indexes@.len() == if has_index(old(self).indexes@, column_name@) {
                old(self).indexes@.len()
            } else {
                old(self).indexes@.len() + 1
            },
    {
        let mut i: usize = 0;
        let mut found = false;
        while i < self.indexes.len()
            invariant
                i <= self.indexes@.len(),
                self.name == old(self).name,
                self.columns == old(self).columns,
                self.primary_key == old(self).primary_key,
                self.indexes@.len() == old(self).indexes@.len(),
                found == exists|k: int| 0 <= k < i && (#[trigger] old(self).indexes@[k]).0@ == column_name@,
                forall|k: int| 0 <= k < self.indexes@.len() ==> (#[trigger] self.indexes@[k]).0@ == old(self).indexes@[k].0@,
                forall|k: int|
                    0 <= k < i && (#[trigger] self.indexes@[k]).0@ == column_name@
                        ==> self.indexes@[k].1@.len() == 0,
                forall|k: int|
                    0 <= k < self.indexes@.len() && (i <= k || (#[trigger] old(self).indexes@[k]).0@
                        != column_name@) ==> self.indexes@[k] == old(self).indexes@[k],
            decreases self.indexes@.len() - i,
        {
            if self.indexes[i].0 == column_name {
                let ghost before = self.indexes@;
                self.indexes[i].1 = Vec::new();
                found = true;
                proof {
                    assert(self.indexes@[i as int].0@ == column_name@);
                }
            }
            i += 1;
        }
        if !found {
            let ghost before = self.indexes@;
            self.indexes.push((column_name, Vec::new()));
            proof {
                assert(self.indexes@[before.len() as int].0@ == column_name@);
                assert(!has_index(old(self).indexes@, column_name@));
            }
        } else {
            proof {
                let k = choose|k: int|
                    0 <= k < i && (#[trigger] old(self).indexes@[k]).0@ == column_name@;
                assert(self.indexes@[k].0@ == column_name@);
            }
        }
    }

    /// The place of the first column with the name `column_name`.
    pub fn get_column_index(&self, column_name: &str) -> (r: Option<usize>)
        ensures
            match r {
                Some(i) => i < self.columns@.len() && self.columns@[i as int].name@ == column_name@
                    && forall|k: int| 0 <= k < i ==> (#[trigger] self.columns@[k]).name@ != column_name@,
                None => forall|k: int|
                    0 <= k < self.columns@.len() ==> (#[trigger] self.columns@[k]).name@ != column_name@,
            },
    {
        let mut i: usize = 0;
        while i < self.columns.len()
            invariant
                i <= self.columns@.len(),
                forall|k: int| 0 <= k < i ==> (#[trigger] self.columns@[k]).name@ != column_name@,
            decreases self.columns@.len() - i,
        {
            if same_text(self.columns[i].name.as_str(), column_name) {
                return Some(i);
            }
            i += 1;
        }
        None
    }

    /// Where the value of the column at `column_index` starts in a record
    /// whose values all take their nominal width; the widths of all columns
    /// where there is no such column.
    pub fn get_column_offset(&self, column_index: usize) -> (r: usize)
        ensures
            r == ({
                let n = if column_index < self.columns@.len() {
                    column_index as int
                } else {
                    self.columns@.len() as int
                };
                if width_before(self.columns@, n) <= usize::MAX {
                    width_before(self.columns@, n) as usize
                } else {
                    usize::MAX
                }
            }),
    {
        let mut offset: usize = 0;
        let mut i: usize = 0;
        while i < self.columns.len() && i < column_index
            invariant
                i <= self.columns@.len(),
                i <= column_index,
                offset == if width_before(self.columns@, i as int) <= usize::MAX {
                    width_before(self.columns@, i as int) as usize
                } else {
                    usize::MAX
                },
            decreases self.columns@.len() - i,
        {
            offset = offset.saturating_add(self.get_column_length(i));
            i += 1;
        }
        offset
    }

    /// The nominal width of the column at `column_index`; nothing where there
    /// is no such column.
    pub fn get_column_length(&self, column_index: usize) -> (r: usize)
        ensures
            r == if column_index < self.columns@.len() {
                nominal_width(self.columns@[column_index as int].data_type)
            } else {
                0
            },
    {
        if column_index < self.columns.len() {
            match self.columns[column_index].data_type {
                ColumnType::Integer => 8,
                ColumnType::Float => 8,
                ColumnType::Varchar(len) => len.saturating_add(4),
                ColumnType::Boolean => 1,
                ColumnType::Timestamp => 8,
            }
        } else {
            0
        }
    }
}

} // verus!
