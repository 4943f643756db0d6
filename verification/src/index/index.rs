//! An index: for each value of a column, the rows that hold it.

use vstd::prelude::*;
use crate::text::same_text;

verus! {

/// For each value of the column `column`, the rows that hold it, in the
/// order in which they were put in.
pub struct Index {
    name: String,
    column: String,
    values: Vec<(String, Vec<usize>)>,
}

/// The rows listed under `value`, where the value is listed.
pub open spec fn rows_of(entries: Seq<(String, Vec<usize>)>, value: Seq<char>) -> Option<Seq<usize>>
    decreases entries.len(),
{
    if entries.len() == 0 {
        None
    } else if entries[0].0@ == value {
        Some(entries[0].1@)
    } else {
        rows_of(entries.drop_first(), value)
    }
}

/// `rows` without its first `row`, if it has one.
pub open spec fn without_first(rows: Seq<usize>, row: usize) -> Seq<usize>
    decreases rows.len(),
{
    if rows.len() == 0 {
        rows
    } else if rows[0] == row {
        rows.drop_first()
    } else {
        seq![rows[0]] + without_first(rows.drop_first(), row)
    }
}

/// What a lookup finds is the list of the first entry with the value.
proof fn lemma_rows_of(entries: Seq<(String, Vec<usize>)>, value: Seq<char>, i: int)
    requires
        0 <= i <= entries.len(),
        forall|k: int| 0 <= k < i ==> (#[trigger] entries[k]).0@ != value,
        i < entries.len() ==> entries[i].0@ == value,
    ensures
        rows_of(entries, value) == if i < entries.len() {
            Some(entries[i].1@)
        } else {
            None
        },
    decreases i,
{
    if i > 0 {
        let rest = entries.drop_first();
        assert(entries[0].0@ != value);
        assert forall|k: int| 0 <= k < i - 1 implies (#[trigger] rest[k]).0@ != value by {
            assert(entries[k + 1].0@ != value);
        }
        lemma_rows_of(rest, value, i - 1);
    } else if entries.len() == 0 {
    }
}

/// The place of the first `row` among `rows`.
fn first_row(rows: &Vec<usize>, row: usize) -> (r: Option<usize>)
    ensures
        match r {
            Some(k) => k < rows@.len() && without_first(rows@, row) == rows@.remove(k as int),
            None => without_first(rows@, row) == rows@,
        },
{
    let n = rows.len();
    let mut k: usize = 0;
    proof {
        assert(rows@.subrange(0, n as int) =~= rows@);
        assert(rows@.subrange(0, 0) + without_first(rows@, row) =~= without_first(rows@, row));
    }
    while k < n
        invariant
            k <= n,
            n == rows@.len(),
            without_first(rows@, row) == rows@.subrange(0, k as int) + without_first(
                rows@.subrange(k as int, n as int),
                row,
            ),
        decreases n - k,
    {
        let ghost tail = rows@.subrange(k as int, n as int);
        proof {
            assert(tail[0] == rows@[k as int]);
            assert(tail.drop_first() =~= rows@.subrange(k + 1, n as int));
        }
        if rows[k] == row {
            proof {
                assert(rows@.subrange(0, k as int) + tail.drop_first() =~= rows@.remove(k as int));
            }
            return Some(k);
        }
        proof {
            assert(rows@.subrange(0, k as int) + (seq![rows@[k as int]] + without_first(
                rows@.subrange(k + 1, n as int),
                row,
            )) =~= rows@.subrange(0, k + 1) + without_first(rows@.subrange(k + 1, n as int), row));
        }
        k += 1;
    }
    proof {
        assert(rows@.subrange(n as int, n as int) =~= Seq::<usize>::empty());
        assert(rows@.subrange(0, n as int) + Seq::<usize>::empty() =~= rows@);
    }
    None
}

impl Index {
    /// The rows listed under `value`.
    pub closed spec fn rows(&self, value: Seq<char>) -> Option<Seq<usize>> {
        rows_of(self.values@, value)
    }

    /// Whether no value is listed twice.
    pub closed spec fn wf(&self) -> bool {
        forall|i: int, j: int|
            0 <= i < j < self.values@.len() ==> (#[trigger] self.values@[i]).0@ != (
            #[trigger] self.values@[j]).0@
    }

    /// The name of the index.
    pub closed spec fn spec_name(&self) -> Seq<char> {
        self.name@
    }

    /// The column that the index is on.
    pub closed spec fn spec_column(&self) -> Seq<char> {
        self.column@
    }

    /// An index without entries.
    pub fn new(name: String, column: String) -> (r: Self)
        ensures
            r.wf(),
            r.spec_name() == name@,
            r.spec_column() == column@,
            forall|value: Seq<char>| r.rows(value) is None,
    {
        Index { name, column, values: Vec::new() }
    }

    /// The place of the entry for `value`.
    fn place(&self, value: &str) -> (r: Option<usize>)
        ensures
            match r {
                Some(i) => i < self.values@.len() && self.values@[i as int].0@ == value@
                    && self.rows(value@) == Some(self.values@[i as int].1@),
                None => self.rows(value@) is None && forall|k: int|
                    0 <= k < self.values@.len() ==> (#[trigger] self.values@[k]).0@ != value@,
            },
    {
        let mut i: usize = 0;
        while i < self.values.len()
            invariant
                i <= self.values@.len(),
                forall|k: int| 0 <= k < i ==> (#[trigger] self.values@[k]).0@ != value@,
            decreases self.values@.len() - i,
        {
            if same_text(self.values[i].0.as_str(), value) {
                proof {
                    lemma_rows_of(self.values@, value@, i as int);
                }
                return Some(i);
            }
            i += 1;
        }
        proof {
            lemma_rows_of(self.values@, value@, i as int);
        }
        None
    }

    /// Lists `row_id` under `value`, behind the rows that are listed there.
    pub fn insert(&mut self, value: String, row_id: usize)
        requires
            old(self).wf(),
        ensures
            final(self).wf(),
            final(self).spec_name() == old(self).spec_name(),
            final(self).spec_column() == old(self).spec_column(),
            final(self).rows(value@) == Some(
                match old(self).rows(value@) {
                    Some(rows) => rows.push(row_id),
                    None => seq![row_id],
                },
            ),
            forall|other: Seq<char>| other != value@ ==> final(self).rows(other) == old(self).rows(other),
    {
        let ghost before = self.values@;
        match self.place(value.as_str()) {
            Some(i) => {
                self.values[i].1.push(row_id);
                proof {
                    let now = self.values@;
                    assert forall|a: int, b: int| 0 <= a < b < now.len() implies (#[trigger] now[a]).0@
                        != (#[trigger] now[b]).0@ by {
                        assert(before[a].0@ != before[b].0@);
                    }
                    lemma_rows_of(now, value@, i as int);
                    assert forall|other: Seq<char>| other != value@ implies self.rows(other) == old(self).rows(other) by {
                        lemma_rows_same_names(before, now, other, i as int);
                    }
                }
            },
            None => {
                let mut rows: Vec<usize> = Vec::new();
                rows.push(row_id);
                self.values.push((value, rows));
                proof {
                    let now = self.values@;
                    assert(rows@ =~= seq![row_id]);
                    assert forall|a: int, b: int| 0 <= a < b < now.len() implies (#[trigger] now[a]).0@
                        != (#[trigger] now[b]).0@ by {
                        if b < before.len() {
                            assert(before[a].0@ != before[b].0@);
                        } else {
                            assert(before[a].0@ != value@);
                        }
                    }
                    lemma_rows_of(now, value@, before.len() as int);
                    assert forall|other: Seq<char>| other != value@ implies self.rows(other) == old(self).rows(other) by {
                        lemma_rows_pushed(before, now[before.len() as int], other);
                    }
                }
            },
        }
    }

    /// Takes the first `row_id` out of the rows listed under `value`. The
    /// value stays listed, with the rows that are left.
    pub fn remove(&mut self, value: &str, row_id: usize)
        requires
            old(self).wf(),
        ensures
            final(self).wf(),
            final(self).spec_name() == old(self).spec_name(),
            final(self).spec_column() == old(self).spec_column(),
            final(self).rows(value@) == match old(self).rows(value@) {
                Some(rows) => Some(without_first(rows, row_id)),
                None => None,
            },
            forall|other: Seq<char>| other != value@ ==> final(self).rows(other) == old(self).rows(other),
    {
        let ghost before = self.values@;
        match self.place(value) {
            Some(i) => {
                match first_row(&self.values[i].1, row_id) {
                    Some(k) => {
                        self.values[i].1.remove(k);
                        proof {
                            let now = self.values@;
                            assert forall|a: int, b: int| 0 <= a < b < now.len() implies (
                            #[trigger] now[a]).0@ != (#[trigger] now[b]).0@ by {
                                assert(before[a].0@ != before[b].0@);
                            }
                            lemma_rows_of(now, value@, i as int);
                            assert forall|other: Seq<char>| other != value@ implies self.rows(other)
                                == old(self).rows(other) by {
                                lemma_rows_same_names(before, now, other, i as int);
                            }
                        }
                    },
                    None => {},
                }
            },
            None => {},
        }
    }

    /// The rows listed under `value`.
    pub fn find(&self, value: &str) -> (r: Option<&Vec<usize>>)
        ensures
            match r {
                Some(rows) => self.rows(value@) == Some(rows@),
                None => self.rows(value@) is None,
            },
    {
        match self.place(value) {
            Some(i) => Some(&self.values[i].1),
            None => None,
        }
    }
}

/// A change of the rows of one entry changes the answer for no other value.
proof fn lemma_rows_same_names(
    before: Seq<(String, Vec<usize>)>,
    now: Seq<(String, Vec<usize>)>,
    other: Seq<char>,
    i: int,
)
    requires
        now.len() == before.len(),
        0 <= i < before.len() ==> before[i].0@ != other,
        forall|k: int| 0 <= k < before.len() ==> (#[trigger] now[k]).0@ == before[k].0@,
        forall|k: int| 0 <= k < before.len() && k != i ==> (#[trigger] now[k]).1@ == before[k].1@,
    ensures
        rows_of(now, other) == rows_of(before, other),
    decreases before.len(),
{
    if before.len() > 0 {
        assert(now[0].0@ == before[0].0@);
        if before[0].0@ == other {
            assert(now[0].1@ == before[0].1@);
        } else {
            let b = before.drop_first();
            let n = now.drop_first();
            assert forall|k: int| 0 <= k < b.len() implies (#[trigger] n[k]).0@ == b[k].0@ by {
                assert(now[k + 1].0@ == before[k + 1].0@);
            }
            assert forall|k: int| 0 <= k < b.len() && k != i - 1 implies (#[trigger] n[k]).1@
                == b[k].1@ by {
                assert(now[k + 1].1@ == before[k + 1].1@);
            }
            lemma_rows_same_names(b, n, other, i - 1);
        }
    }
}

/// A new entry changes the answer for no other value.
proof fn lemma_rows_pushed(before: Seq<(String, Vec<usize>)>, entry: (String, Vec<usize>), other: Seq<char>)
    requires
        entry.0@ != other,
    ensures
        rows_of(before.push(entry), other) == rows_of(before, other),
    decreases before.len(),
{
    let now = before.push(entry);
    if before.len() == 0 {
        assert(now[0] == entry);
        assert(now.drop_first().len() == 0);
        assert(rows_of(now.drop_first(), other) is None);
        assert(rows_of(before, other) is None);
    } else {
        assert(now[0] == before[0]);
        assert(now.drop_first() =~= before.drop_first().push(entry));
        lemma_rows_pushed(before.drop_first(), entry, other);
    }
}

} // verus!
