//! Rows in groups and in order: what `GROUP BY` needs.

use vstd::prelude::*;
use vstd::string::StringExecFns;
use vstd::utf8::encode_utf8;
use super::column::text_views;
use super::join::{row_views, short_row_message};
use super::select::shown_values;
use super::where_clause::{bytes_before, goes_before, text_before};
use crate::query::error::{QueryError, QueryErrorView};
use crate::text::same_text;

verus! {

/// Whether the row `a` comes before the row `b`: by the first value in
/// which they differ, or as the shorter of the two where one begins the
/// other.
pub open spec fn row_before(a: Seq<Seq<char>>, b: Seq<Seq<char>>) -> bool
    decreases a.len(),
{
    if b.len() == 0 {
        false
    } else if a.len() == 0 {
        true
    } else if a[0] != b[0] {
        text_before(a[0], b[0])
    } else {
        row_before(a.drop_first(), b.drop_first())
    }
}

/// The first place from `from` on where a row goes in rows that are in
/// order: before the first row that comes after it.
pub open spec fn row_place(sorted: Seq<Seq<Seq<char>>>, row: Seq<Seq<char>>, from: int) -> int
    decreases sorted.len() - from,
{
    if from < 0 || from >= sorted.len() || row_before(row, sorted[from]) {
        from
    } else {
        row_place(sorted, row, from + 1)
    }
}

/// The rows in order; rows that are the same stay in the order in which
/// they came.
pub open spec fn sorted_rows(rows: Seq<Seq<Seq<char>>>) -> Seq<Seq<Seq<char>>>
    decreases rows.len(),
{
    if rows.len() == 0 {
        Seq::empty()
    } else {
        let rest = sorted_rows(rows.drop_last());
        rest.insert(row_place(rest, rows.last(), 0), rows.last())
    }
}

/// Whether no row of `s` comes before a row that stands before it.
pub open spec fn rows_rise(s: Seq<Seq<Seq<char>>>) -> bool {
    forall|i: int, j: int| 0 <= i < j < s.len() ==> !row_before(#[trigger] s[j], #[trigger] s[i])
}

/// A group of rows: the values that the rows share, and the rows.
pub struct GroupView {
    pub key: Seq<Seq<char>>,
    pub rows: Seq<Seq<Seq<char>>>,
}

/// How many groups lie from `from` on before the group of `key`, or the
/// end.
pub open spec fn groups_before(groups: Seq<GroupView>, key: Seq<Seq<char>>, from: int) -> nat
    decreases groups.len() - from,
{
    if from < 0 || from >= groups.len() || groups[from].key == key {
        0
    } else {
        1 + groups_before(groups, key, from + 1)
    }
}

/// The place of the group of `key`, or the number of groups.
pub open spec fn group_place(groups: Seq<GroupView>, key: Seq<Seq<char>>) -> int {
    groups_before(groups, key, 0) as int
}

/// The rows in groups by their values at `places`: the groups in the order
/// in which their first rows came, the rows of a group in the order in
/// which they came.
pub open spec fn grouped(rows: Seq<Seq<Seq<char>>>, places: Seq<int>) -> Seq<GroupView>
    decreases rows.len(),
{
    if rows.len() == 0 {
        Seq::empty()
    } else {
        let rest = grouped(rows.drop_last(), places);
        let key = shown_values(rows.last(), places);
        let g = group_place(rest, key);
        if g < rest.len() {
            rest.update(g, GroupView { key, rows: rest[g].rows.push(rows.last()) })
        } else {
            rest.push(GroupView { key, rows: seq![rows.last()] })
        }
    }
}

/// Whether every row has a value at each of the places.
pub open spec fn rows_are_wide(rows: Seq<Seq<Seq<char>>>, places: Seq<int>) -> bool {
    forall|k: int, i: int|
        0 <= k < rows.len() && 0 <= i < places.len() ==> 0 <= #[trigger] places[i] < (
        #[trigger] rows[k]).len()
}

/// A group of rows.
#[derive(Debug)]
pub struct Group {
    pub key: Vec<String>,
    pub rows: Vec<Vec<String>>,
}

impl View for Group {
    type V = GroupView;

    open spec fn view(&self) -> GroupView {
        GroupView { key: text_views(self.key@), rows: row_views(self.rows@) }
    }
}

/// What each group holds.
pub open spec fn group_views(groups: Seq<Group>) -> Seq<GroupView> {
    groups.map_values(|g: Group| g@)
}

/// No bytes come before themselves.
pub proof fn lemma_bytes_irreflexive(a: Seq<u8>)
    ensures
        !bytes_before(a, a),
    decreases a.len(),
{
    if a.len() > 0 {
        lemma_bytes_irreflexive(a.drop_first());
    }
}

/// What comes before what comes before a third comes before the third.
pub proof fn lemma_bytes_transitive(a: Seq<u8>, b: Seq<u8>, c: Seq<u8>)
    requires
        bytes_before(a, b),
        bytes_before(b, c),
    ensures
        bytes_before(a, c),
    decreases a.len(),
{
    if a.len() > 0 && b.len() > 0 && c.len() > 0 {
        if a[0] == b[0] && b[0] == c[0] {
            lemma_bytes_transitive(a.drop_first(), b.drop_first(), c.drop_first());
        }
    }
}

/// No row comes before itself.
pub proof fn lemma_row_irreflexive(a: Seq<Seq<char>>)
    ensures
        !row_before(a, a),
    decreases a.len(),
{
    if a.len() > 0 {
        lemma_row_irreflexive(a.drop_first());
    }
}

/// A row that comes before a row that comes before a third comes before the
/// third.
pub proof fn lemma_row_transitive(a: Seq<Seq<char>>, b: Seq<Seq<char>>, c: Seq<Seq<char>>)
    requires
        row_before(a, b),
        row_before(b, c),
    ensures
        row_before(a, c),
    decreases a.len(),
{
    if a.len() > 0 && b.len() > 0 && c.len() > 0 {
        let x = encode_utf8(a[0]);
        let y = encode_utf8(b[0]);
        let z = encode_utf8(c[0]);
        if a[0] == b[0] && b[0] == c[0] {
            lemma_row_transitive(a.drop_first(), b.drop_first(), c.drop_first());
        } else if a[0] != b[0] && b[0] != c[0] {
            lemma_bytes_transitive(x, y, z);
            if a[0] == c[0] {
                lemma_bytes_transitive(x, y, x);
                lemma_bytes_irreflexive(x);
            }
        }
    }
}

/// Where a row goes lies within the rows, behind the rows that do not come
/// after it and before a row that does.
pub proof fn lemma_row_place(sorted: Seq<Seq<Seq<char>>>, row: Seq<Seq<char>>, from: int)
    requires
        0 <= from <= sorted.len(),
    ensures
        from <= row_place(sorted, row, from) <= sorted.len(),
        forall|k: int|
            from <= k < row_place(sorted, row, from) ==> !row_before(row, #[trigger] sorted[k]),
        row_place(sorted, row, from) < sorted.len() ==> row_before(
            row,
            sorted[row_place(sorted, row, from)],
        ),
    decreases sorted.len() - from,
{
    if from < sorted.len() && !row_before(row, sorted[from]) {
        lemma_row_place(sorted, row, from + 1);
    }
}

/// The rows in order are in order, and they are the rows that were given,
/// each as often as it was given.
pub proof fn lemma_sorted_rows(rows: Seq<Seq<Seq<char>>>)
    ensures
        rows_rise(sorted_rows(rows)),
        sorted_rows(rows).to_multiset() == rows.to_multiset(),
        sorted_rows(rows).len() == rows.len(),
    decreases rows.len(),
{
    if rows.len() == 0 {
        assert(rows =~= Seq::<Seq<Seq<char>>>::empty());
    } else {
        let init = rows.drop_last();
        let rest = sorted_rows(init);
        let r = rows.last();
        lemma_sorted_rows(init);
        let p = row_place(rest, r, 0);
        lemma_row_place(rest, r, 0);
        let out = rest.insert(p, r);
        assert forall|i: int, j: int| 0 <= i < j < out.len() implies !row_before(
            #[trigger] out[j],
            #[trigger] out[i],
        ) by {
            let a = if i < p { i } else { i - 1 };
            let b = if j < p { j } else { j - 1 };
            if i == p {
                // out[i] is the new row; out[j] is rest[b] with b >= p
                if row_before(rest[b], r) {
                    lemma_row_transitive(rest[b], r, rest[p]);
                    if b == p {
                        lemma_row_irreflexive(rest[p]);
                    } else {
                        assert(!row_before(rest[b], rest[p]));
                    }
                }
            } else if j == p {
                assert(!row_before(r, rest[a]));
            } else {
                assert(!row_before(rest[b], rest[a]));
            }
        }
        vstd::seq_lib::to_multiset_insert(rest, p, r);
        assert(rows =~= init.push(r));
        vstd::seq_lib::to_multiset_build(init, r);
        assert(out.to_multiset() == rest.to_multiset().insert(r));
        assert(init.push(r).to_multiset() =~= init.to_multiset().insert(r));
        assert(out.to_multiset() =~= rows.to_multiset());
    }
}

/// Whether the row `a` comes before the row `b`.
pub fn row_goes_before(a: &Vec<String>, b: &Vec<String>) -> (r: bool)
    ensures
        r == row_before(text_views(a@), text_views(b@)),
{
    let ghost x = text_views(a@);
    let ghost y = text_views(b@);
    let mut i: usize = 0;
    proof {
        assert(x.subrange(0, x.len() as int) =~= x);
        assert(y.subrange(0, y.len() as int) =~= y);
    }
    while i < a.len() && i < b.len()
        invariant
            i <= a@.len(),
            i <= b@.len(),
            x == text_views(a@),
            y == text_views(b@),
            row_before(x, y) == row_before(
                x.subrange(i as int, x.len() as int),
                y.subrange(i as int, y.len() as int),
            ),
        decreases a@.len() - i,
    {
        let ghost p = x.subrange(i as int, x.len() as int);
        let ghost q = y.subrange(i as int, y.len() as int);
        proof {
            assert(p[0] == a@[i as int]@);
            assert(q[0] == b@[i as int]@);
            assert(p.drop_first() =~= x.subrange(i + 1, x.len() as int));
            assert(q.drop_first() =~= y.subrange(i + 1, y.len() as int));
        }
        if !same_text(a[i].as_str(), b[i].as_str()) {
            return goes_before(a[i].as_str(), b[i].as_str());
        }
        i += 1;
    }
    i < b.len()
}

/// The rows in order; rows that are the same stay in the order in which
/// they came.
pub fn sort_rows(rows: Vec<Vec<String>>) -> (r: Vec<Vec<String>>)
    ensures
        row_views(r@) == sorted_rows(row_views(rows@)),
        rows_rise(row_views(r@)),
        row_views(r@).to_multiset() == row_views(rows@).to_multiset(),
{
    let ghost all = row_views(rows@);
    let mut out: Vec<Vec<String>> = Vec::new();
    proof {
        assert(all.subrange(0, 0) =~= Seq::<Seq<Seq<char>>>::empty());
        assert(row_views(out@) =~= Seq::<Seq<Seq<char>>>::empty());
    }
    for row in it: rows
        invariant
            it.seq() == rows@,
            all == row_views(rows@),
            row_views(out@) == sorted_rows(all.subrange(0, it.index() as int)),
    {
        let ghost k = it.index() as int;
        let ghost sorted = row_views(out@);
        let ghost this = text_views(row@);
        proof {
            assert(all[k] == this);
            assert(all.subrange(0, k + 1).drop_last() =~= all.subrange(0, k));
            assert(all.subrange(0, k + 1).last() == this);
        }
        let mut p: usize = 0;
        while p < out.len() && !row_goes_before(&row, &out[p])
            invariant
                p <= out@.len(),
                sorted == row_views(out@),
                this == text_views(row@),
                row_place(sorted, this, 0) == row_place(sorted, this, p as int),
            decreases out@.len() - p,
        {
            proof {
                assert(sorted[p as int] == text_views(out@[p as int]@));
            }
            p += 1;
        }
        proof {
            if p < out@.len() {
                assert(sorted[p as int] == text_views(out@[p as int]@));
            }
        }
        out.insert(p, row);
        proof {
            assert(row_views(out@) =~= sorted.insert(p as int, this));
        }
    }
    proof {
        assert(all.subrange(0, all.len() as int) =~= all);
        lemma_sorted_rows(all);
    }
    out
}

/// The first group of the key is where it is found.
proof fn lemma_group_place(groups: Seq<GroupView>, key: Seq<Seq<char>>, from: int, at: int)
    requires
        0 <= from <= at <= groups.len(),
        forall|k: int| from <= k < at ==> (#[trigger] groups[k]).key != key,
        at == groups.len() || groups[at].key == key,
    ensures
        from + groups_before(groups, key, from) == at,
    decreases at - from,
{
    if from < at {
        lemma_group_place(groups, key, from + 1, at);
    }
}

/// Whether two rows hold the same values.
fn same_row(a: &Vec<String>, b: &Vec<String>) -> (r: bool)
    ensures
        r == (text_views(a@) == text_views(b@)),
{
    if a.len() != b.len() {
        assert(text_views(a@).len() != text_views(b@).len());
        return false;
    }
    let mut i: usize = 0;
    while i < a.len()
        invariant
            i <= a@.len(),
            a@.len() == b@.len(),
            forall|k: int| 0 <= k < i ==> a@[k]@ == b@[k]@,
        decreases a@.len() - i,
    {
        if !same_text(a[i].as_str(), b[i].as_str()) {
            assert(text_views(a@)[i as int] != text_views(b@)[i as int]);
            return false;
        }
        i += 1;
    }
    assert(text_views(a@) =~= text_views(b@));
    true
}

/// The rows in groups by their values at `places`. A row that lacks one of
/// the places is refused.
pub fn group_rows(rows: &Vec<Vec<String>>, places: &Vec<usize>) -> (r: Result<Vec<Group>, QueryError>)
    ensures
        ({
            let rv = row_views(rows@);
            let pv = places@.map_values(|p: usize| p as int);
            match r {
                Ok(groups) => rows_are_wide(rv, pv) && group_views(groups@) == grouped(rv, pv),
                Err(e) => !rows_are_wide(rv, pv) && e@ == QueryErrorView::InternalError(
                    short_row_message(),
                ),
            }
        }),
{
    let ghost rv = row_views(rows@);
    let ghost pv = places@.map_values(|p: usize| p as int);
    let mut groups: Vec<Group> = Vec::new();
    let mut k: usize = 0;
    proof {
        assert(rv.subrange(0, 0) =~= Seq::<Seq<Seq<char>>>::empty());
        assert(group_views(groups@) =~= Seq::<GroupView>::empty());
    }
    while k < rows.len()
        invariant
            k <= rows@.len(),
            rv == row_views(rows@),
            pv == places@.map_values(|p: usize| p as int),
            rows_are_wide(rv.subrange(0, k as int), pv),
            group_views(groups@) == grouped(rv.subrange(0, k as int), pv),
        decreases rows@.len() - k,
    {
        let row = &rows[k];
        let ghost this = text_views(row@);
        let ghost seen = rv.subrange(0, k as int);
        let ghost before = group_views(groups@);
        proof {
            assert(rv[k as int] == this);
            assert(rv.subrange(0, k + 1).drop_last() =~= seen);
            assert(rv.subrange(0, k + 1).last() == this);
        }
        let mut key: Vec<String> = Vec::new();
        let mut i: usize = 0;
        while i < places.len()
            invariant
                i <= places@.len(),
                k < rows@.len(),
                row == &rows@[k as int],
                this == text_views(row@),
                rv == row_views(rows@),
                rv[k as int] == this,
                pv == places@.map_values(|p: usize| p as int),
                key@.len() == i,
                forall|j: int| 0 <= j < i ==> 0 <= #[trigger] pv[j] < this.len(),
                forall|j: int| 0 <= j < i ==> (#[trigger] key@[j])@ == this[pv[j]],
            decreases places@.len() - i,
        {
            let place = places[i];
            proof {
                assert(pv[i as int] == place);
            }
            if place >= row.len() {
                proof {
                    assert(!(0 <= pv[i as int] < rv[k as int].len()));
                }
                return Err(
                    QueryError::InternalError(String::from_str("Row is shorter than its headers")),
                );
            }
            proof {
                assert(this[place as int] == row@[place as int]@);
            }
            key.push(row[place].clone());
            i += 1;
        }
        proof {
            assert(text_views(key@) =~= shown_values(this, pv));
            assert forall|a: int, b: int|
                0 <= a < k + 1 && 0 <= b < pv.len() implies 0 <= #[trigger] pv[b] < (
            #[trigger] rv.subrange(0, k + 1)[a]).len() by {
                if a < k {
                    assert(rv.subrange(0, k + 1)[a] == seen[a]);
                }
            }
        }
        let mut g: usize = 0;
        while g < groups.len() && !same_row(&groups[g].key, &key)
            invariant
                g <= groups@.len(),
                before == group_views(groups@),
                forall|j: int| 0 <= j < g ==> (#[trigger] before[j]).key != text_views(key@),
            decreases groups@.len() - g,
        {
            proof {
                assert(before[g as int] == groups@[g as int]@);
            }
            g += 1;
        }
        proof {
            if g < groups@.len() {
                assert(before[g as int] == groups@[g as int]@);
            }
            lemma_group_place(before, text_views(key@), 0, g as int);
        }
        let mut copy: Vec<String> = Vec::new();
        let mut c: usize = 0;
        while c < row.len()
            invariant
                c <= row@.len(),
                copy@.len() == c,
                forall|j: int| 0 <= j < c ==> (#[trigger] copy@[j])@ == row@[j]@,
            decreases row@.len() - c,
        {
            copy.push(row[c].clone());
            c += 1;
        }
        proof {
            assert(text_views(copy@) =~= this);
        }
        if g < groups.len() {
            let ghost old_rows = row_views(groups@[g as int].rows@);
            let ghost old_key = text_views(groups@[g as int].key@);
            groups[g].rows.push(copy);
            proof {
                assert(row_views(groups@[g as int].rows@) =~= old_rows.push(this));
                assert(group_views(groups@) =~= before.update(
                    g as int,
                    GroupView { key: text_views(key@), rows: before[g as int].rows.push(this) },
                ));
            }
        } else {
            let mut first: Vec<Vec<String>> = Vec::new();
            first.push(copy);
            proof {
                assert(row_views(first@) =~= seq![this]);
            }
            groups.push(Group { key, rows: first });
            proof {
                assert(group_views(groups@) =~= before.push(
                    GroupView { key: shown_values(this, pv), rows: seq![this] },
                ));
            }
        }
        k += 1;
    }
    proof {
        assert(rv.subrange(0, k as int) =~= rv);
    }
    Ok(groups)
}

} // verus!
