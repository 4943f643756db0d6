//! Runs of records in key order: how they are built and merged.

use vstd::prelude::*;
use super::block::{distinct_ids, first_at, has_id, lemma_first_at, lemma_has_first, lookup, position};
use super::record::{Record, RecordView};

verus! {

/// What each record of `v` is, in order.
pub open spec fn views(v: Seq<Record>) -> Seq<RecordView> {
    v.map_values(|r: Record| r@)
}

/// Whether the keys of `s` rise strictly from one record to the next.
pub open spec fn ascending(s: Seq<RecordView>) -> bool {
    forall|i: int, j: int| 0 <= i < j < s.len() ==> #[trigger] s[i].id < #[trigger] s[j].id
}

/// Whether `i` is the place of the last record of `s` with the key `id`.
pub open spec fn last_at(s: Seq<RecordView>, id: u64, i: int) -> bool {
    &&& 0 <= i < s.len()
    &&& s[i].id == id
    &&& forall|j: int| i < j < s.len() ==> #[trigger] s[j].id != id
}

/// The last record of `s` with the key `id`.
pub open spec fn lookup_last(s: Seq<RecordView>, id: u64) -> Option<RecordView> {
    if has_id(s, id) {
        Some(s[choose|i: int| last_at(s, id, i)])
    } else {
        None
    }
}

/// What a reader finds under `id` when `newer` lies over `older`.
pub open spec fn overlay(older: Seq<RecordView>, newer: Seq<RecordView>, id: u64) -> Option<
    RecordView,
> {
    if has_id(newer, id) {
        lookup(newer, id)
    } else {
        lookup(older, id)
    }
}

/// Keys that rise strictly do not repeat.
pub proof fn lemma_ascending_distinct(s: Seq<RecordView>)
    requires
        ascending(s),
    ensures
        distinct_ids(s),
{
}

/// Where no key repeats, each record is what a lookup of its key finds.
pub proof fn lemma_lookup_distinct(s: Seq<RecordView>, i: int)
    requires
        distinct_ids(s),
        0 <= i < s.len(),
    ensures
        lookup(s, s[i].id) == Some(s[i]),
        lookup_last(s, s[i].id) == Some(s[i]),
{
    let id = s[i].id;
    assert forall|j: int| 0 <= j < i implies #[trigger] s[j].id != id by {
        assert(s[j].id != s[i].id);
    }
    assert(first_at(s, id, i));
    lemma_first_at(s, id, i);
    assert forall|j: int| i < j < s.len() implies #[trigger] s[j].id != id by {
        assert(s[i].id != s[j].id);
    }
    lemma_last_at(s, id, i);
}

/// The last match is the only last match.
pub proof fn lemma_last_at(s: Seq<RecordView>, id: u64, i: int)
    requires
        last_at(s, id, i),
    ensures
        has_id(s, id),
        lookup_last(s, id) == Some(s[i]),
{
    let p = choose|p: int| last_at(s, id, p);
    assert(last_at(s, id, p));
    if p < i {
        assert(s[i].id != id);
    }
    if i < p {
        assert(s[p].id != id);
    }
}

/// Where no key repeats, the first and the last record of a key are one.
pub proof fn lemma_distinct_last(s: Seq<RecordView>, id: u64)
    requires
        distinct_ids(s),
    ensures
        lookup_last(s, id) == lookup(s, id),
{
    if has_id(s, id) {
        lemma_has_first(s, id);
        lemma_lookup_distinct(s, position(s, id));
    }
}

/// Appending a record makes it the last of its key and leaves other keys alone.
pub proof fn lemma_last_push(s: Seq<RecordView>, r: RecordView, id: u64)
    ensures
        lookup_last(s.push(r), id) == if id == r.id {
            Some(r)
        } else {
            lookup_last(s, id)
        },
{
    let t = s.push(r);
    if id == r.id {
        assert(t[s.len() as int] == r);
        assert(last_at(t, id, s.len() as int));
        lemma_last_at(t, id, s.len() as int);
    } else if has_id(s, id) {
        let k = choose|i: int| 0 <= i < s.len() && #[trigger] s[i].id == id;
        lemma_has_last(s, id, k);
        let p = choose|p: int| last_at(s, id, p);
        assert(t[p] == s[p]);
        assert forall|j: int| p < j < t.len() implies #[trigger] t[j].id != id by {
            if j < s.len() {
                assert(s[j].id != id);
            }
        }
        assert(last_at(t, id, p));
        lemma_last_at(t, id, p);
        lemma_last_at(s, id, p);
    } else {
        assert forall|i: int| 0 <= i < t.len() implies #[trigger] t[i].id != id by {
            if i < s.len() {
                assert(s[i].id != id);
            }
        }
    }
}

proof fn lemma_has_last(s: Seq<RecordView>, id: u64, k: int)
    requires
        0 <= k < s.len(),
        s[k].id == id,
    ensures
        exists|i: int| last_at(s, id, i),
    decreases s.len() - k,
{
    if exists|j: int| k < j < s.len() && #[trigger] s[j].id == id {
        let j = choose|j: int| k < j < s.len() && #[trigger] s[j].id == id;
        lemma_has_last(s, id, j);
    } else {
        assert(last_at(s, id, k));
    }
}

/// Two runs in key order that answer every lookup alike are the same run.
pub proof fn lemma_ascending_canonical(a: Seq<RecordView>, b: Seq<RecordView>)
    requires
        ascending(a),
        ascending(b),
        forall|id: u64| lookup(a, id) == lookup(b, id),
    ensures
        a == b,
    decreases a.len(),
{
    lemma_ascending_distinct(a);
    lemma_ascending_distinct(b);
    if a.len() == 0 {
        if b.len() > 0 {
            lemma_lookup_distinct(b, 0);
            assert(lookup(a, b[0].id) == lookup(b, b[0].id));
            assert(has_id(a, b[0].id));
        }
        assert(a =~= b);
    } else {
        let n = a.len() - 1;
        lemma_lookup_distinct(a, n);
        assert(lookup(a, a[n].id) == lookup(b, a[n].id));
        assert(has_id(b, a[n].id));
        let m = b.len() - 1;
        lemma_lookup_distinct(b, m);
        assert(lookup(a, b[m].id) == lookup(b, b[m].id));
        assert(has_id(a, b[m].id));
        let ka = choose|i: int| 0 <= i < a.len() && #[trigger] a[i].id == b[m].id;
        let kb = choose|i: int| 0 <= i < b.len() && #[trigger] b[i].id == a[n].id;
        if ka < n {
            assert(a[ka].id < a[n].id);
        }
        if kb < m {
            assert(b[kb].id < b[m].id);
        }
        assert(a[n].id == b[m].id);
        assert(a[n] == b[m]);
        let a0 = a.drop_last();
        let b0 = b.drop_last();
        assert forall|id: u64| lookup(a0, id) == lookup(b0, id) by {
            lemma_drop_last_lookup(a, id);
            lemma_drop_last_lookup(b, id);
            assert(lookup(a, id) == lookup(b, id));
        }
        lemma_ascending_canonical(a0, b0);
        assert(a =~= a0.push(a[n]));
        assert(b =~= b0.push(b[m]));
    }
}

proof fn lemma_drop_last_lookup(s: Seq<RecordView>, id: u64)
    requires
        ascending(s),
        s.len() > 0,
    ensures
        ascending(s.drop_last()),
        lookup(s.drop_last(), id) == if id == s.last().id {
            None
        } else {
            lookup(s, id)
        },
{
    let t = s.drop_last();
    assert forall|i: int, j: int| 0 <= i < j < t.len() implies #[trigger] t[i].id
        < #[trigger] t[j].id by {
        assert(s[i].id < s[j].id);
    }
    lemma_ascending_distinct(s);
    lemma_ascending_distinct(t);
    if has_id(t, id) {
        let k = choose|i: int| 0 <= i < t.len() && #[trigger] t[i].id == id;
        assert(s[k].id < s[s.len() - 1].id);
        lemma_lookup_distinct(t, k);
        lemma_lookup_distinct(s, k);
    } else if id != s.last().id {
        if has_id(s, id) {
            let k = choose|i: int| 0 <= i < s.len() && #[trigger] s[i].id == id;
            assert(t[k].id == id);
        }
    }
}

/// Putting a record with a new key into a run leaves the other keys as they were.
pub proof fn lemma_lookup_insert(s: Seq<RecordView>, p: int, r: RecordView, id: u64)
    requires
        0 <= p <= s.len(),
        distinct_ids(s.insert(p, r)),
    ensures
        distinct_ids(s),
        lookup(s.insert(p, r), id) == if id == r.id {
            Some(r)
        } else {
            lookup(s, id)
        },
{
    let t = s.insert(p, r);
    assert forall|i: int, j: int| 0 <= i < j < s.len() implies #[trigger] s[i].id
        != #[trigger] s[j].id by {
        let a = if i < p { i } else { i + 1 };
        let b = if j < p { j } else { j + 1 };
        assert(t[a].id != t[b].id);
    }
    if id == r.id {
        assert(t[p] == r);
        lemma_lookup_distinct(t, p);
    } else if has_id(s, id) {
        let k = choose|i: int| 0 <= i < s.len() && #[trigger] s[i].id == id;
        let a = if k < p { k } else { k + 1 };
        assert(t[a] == s[k]);
        lemma_lookup_distinct(t, a);
        lemma_lookup_distinct(s, k);
    } else {
        if has_id(t, id) {
            let k = choose|i: int| 0 <= i < t.len() && #[trigger] t[i].id == id;
            let a = if k < p { k } else { k - 1 };
            assert(s[a].id == id);
        }
    }
}

/// Replacing a record by one of the same key leaves the other keys as they were.
pub proof fn lemma_lookup_update(s: Seq<RecordView>, p: int, r: RecordView, id: u64)
    requires
        0 <= p < s.len(),
        distinct_ids(s),
        s[p].id == r.id,
    ensures
        distinct_ids(s.update(p, r)),
        lookup(s.update(p, r), id) == if id == r.id {
            Some(r)
        } else {
            lookup(s, id)
        },
{
    let t = s.update(p, r);
    assert forall|i: int, j: int| 0 <= i < j < t.len() implies #[trigger] t[i].id
        != #[trigger] t[j].id by {
        assert(s[i].id != s[j].id);
    }
    if id == r.id {
        lemma_lookup_distinct(t, p);
    } else if has_id(s, id) {
        let k = choose|i: int| 0 <= i < s.len() && #[trigger] s[i].id == id;
        assert(t[k] == s[k]);
        lemma_lookup_distinct(t, k);
        lemma_lookup_distinct(s, k);
    } else {
        if has_id(t, id) {
            let k = choose|i: int| 0 <= i < t.len() && #[trigger] t[i].id == id;
            assert(s[k].id == id);
        }
    }
}

/// Taking a record out of a run leaves the other keys as they were.
pub proof fn lemma_lookup_remove(s: Seq<RecordView>, p: int, id: u64)
    requires
        0 <= p < s.len(),
        distinct_ids(s),
    ensures
        distinct_ids(s.remove(p)),
        lookup(s.remove(p), id) == if id == s[p].id {
            None
        } else {
            lookup(s, id)
        },
{
    let t = s.remove(p);
    assert(s =~= t.insert(p, s[p]));
    lemma_lookup_insert(t, p, s[p], id);
    if id == s[p].id {
        if has_id(t, id) {
            let k = choose|i: int| 0 <= i < t.len() && #[trigger] t[i].id == id;
            let a = if k < p { k } else { k + 1 };
            assert(s[a].id == id);
            assert(s[a].id != s[p].id);
        }
    }
}

/// The records of `input` by rising key, each key once, with the payload of
/// its last occurrence.
pub fn sort_records(input: &Vec<Record>) -> (out: Vec<Record>)
    ensures
        ascending(views(out@)),
        forall|id: u64| #[trigger] lookup(views(out@), id) == lookup_last(views(input@), id),
{
    let mut out: Vec<Record> = Vec::new();
    let mut k: usize = 0;
    proof {
        assert(views(input@).subrange(0, 0) =~= Seq::<RecordView>::empty());
        assert(views(out@) =~= Seq::<RecordView>::empty());
    }
    while k < input.len()
        invariant
            k <= input@.len(),
            ascending(views(out@)),
            forall|id: u64| #[trigger] lookup(views(out@), id) == lookup_last(
                views(input@).subrange(0, k as int),
                id,
            ),
        decreases input@.len() - k,
    {
        let item = input[k].clone();
        let ghost before = views(out@);
        let ghost seen = views(input@).subrange(0, k as int);
        let mut p: usize = 0;
        while p < out.len() && out[p].id < item.id
            invariant
                p <= out@.len(),
                forall|i: int| 0 <= i < p ==> (#[trigger] views(out@)[i]).id < item.id,
            decreases out@.len() - p,
        {
            p += 1;
        }
        if p < out.len() && out[p].id == item.id {
            out[p] = item;
            proof {
                assert(views(out@) =~= before.update(p as int, item@));
                assert forall|i: int, j: int| 0 <= i < j < views(out@).len() implies
                    (#[trigger] views(out@)[i]).id < (#[trigger] views(out@)[j]).id by {
                    assert(before[i].id < before[j].id);
                }
                lemma_ascending_distinct(before);
                assert forall|id: u64| #[trigger] lookup(views(out@), id) == lookup_last(
                    views(input@).subrange(0, k + 1),
                    id,
                ) by {
                    lemma_lookup_update(before, p as int, item@, id);
                    lemma_last_push(seen, item@, id);
                    assert(views(input@).subrange(0, k + 1) =~= seen.push(item@));
                    assert(lookup(before, id) == lookup_last(seen, id));
                }
            }
        } else {
            out.insert(p, item);
            proof {
                assert(views(out@) =~= before.insert(p as int, item@));
                assert forall|i: int, j: int| 0 <= i < j < views(out@).len() implies
                    (#[trigger] views(out@)[i]).id < (#[trigger] views(out@)[j]).id by {
                    let a = if i < p { i } else { i - 1 };
                    let b = if j < p { j } else { j - 1 };
                    if i == p {
                        assert(before[p as int].id <= before[b].id) by {
                            if b > p {
                                assert(before[p as int].id < before[b].id);
                            }
                        }
                    } else if j == p {
                    } else {
                        assert(before[a].id < before[b].id);
                    }
                }
                lemma_ascending_distinct(views(out@));
                assert forall|id: u64| #[trigger] lookup(views(out@), id) == lookup_last(
                    views(input@).subrange(0, k + 1),
                    id,
                ) by {
                    lemma_lookup_insert(before, p as int, item@, id);
                    lemma_last_push(seen, item@, id);
                    assert(views(input@).subrange(0, k + 1) =~= seen.push(item@));
                    assert(lookup(before, id) == lookup_last(seen, id));
                }
            }
        }
        k += 1;
    }
    proof {
        assert(views(input@).subrange(0, k as int) =~= views(input@));
    }
    out
}

/// Appending a record with a new key leaves the other keys as they were.
pub proof fn lemma_lookup_push(s: Seq<RecordView>, r: RecordView, id: u64)
    requires
        distinct_ids(s.push(r)),
    ensures
        distinct_ids(s),
        lookup(s.push(r), id) == if id == r.id {
            Some(r)
        } else {
            lookup(s, id)
        },
{
    assert(s.push(r) =~= s.insert(s.len() as int, r));
    lemma_lookup_insert(s, s.len() as int, r, id);
}

/// A prefix of a run in key order is in key order.
pub proof fn lemma_ascending_prefix(s: Seq<RecordView>, n: int)
    requires
        ascending(s),
        0 <= n <= s.len(),
    ensures
        ascending(s.subrange(0, n)),
        distinct_ids(s.subrange(0, n)),
{
    let t = s.subrange(0, n);
    assert forall|i: int, j: int| 0 <= i < j < t.len() implies #[trigger] t[i].id
        < #[trigger] t[j].id by {
        assert(s[i].id < s[j].id);
    }
}

/// The run in key order that a reader sees when `newer` lies over `older`:
/// every key of either, with the payload of `newer` where both have it.
pub fn merge_records(older: &Vec<Record>, newer: &Vec<Record>) -> (out: Vec<Record>)
    requires
        ascending(views(older@)),
        ascending(views(newer@)),
    ensures
        ascending(views(out@)),
        forall|id: u64| #[trigger]
            lookup(views(out@), id) == overlay(views(older@), views(newer@), id),
{
    let mut out: Vec<Record> = Vec::new();
    let mut i: usize = 0;
    let mut j: usize = 0;
    let ghost o = views(older@);
    let ghost n = views(newer@);
    proof {
        assert(views(out@) =~= Seq::<RecordView>::empty());
        assert(o.subrange(0, 0) =~= Seq::<RecordView>::empty());
        assert(n.subrange(0, 0) =~= Seq::<RecordView>::empty());
    }
    while i < older.len() || j < newer.len()
        invariant
            o == views(older@),
            n == views(newer@),
            ascending(o),
            ascending(n),
            i <= older@.len(),
            j <= newer@.len(),
            ascending(views(out@)),
            forall|k: int|
                0 <= k < out@.len() && i < o.len() ==> (#[trigger] views(out@)[k]).id < o[i as int].id,
            forall|k: int|
                0 <= k < out@.len() && j < n.len() ==> (#[trigger] views(out@)[k]).id < n[j as int].id,
            forall|b: int| 0 <= b < j && i < o.len() ==> (#[trigger] n[b]).id < o[i as int].id,
            forall|a: int| 0 <= a < i && j < n.len() ==> (#[trigger] o[a]).id < n[j as int].id,
            forall|id: u64| #[trigger]
                lookup(views(out@), id) == overlay(
                    o.subrange(0, i as int),
                    n.subrange(0, j as int),
                    id,
                ),
        decreases (older@.len() - i) + (newer@.len() - j),
    {
        let ghost before = views(out@);
        let ghost oi = o.subrange(0, i as int);
        let ghost nj = n.subrange(0, j as int);
        let take_older = j >= newer.len() || (i < older.len() && older[i].id < newer[j].id);
        if take_older {
            let item = older[i].clone();
            out.push(item);
            proof {
                assert(item@ == o[i as int]);
                assert(views(out@) =~= before.push(item@));
                assert(o.subrange(0, i + 1) =~= oi.push(item@));
                lemma_ascending_prefix(o, i + 1);
                assert forall|x: int, y: int| 0 <= x < y < views(out@).len() implies
                    (#[trigger] views(out@)[x]).id < (#[trigger] views(out@)[y]).id by {
                    if y < before.len() {
                        assert(before[x].id < before[y].id);
                    }
                }
                lemma_ascending_distinct(views(out@));
                assert forall|k: int|
                    0 <= k < out@.len() && i + 1 < o.len() implies (#[trigger] views(out@)[k]).id
                    < o[i + 1].id by {
                    assert(o[i as int].id < o[i + 1].id);
                    if k < before.len() {
                        assert(before[k].id < o[i as int].id);
                    }
                }
                assert forall|b: int| 0 <= b < j && i + 1 < o.len() implies (#[trigger] n[b]).id
                    < o[i + 1].id by {
                    assert(o[i as int].id < o[i + 1].id);
                }
                assert forall|id: u64| #[trigger]
                    lookup(views(out@), id) == overlay(o.subrange(0, i + 1), nj, id) by {
                    lemma_lookup_push(before, item@, id);
                    lemma_lookup_push(oi, item@, id);
                    assert(lookup(before, id) == overlay(oi, nj, id));
                    if id == item@.id {
                        if has_id(nj, id) {
                            let b = choose|b: int| 0 <= b < nj.len() && #[trigger] nj[b].id == id;
                            assert(n[b].id < o[i as int].id);
                        }
                    }
                }
            }
            i += 1;
        } else {
            let both = i < older.len() && older[i].id == newer[j].id;
            let item = newer[j].clone();
            out.push(item);
            proof {
                assert(item@ == n[j as int]);
                assert(views(out@) =~= before.push(item@));
                assert(n.subrange(0, j + 1) =~= nj.push(item@));
                lemma_ascending_prefix(n, j + 1);
                assert forall|x: int, y: int| 0 <= x < y < views(out@).len() implies
                    (#[trigger] views(out@)[x]).id < (#[trigger] views(out@)[y]).id by {
                    if y < before.len() {
                        assert(before[x].id < before[y].id);
                    }
                }
                lemma_ascending_distinct(views(out@));
                assert forall|k: int|
                    0 <= k < out@.len() && j + 1 < n.len() implies (#[trigger] views(out@)[k]).id
                    < n[j + 1].id by {
                    assert(n[j as int].id < n[j + 1].id);
                    if k < before.len() {
                        assert(before[k].id < n[j as int].id);
                    }
                }
                assert forall|a: int| 0 <= a < i && j + 1 < n.len() implies (#[trigger] o[a]).id
                    < n[j + 1].id by {
                    assert(n[j as int].id < n[j + 1].id);
                }
                if both {
                    assert(o.subrange(0, i + 1) =~= oi.push(o[i as int]));
                    lemma_ascending_prefix(o, i + 1);
                    assert forall|k: int|
                        0 <= k < out@.len() && i + 1 < o.len() implies (#[trigger] views(
                        out@,
                    )[k]).id < o[i + 1].id by {
                        assert(o[i as int].id < o[i + 1].id);
                        if k < before.len() {
                            assert(before[k].id < o[i as int].id);
                        }
                    }
                    assert forall|b: int| 0 <= b < j + 1 && i + 1 < o.len() implies (#[trigger] n[b]).id
                        < o[i + 1].id by {
                        assert(o[i as int].id < o[i + 1].id);
                    }
                    assert forall|a: int| 0 <= a < i + 1 && j + 1 < n.len() implies (#[trigger] o[a]).id
                        < n[j + 1].id by {
                        assert(n[j as int].id < n[j + 1].id);
                    }
                    assert forall|id: u64| #[trigger]
                        lookup(views(out@), id) == overlay(
                            o.subrange(0, i + 1),
                            n.subrange(0, j + 1),
                            id,
                        ) by {
                        lemma_lookup_push(before, item@, id);
                        lemma_lookup_push(nj, item@, id);
                        lemma_lookup_push(oi, o[i as int], id);
                        assert(lookup(before, id) == overlay(oi, nj, id));
                        assert(n.subrange(0, j + 1)[j as int].id == item@.id);
                        if id != item@.id && has_id(n.subrange(0, j + 1), id) {
                            let b = choose|b: int|
                                0 <= b < j + 1 && #[trigger] n.subrange(0, j + 1)[b].id == id;
                            assert(nj[b].id == id);
                        }
                        if id != item@.id && has_id(nj, id) {
                            let b = choose|b: int| 0 <= b < nj.len() && #[trigger] nj[b].id == id;
                            assert(n.subrange(0, j + 1)[b].id == id);
                        }
                    }
                } else {
                    assert forall|id: u64| #[trigger]
                        lookup(views(out@), id) == overlay(oi, n.subrange(0, j + 1), id) by {
                        lemma_lookup_push(before, item@, id);
                        lemma_lookup_push(nj, item@, id);
                        assert(lookup(before, id) == overlay(oi, nj, id));
                        assert(n.subrange(0, j + 1)[j as int].id == item@.id);
                        if id != item@.id && has_id(n.subrange(0, j + 1), id) {
                            let b = choose|b: int|
                                0 <= b < j + 1 && #[trigger] n.subrange(0, j + 1)[b].id == id;
                            assert(nj[b].id == id);
                        }
                        if id != item@.id && has_id(nj, id) {
                            let b = choose|b: int| 0 <= b < nj.len() && #[trigger] nj[b].id == id;
                            assert(n.subrange(0, j + 1)[b].id == id);
                        }
                    }
                }
            }
            if both {
                i += 1;
            }
            j += 1;
        }
    }
    proof {
        assert(o.subrange(0, i as int) =~= o);
        assert(n.subrange(0, j as int) =~= n);
    }
    out
}

} // verus!
