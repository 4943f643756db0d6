//! What holds of the engine across its operations: the newest write to a key
//! is what a reader finds, writes to other keys and rollovers change no
//! answer, and the list of tables stays bounded.

use vstd::prelude::*;
use super::block::{first_at, has_id, lemma_first_at, lemma_has_first, lookup, position};
use super::lsm_engine::{accepts, is_merge_of, probe, probe_tables, put_done, rolled_over, same_answer, tables_bounded, valid, EffectView, EngineView, TableView, MAX_TABLES};
use super::record::RecordView;
use super::sorted::{lemma_lookup_remove, lemma_lookup_update, overlay};

verus! {

/// A record appended under a new key is found under that key, and the other
/// keys are found as before.
proof fn lemma_push_lookup(s: Seq<RecordView>, r: RecordView, id: u64)
    requires
        !has_id(s, r.id),
    ensures
        lookup(s.push(r), id) == if id == r.id {
            Some(r)
        } else {
            lookup(s, id)
        },
        has_id(s.push(r), id) == (id == r.id || has_id(s, id)),
{
    let t = s.push(r);
    if id == r.id {
        assert(t[s.len() as int] == r);
        assert forall|j: int| 0 <= j < s.len() implies #[trigger] t[j].id != id by {
            assert(s[j].id != id);
        }
        assert(first_at(t, id, s.len() as int));
        lemma_first_at(t, id, s.len() as int);
    } else if has_id(s, id) {
        lemma_has_first(s, id);
        let p = position(s, id);
        assert(t[p] == s[p]);
        assert forall|j: int| 0 <= j < p implies #[trigger] t[j].id != id by {
            assert(s[j].id != id);
        }
        assert(first_at(t, id, p));
        lemma_first_at(t, id, p);
        lemma_first_at(s, id, p);
    } else {
        assert forall|i: int| 0 <= i < t.len() implies #[trigger] t[i].id != id by {
            if i < s.len() {
                assert(s[i].id != id);
            }
        }
    }
}

/// Tables that stand one place further down, each as it was, answer alike.
proof fn lemma_probe_shifted(new: Seq<TableView>, old: Seq<TableView>, id: u64, k: int)
    requires
        0 <= k <= old.len(),
        new.len() == old.len() + 1,
        forall|i: int| 1 <= i <= old.len() ==> #[trigger] new[i] == old[i - 1],
    ensures
        same_answer(probe_tables(old, id, k), probe_tables(new, id, k + 1)),
    decreases old.len() - k,
{
    if k < old.len() {
        assert(new[k + 1] == old[k]);
        lemma_probe_shifted(new, old, id, k + 1);
    }
}

/// The same where the two oldest tables were merged into one.
proof fn lemma_probe_merged(new: Seq<TableView>, old: Seq<TableView>, id: u64, k: int)
    requires
        old.len() >= 2,
        0 <= k <= old.len() - 2,
        new.len() == old.len(),
        forall|i: int| 1 <= i < old.len() - 1 ==> #[trigger] new[i] == old[i - 1],
        old[old.len() - 1].loaded,
        old[old.len() - 2].loaded,
        new[old.len() - 1].loaded,
        is_merge_of(new[old.len() - 1].records, old[old.len() - 1].records, old[old.len() - 2].records),
    ensures
        same_answer(probe_tables(old, id, k), probe_tables(new, id, k + 1)),
    decreases old.len() - k,
{
    let n = old.len() as int;
    if k < n - 2 {
        assert(new[k + 1] == old[k]);
        lemma_probe_merged(new, old, id, k + 1);
    } else {
        let merged = new[n - 1].records;
        assert(lookup(merged, id) == overlay(old[n - 1].records, old[n - 2].records, id));
        assert(probe_tables(new, id, n) == Ok::<Option<RecordView>, int>(None));
        assert(probe_tables(old, id, n) == Ok::<Option<RecordView>, int>(None));
        if has_id(old[n - 2].records, id) {
        } else if has_id(old[n - 1].records, id) {
            assert(probe_tables(old, id, n - 1) == Ok::<Option<RecordView>, int>(
                lookup(old[n - 1].records, id),
            ));
        } else {
            assert(probe_tables(old, id, n - 1) == Ok::<Option<RecordView>, int>(None));
        }
    }
}

/// A rollover changes no answer: what a reader found under a key before, the
/// reader finds after.
pub proof fn rollover_keeps_answers(old: EngineView, new: EngineView, fx: Seq<EffectView>, id: u64)
    requires
        rolled_over(old, new, fx),
    ensures
        same_answer(probe(old, id), probe(new, id)),
{
    let n = old.tables.len() as int;
    let first = new.tables[0];
    assert(lookup(first.records, id) == lookup(old.memtable, id));
    assert(!has_id(new.memtable, id));
    if n >= MAX_TABLES {
        lemma_probe_merged(new.tables, old.tables, id, 0);
    } else {
        lemma_probe_shifted(new.tables, old.tables, id, 0);
    }
}

/// A rollover changes no answer under the record that follows it either.
proof fn lemma_rolled_then_put(old: EngineView, r: RecordView, new: EngineView, fx: Seq<EffectView>, id: u64)
    requires
        put_done(old, r, new, fx),
        !accepts(old, r.id),
        id != r.id,
    ensures
        same_answer(probe(old, id), probe(new, id)),
{
    let mid = EngineView { memtable: Seq::empty(), ..new };
    rollover_keeps_answers(old, mid, fx, id);
    assert(new.memtable[0] == r);
    assert(!has_id(new.memtable, id));
}

/// Newest wins: a record that was written is what a reader finds under its
/// key.
pub proof fn put_is_visible(old: EngineView, r: RecordView, new: EngineView, fx: Seq<EffectView>)
    requires
        put_done(old, r, new, fx),
    ensures
        probe(new, r.id) == Ok::<Option<RecordView>, int>(Some(r)),
{
    if accepts(old, r.id) {
        lemma_push_lookup(old.memtable, r, r.id);
    } else {
        assert(new.memtable[0] == r);
        assert(first_at(new.memtable, r.id, 0));
        lemma_first_at(new.memtable, r.id, 0);
    }
}

/// A write changes no answer under another key.
pub proof fn put_keeps_other_keys(
    old: EngineView,
    r: RecordView,
    new: EngineView,
    fx: Seq<EffectView>,
    id: u64,
)
    requires
        put_done(old, r, new, fx),
        id != r.id,
    ensures
        same_answer(probe(old, id), probe(new, id)),
{
    if accepts(old, r.id) {
        lemma_push_lookup(old.memtable, r, id);
    } else {
        lemma_rolled_then_put(old, r, new, fx, id);
    }
}

/// A payload that replaced another in the memtable is what a reader finds
/// under its key, and no answer under another key changes.
pub proof fn replace_is_visible(old: EngineView, r: RecordView, id: u64)
    requires
        valid(old),
        has_id(old.memtable, r.id),
    ensures
        ({
            let new = EngineView { memtable: old.memtable.update(position(old.memtable, r.id), r), ..old };
            &&& probe(new, r.id) == Ok::<Option<RecordView>, int>(Some(r))
            &&& id != r.id ==> probe(new, id) == probe(old, id)
        }),
{
    lemma_has_first(old.memtable, r.id);
    let p = position(old.memtable, r.id);
    let t = old.memtable.update(p, r);
    lemma_lookup_update(old.memtable, p, r, id);
    lemma_lookup_update(old.memtable, p, r, r.id);
    assert(t[p].id == r.id);
    if id != r.id {
        if has_id(old.memtable, id) {
            let k = choose|i: int| 0 <= i < old.memtable.len() && #[trigger] old.memtable[i].id == id;
            assert(t[k].id == id);
        }
        if has_id(t, id) {
            let k = choose|i: int| 0 <= i < t.len() && #[trigger] t[i].id == id;
            assert(old.memtable[k].id == id);
        }
    }
}

/// A deletion uncovers what the sorted tables hold under the key, and
/// changes no answer under another key.
pub proof fn delete_uncovers_tables(old: EngineView, deleted: u64, id: u64)
    requires
        valid(old),
        has_id(old.memtable, deleted),
    ensures
        ({
            let new = EngineView {
                memtable: old.memtable.remove(position(old.memtable, deleted)),
                ..old
            };
            &&& probe(new, deleted) == probe_tables(old.tables, deleted, 0)
            &&& id != deleted ==> probe(new, id) == probe(old, id)
        }),
{
    lemma_has_first(old.memtable, deleted);
    let p = position(old.memtable, deleted);
    let t = old.memtable.remove(p);
    lemma_lookup_remove(old.memtable, p, id);
    lemma_lookup_remove(old.memtable, p, deleted);
    if id != deleted {
        if has_id(old.memtable, id) {
            let k = choose|i: int| 0 <= i < old.memtable.len() && #[trigger] old.memtable[i].id == id;
            let a = if k < p { k } else { k - 1 };
            assert(t[a].id == id);
        }
        if has_id(t, id) {
            let k = choose|i: int| 0 <= i < t.len() && #[trigger] t[i].id == id;
            let a = if k < p { k } else { k + 1 };
            assert(old.memtable[a].id == id);
        }
    }
}

/// The list of tables stays bounded: a rollover leaves it no longer than it
/// was, or than `MAX_TABLES`.
pub proof fn rollover_is_bounded(old: EngineView, new: EngineView, fx: Seq<EffectView>)
    requires
        rolled_over(old, new, fx),
    ensures
        tables_bounded(old, new),
        new.tables.len() <= old.tables.len() + 1,
{
}

/// So does a write.
pub proof fn put_is_bounded(old: EngineView, r: RecordView, new: EngineView, fx: Seq<EffectView>)
    requires
        put_done(old, r, new, fx),
    ensures
        tables_bounded(old, new),
{
}

} // verus!
