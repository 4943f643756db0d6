//! What survives a restart: the memtable follows the journal between
//! rollovers, a replay of the journal gives the memtable back, a memtable
//! that repeats the newest table changes no answer, and no table file is
//! written twice.

use vstd::prelude::*;
use super::block::{distinct_ids, has_id, lemma_has_first, lookup, position};
use vstd::utf8::encode_utf8;
use super::discovery::{
    by_falling_time, is_table_name, lemma_newest_first_keeps_order, newest_first, next_table_id,
    FileView,
};
use super::lsm_engine::{
    accepts, file_path, image_of, is_run_of, lazy_tables, probe, probe_tables, put_done, replayed,
    replayed_put,
    rolled_over, table_path, EffectView, EngineView, TableView, MAX_TABLES,
};
use super::sorted::{lemma_lookup_push, lemma_lookup_remove, lemma_lookup_update};
use super::sstable::table_image;
use super::record::RecordView;
use super::writelog::LogEntryView;
use crate::text::{decimal, decimal_chars, digit_char, lemma_decimal, lemma_decimal_injective};

verus! {

/// What a journal entry does to a memtable with the bound `limit`, where it
/// needs no rollover.
pub open spec fn mem_apply(m: Seq<RecordView>, limit: usize, e: LogEntryView) -> Option<
    Seq<RecordView>,
> {
    match e {
        LogEntryView::Insert(r) => if m.len() < limit && !has_id(m, r.id) {
            Some(m.push(r))
        } else {
            None
        },
        LogEntryView::Update { id, data } => if has_id(m, id) {
            Some(m.update(position(m, id), RecordView { id, data }))
        } else if m.len() < limit {
            Some(m.push(RecordView { id, data }))
        } else {
            None
        },
        LogEntryView::Delete { id } => Some(
            if has_id(m, id) {
                m.remove(position(m, id))
            } else {
                m
            },
        ),
    }
}

/// The memtable that the entries of a journal build from the memtable
/// `start`, where none of them needs a rollover.
pub open spec fn mem_replay_from(
    start: Seq<RecordView>,
    journal: Seq<LogEntryView>,
    limit: usize,
) -> Option<Seq<RecordView>>
    decreases journal.len(),
{
    if journal.len() == 0 {
        Some(start)
    } else {
        match mem_replay_from(start, journal.drop_last(), limit) {
            Some(m) => mem_apply(m, limit, journal.last()),
            None => None,
        }
    }
}

/// Where a journal asks for no rollover, none of its beginnings does.
pub proof fn lemma_replay_prefix(start: Seq<RecordView>, journal: Seq<LogEntryView>, limit: usize, k: int)
    requires
        0 <= k <= journal.len(),
        mem_replay_from(start, journal, limit) is Some,
    ensures
        mem_replay_from(start, journal.subrange(0, k), limit) is Some,
    decreases journal.len(),
{
    if k == journal.len() {
        assert(journal.subrange(0, k) =~= journal);
    } else {
        assert(journal.drop_last().subrange(0, k) =~= journal.subrange(0, k));
        lemma_replay_prefix(start, journal.drop_last(), limit, k);
    }
}

/// The memtable that the entries of a journal build from nothing, where none
/// of them needs a rollover.
pub open spec fn mem_replay(journal: Seq<LogEntryView>, limit: usize) -> Option<Seq<RecordView>> {
    mem_replay_from(Seq::empty(), journal, limit)
}

/// Whether the memtable is what the journal builds from `carried`: the
/// record whose write rolled the memtable over, which stands in the
/// memtable but in no journal, or nothing.
pub open spec fn carries(v: EngineView, journal: Seq<LogEntryView>, carried: Seq<RecordView>) -> bool {
    &&& carried.len() <= 1
    &&& carried.len() <= v.limit
    &&& mem_replay_from(carried, journal, v.limit) == Some(v.memtable)
}

/// Whether the memtable is what the journal says: the writes since the last
/// rollover, and nothing else.
pub open spec fn journaled(v: EngineView, journal: Seq<LogEntryView>) -> bool {
    mem_replay(journal, v.limit) == Some(v.memtable)
}

/// Whether `states` are the states that an engine goes through while the
/// entries of `journal` are replayed one after another, with the effects
/// that each replay asks for.
pub open spec fn replay_chain(
    states: Seq<EngineView>,
    effects: Seq<Seq<EffectView>>,
    journal: Seq<LogEntryView>,
) -> bool {
    &&& states.len() == journal.len() + 1
    &&& effects.len() == journal.len()
    &&& forall|k: int|
        0 <= k < journal.len() ==> replayed(
            #[trigger] states[k],
            journal[k],
            states[k + 1],
            effects[k],
        )
}

/// Durability between rollovers: a write that needs no rollover leaves the
/// memtable as the journal with the write's entry says, the tables as they
/// were, and asks for no effect.
pub proof fn journal_follows_write(
    old: EngineView,
    e: LogEntryView,
    new: EngineView,
    fx: Seq<EffectView>,
    journal: Seq<LogEntryView>,
    carried: Seq<RecordView>,
)
    requires
        mem_replay_from(carried, journal, old.limit) == Some(old.memtable),
        replayed(old, e, new, fx),
        mem_apply(old.memtable, old.limit, e) is Some,
    ensures
        mem_replay_from(carried, journal.push(e), new.limit) == Some(new.memtable),
        new.memtable == mem_apply(old.memtable, old.limit, e).unwrap(),
        new.tables == old.tables,
        new.limit == old.limit,
        fx.len() == 0,
{
    assert(journal.push(e).drop_last() =~= journal);
    assert(journal.push(e).last() == e);
}

/// A write made by `insert` or `update` is replayed as it was made.
pub proof fn write_is_replayed(old: EngineView, r: RecordView, new: EngineView, fx: Seq<EffectView>)
    requires
        put_done(old, r, new, fx),
    ensures
        replayed_put(old, r, new, fx),
{
}

/// Durability across a restart: where the journal is what the memtable
/// followed, its replay on an engine with an empty memtable gives that
/// memtable back, leaves the tables as they were found, and asks for no
/// effect.
pub proof fn restart_restores_memtable(
    states: Seq<EngineView>,
    effects: Seq<Seq<EffectView>>,
    journal: Seq<LogEntryView>,
)
    requires
        replay_chain(states, effects, journal),
        states[0].memtable == Seq::<RecordView>::empty(),
        mem_replay(journal, states[0].limit) is Some,
    ensures
        Some(states.last().memtable) == mem_replay(journal, states[0].limit),
        states.last().tables == states[0].tables,
        states.last().limit == states[0].limit,
        forall|k: int| 0 <= k < effects.len() ==> (#[trigger] effects[k]).len() == 0,
    decreases journal.len(),
{
    if journal.len() > 0 {
        let n = journal.len() as int;
        let j0 = journal.drop_last();
        let s0 = states.drop_last();
        let f0 = effects.drop_last();
        assert forall|k: int| 0 <= k < j0.len() implies replayed(
            #[trigger] s0[k],
            j0[k],
            s0[k + 1],
            f0[k],
        ) by {
            assert(replayed(states[k], journal[k], states[k + 1], effects[k]));
        }
        restart_restores_memtable(s0, f0, j0);
        let before = states[n - 1];
        assert(s0.last() == before);
        assert(replayed(states[n - 1], journal[n - 1], states[n], effects[n - 1]));
        assert(journaled(before, j0));
        journal_follows_write(before, journal.last(), states[n], effects[n - 1], j0, Seq::empty());
        assert(j0.push(journal.last()) =~= journal);
        assert forall|k: int| 0 <= k < effects.len() implies (#[trigger] effects[k]).len() == 0 by {
            if k < n - 1 {
                assert(f0[k] == effects[k]);
            }
        }
    }
}

/// After a rollover the memtable is empty, as the journal is once the
/// effects are carried out.
pub proof fn rollover_restarts_journal(old: EngineView, new: EngineView, fx: Seq<EffectView>)
    requires
        rolled_over(old, new, fx),
    ensures
        journaled(new, Seq::empty()),
        fx[1] == EffectView::TruncateLog,
{
    assert(new.memtable =~= Seq::<RecordView>::empty());
}

/// A rollover that stopped before the journal was cut is harmless: a
/// memtable that holds what the newest table holds changes no answer.
pub proof fn shadow_is_harmless(v: EngineView, id: u64)
    requires
        v.tables.len() >= 1,
        v.tables[0].loaded,
        is_run_of(v.tables[0].records, v.memtable),
    ensures
        probe(v, id) == probe(EngineView { memtable: Seq::empty(), ..v }, id),
{
    let bare = EngineView { memtable: Seq::empty(), ..v };
    assert(lookup(v.tables[0].records, id) == lookup(v.memtable, id));
    assert(!has_id(bare.memtable, id));
}

/// A table file: its path and its bytes.
pub struct StoredFile {
    pub path: Seq<char>,
    pub bytes: Seq<u8>,
}

/// The directory of an engine as the engine's effects shape it: the
/// entries of the journal, and the table files from the one written last
/// to the one written first.
pub struct DiskView {
    pub journal: Seq<LogEntryView>,
    pub files: Seq<StoredFile>,
}

/// The directory after an entry was appended to the journal.
pub open spec fn journal_extended(d: DiskView, e: LogEntryView) -> DiskView {
    DiskView { journal: d.journal.push(e), ..d }
}

/// The directory after one effect was carried out.
pub open spec fn carried_out(d: DiskView, e: EffectView) -> DiskView {
    match e {
        EffectView::WriteTable { path, bytes } => DiskView {
            files: seq![StoredFile { path, bytes }] + d.files,
            ..d
        },
        EffectView::TruncateLog => DiskView { journal: Seq::empty(), ..d },
        EffectView::RemoveTable { path } => DiskView {
            files: d.files.filter(|f: StoredFile| f.path != path),
            ..d
        },
    }
}

/// The directory after the effects were carried out in order.
pub open spec fn carried_out_all(d: DiskView, fx: Seq<EffectView>) -> DiskView
    decreases fx.len(),
{
    if fx.len() == 0 {
        d
    } else {
        carried_out_all(carried_out(d, fx[0]), fx.drop_first())
    }
}

/// Whether the tables of the engine are the table files of the directory,
/// in the order from the file written last to the file written first, each
/// table in memory holding what its file holds.
pub open spec fn tables_in_step(v: EngineView, d: DiskView) -> bool {
    &&& v.tables.len() == d.files.len()
    &&& forall|i: int|
        0 <= i < v.tables.len() ==> {
            &&& (#[trigger] v.tables[i]).path == d.files[i].path
            &&& table_image(d.files[i].bytes) is Some
            &&& v.tables[i].loaded ==> table_image(d.files[i].bytes) == Some(v.tables[i].records)
        }
}

/// Whether the engine and its directory are in step but for `carried`: the
/// memtable is what the journal builds from the carried record, and the
/// tables are the table files.
pub open spec fn in_step_after(v: EngineView, d: DiskView, carried: Seq<RecordView>) -> bool {
    carries(v, d.journal, carried) && tables_in_step(v, d)
}

/// Whether the engine and its directory are in step: the memtable is what
/// the journal says, and the tables are the table files.
pub open spec fn in_step(v: EngineView, d: DiskView) -> bool {
    journaled(v, d.journal) && tables_in_step(v, d)
}

/// Whether `w` is what a restart on the directory `d` gives once the
/// journal is replayed and every table file is read: the memtable that the
/// journal builds, and for each file, newest first, the table that it
/// holds.
pub open spec fn restarted(w: EngineView, d: DiskView, limit: usize) -> bool {
    &&& w.limit == limit
    &&& Some(w.memtable) == mem_replay(d.journal, limit)
    &&& w.tables.len() == d.files.len()
    &&& forall|i: int|
        0 <= i < w.tables.len() ==> {
            &&& (#[trigger] w.tables[i]).loaded
            &&& w.tables[i].path == d.files[i].path
            &&& Some(w.tables[i].records) == table_image(d.files[i].bytes)
        }
}

/// Durability: a write that needs no rollover, once its entry is in the
/// journal, leaves the engine and its directory in step, but for the record
/// that was carried before.
pub proof fn write_keeps_step(
    old: EngineView,
    e: LogEntryView,
    new: EngineView,
    fx: Seq<EffectView>,
    d: DiskView,
    carried: Seq<RecordView>,
)
    requires
        in_step_after(old, d, carried),
        replayed(old, e, new, fx),
        mem_apply(old.memtable, old.limit, e) is Some,
    ensures
        fx.len() == 0,
        in_step_after(new, journal_extended(d, e), carried),
        carried.len() == 0 ==> in_step(new, journal_extended(d, e)),
{
    journal_follows_write(old, e, new, fx, d.journal, carried);
    if carried.len() == 0 {
        assert(carried =~= Seq::<RecordView>::empty());
    }
}

/// The effects of a rollover that merges no tables leave the tables and the
/// table files in step, and the journal empty.
proof fn lemma_rollover_tables(old: EngineView, new: EngineView, fx: Seq<EffectView>, d: DiskView)
    requires
        tables_in_step(old, d),
        rolled_over(old, new, fx),
        old.tables.len() < MAX_TABLES,
    ensures
        tables_in_step(new, carried_out_all(d, fx)),
        carried_out_all(d, fx).journal == Seq::<LogEntryView>::empty(),
{
    let d1 = carried_out(d, fx[0]);
    let d2 = carried_out(d1, fx[1]);
    assert(fx.drop_first()[0] == fx[1]);
    assert(fx.drop_first().drop_first().len() == 0);
    assert(carried_out_all(d2, fx.drop_first().drop_first()) == d2);
    assert(carried_out_all(d1, fx.drop_first()) == d2);
    assert(carried_out_all(d, fx) == d2);
    assert(d2.journal =~= Seq::<LogEntryView>::empty());
    assert forall|i: int| 0 <= i < new.tables.len() implies {
        &&& (#[trigger] new.tables[i]).path == d2.files[i].path
        &&& table_image(d2.files[i].bytes) is Some
        &&& new.tables[i].loaded ==> table_image(d2.files[i].bytes) == Some(new.tables[i].records)
    } by {
        if i > 0 {
            assert(new.tables[i] == old.tables[i - 1]);
            assert(d2.files[i] == d.files[i - 1]);
            assert(old.tables[i - 1].path == d.files[i - 1].path);
        }
    }
}

/// Durability: a flush that merges no tables, once its effects are carried
/// out, leaves the engine and its directory in step, whatever the memtable
/// carried: all that it held is in the new table.
pub proof fn rollover_keeps_step(old: EngineView, new: EngineView, fx: Seq<EffectView>, d: DiskView)
    requires
        tables_in_step(old, d),
        rolled_over(old, new, fx),
        old.tables.len() < MAX_TABLES,
    ensures
        in_step(new, carried_out_all(d, fx)),
{
    lemma_rollover_tables(old, new, fx, d);
    assert(new.memtable =~= Seq::<RecordView>::empty());
}

/// Durability: a write that rolls the memtable over and merges no tables,
/// once its entry is in the journal and its effects are carried out, leaves
/// the engine and its directory in step but for the record that was
/// written: the record stands in the memtable, and the journal is empty.
pub proof fn rolling_write_keeps_step(
    old: EngineView,
    r: RecordView,
    new: EngineView,
    fx: Seq<EffectView>,
    d: DiskView,
    e: LogEntryView,
)
    requires
        tables_in_step(old, d),
        put_done(old, r, new, fx),
        !accepts(old, r.id),
        old.tables.len() < MAX_TABLES,
    ensures
        in_step_after(new, carried_out_all(journal_extended(d, e), fx), seq![r]),
{
    let mid = EngineView { memtable: Seq::empty(), ..new };
    let logged = journal_extended(d, e);
    lemma_rollover_tables(old, mid, fx, logged);
    let after = carried_out_all(logged, fx);
    assert(after.journal.len() == 0);
    assert(mem_replay_from(seq![r], after.journal, new.limit) == Some(seq![r]));
}

/// Durability of `insert`: once the entry of the record is in the journal
/// and the effects are carried out, the engine and its directory are in
/// step, but for the record that was carried before, or, where the write
/// rolled the memtable over, but for the record that was written.
pub proof fn insert_keeps_step(
    old: EngineView,
    r: RecordView,
    new: EngineView,
    fx: Seq<EffectView>,
    d: DiskView,
    carried: Seq<RecordView>,
)
    requires
        in_step_after(old, d, carried),
        put_done(old, r, new, fx),
        old.tables.len() < MAX_TABLES,
    ensures
        in_step_after(
            new,
            carried_out_all(journal_extended(d, LogEntryView::Insert(r)), fx),
            if accepts(old, r.id) {
                carried
            } else {
                seq![r]
            },
        ),
{
    let e = LogEntryView::Insert(r);
    if accepts(old, r.id) {
        write_is_replayed(old, r, new, fx);
        write_keeps_step(old, e, new, fx, d, carried);
    } else {
        rolling_write_keeps_step(old, r, new, fx, d, e);
    }
}

/// Durability of `update`: once the entry of the write is in the journal
/// and the effects are carried out, the engine and its directory are in
/// step, but for the record that was carried before, or, where the write
/// rolled the memtable over, but for the record that was written.
pub proof fn update_keeps_step(
    old: EngineView,
    r: RecordView,
    new: EngineView,
    fx: Seq<EffectView>,
    d: DiskView,
    carried: Seq<RecordView>,
)
    requires
        in_step_after(old, d, carried),
        if has_id(old.memtable, r.id) {
            fx.len() == 0 && new == (EngineView {
                memtable: old.memtable.update(position(old.memtable, r.id), r),
                ..old
            })
        } else {
            put_done(old, r, new, fx)
        },
        old.tables.len() < MAX_TABLES,
    ensures
        in_step_after(
            new,
            carried_out_all(journal_extended(d, LogEntryView::Update { id: r.id, data: r.data }), fx),
            if has_id(old.memtable, r.id) || accepts(old, r.id) {
                carried
            } else {
                seq![r]
            },
        ),
{
    let e = LogEntryView::Update { id: r.id, data: r.data };
    assert(r == RecordView { id: r.id, data: r.data });
    if has_id(old.memtable, r.id) {
        write_keeps_step(old, e, new, fx, d, carried);
    } else if accepts(old, r.id) {
        write_is_replayed(old, r, new, fx);
        write_keeps_step(old, e, new, fx, d, carried);
    } else {
        rolling_write_keeps_step(old, r, new, fx, d, e);
    }
}

/// Durability of `delete`: once its entry is in the journal, the engine and
/// its directory are in step, but for the record that was carried before.
pub proof fn delete_keeps_step(old: EngineView, id: u64, new: EngineView, d: DiskView, carried: Seq<RecordView>)
    requires
        in_step_after(old, d, carried),
        new == (EngineView {
            memtable: if has_id(old.memtable, id) {
                old.memtable.remove(position(old.memtable, id))
            } else {
                old.memtable
            },
            ..old
        }),
    ensures
        in_step_after(new, journal_extended(d, LogEntryView::Delete { id }), carried),
{
    write_keeps_step(old, LogEntryView::Delete { id }, new, Seq::empty(), d, carried);
}

/// Durability: reading a table file into the engine leaves the engine and
/// its directory in step.
pub proof fn load_keeps_step(old: EngineView, d: DiskView, index: int, carried: Seq<RecordView>)
    requires
        in_step_after(old, d, carried),
        0 <= index < old.tables.len(),
        !old.tables[index].loaded,
    ensures
        in_step_after(
            EngineView {
                tables: old.tables.update(
                    index,
                    TableView {
                        path: old.tables[index].path,
                        loaded: true,
                        records: table_image(d.files[index].bytes).unwrap(),
                    },
                ),
                ..old
            },
            d,
            carried,
        ),
{
    let loaded = TableView {
        path: old.tables[index].path,
        loaded: true,
        records: table_image(d.files[index].bytes).unwrap(),
    };
    let new = EngineView { tables: old.tables.update(index, loaded), ..old };
    assert(old.tables[index].path == d.files[index].path);
    assert forall|i: int| 0 <= i < new.tables.len() implies {
        &&& (#[trigger] new.tables[i]).path == d.files[i].path
        &&& table_image(d.files[i].bytes) is Some
        &&& new.tables[i].loaded ==> table_image(d.files[i].bytes) == Some(new.tables[i].records)
    } by {
        if i != index {
            assert(new.tables[i] == old.tables[i]);
            assert(old.tables[i].path == d.files[i].path);
        }
    }
}

/// Whether the memtable `restored` is the memtable `live` but for the key
/// `lost`: both hold no key twice, they hold the same under every other
/// key, and what `restored` holds under `lost`, `live` holds too.
pub open spec fn agrees_but(live: Seq<RecordView>, restored: Seq<RecordView>, lost: u64) -> bool {
    &&& distinct_ids(live)
    &&& distinct_ids(restored)
    &&& forall|id: u64| id != lost ==> #[trigger] lookup(restored, id) == lookup(live, id)
    &&& has_id(restored, lost) ==> lookup(restored, lost) == lookup(live, lost)
    &&& restored.len() + (if has_id(live, lost) && !has_id(restored, lost) {
        1int
    } else {
        0int
    }) == live.len()
}

/// A record under a new key can be appended without a key standing twice.
proof fn lemma_distinct_push(s: Seq<RecordView>, r: RecordView)
    requires
        distinct_ids(s),
        !has_id(s, r.id),
    ensures
        distinct_ids(s.push(r)),
{
    let t = s.push(r);
    assert forall|i: int, j: int| 0 <= i < j < t.len() implies #[trigger] t[i].id
        != #[trigger] t[j].id by {
        if j == s.len() {
            assert(s[i].id != r.id);
        } else {
            assert(s[i].id != s[j].id);
        }
    }
}

/// What one entry does to the live memtable it does to the restored one,
/// and the two go on agreeing.
proof fn lemma_apply_agrees(
    live: Seq<RecordView>,
    restored: Seq<RecordView>,
    lost: u64,
    limit: usize,
    e: LogEntryView,
)
    requires
        agrees_but(live, restored, lost),
        live.len() <= limit,
        mem_apply(live, limit, e) is Some,
    ensures
        mem_apply(restored, limit, e) is Some,
        agrees_but(mem_apply(live, limit, e).unwrap(), mem_apply(restored, limit, e).unwrap(), lost),
        mem_apply(live, limit, e).unwrap().len() <= limit,
{
    let n = mem_apply(live, limit, e).unwrap();
    match e {
        LogEntryView::Insert(r) => {
            lemma_put_agrees(live, restored, lost, limit, r);
        },
        LogEntryView::Update { id, data } => {
            let r = RecordView { id, data };
            if has_id(live, id) {
                lemma_has_first(live, id);
                let p = position(live, id);
                if has_id(restored, id) {
                    lemma_has_first(restored, id);
                    let q = position(restored, id);
                    let m = restored.update(q, r);
                    assert forall|x: u64| true implies lookup(n, x) == (if x == id {
                        Some(r)
                    } else {
                        lookup(live, x)
                    }) && lookup(m, x) == (if x == id {
                        Some(r)
                    } else {
                        lookup(restored, x)
                    }) by {
                        lemma_lookup_update(live, p, r, x);
                        lemma_lookup_update(restored, q, r, x);
                    }
                    lemma_lookup_update(live, p, r, id);
                    lemma_lookup_update(restored, q, r, id);
                    assert(lookup(n, lost) is Some == has_id(n, lost));
                    assert(lookup(m, lost) is Some == has_id(m, lost));
                } else {
                    assert(id == lost) by {
                        if id != lost {
                            assert(lookup(restored, id) == lookup(live, id));
                        }
                    }
                    lemma_distinct_push(restored, r);
                    let m = restored.push(r);
                    assert forall|x: u64| true implies lookup(n, x) == (if x == id {
                        Some(r)
                    } else {
                        lookup(live, x)
                    }) && lookup(m, x) == (if x == id {
                        Some(r)
                    } else {
                        lookup(restored, x)
                    }) by {
                        lemma_lookup_update(live, p, r, x);
                        lemma_lookup_push(restored, r, x);
                    }
                    lemma_lookup_update(live, p, r, id);
                    assert(lookup(n, lost) is Some == has_id(n, lost));
                    assert(lookup(m, lost) is Some == has_id(m, lost));
                }
            } else {
                lemma_put_agrees(live, restored, lost, limit, r);
            }
        },
        LogEntryView::Delete { id } => {
            if has_id(live, id) {
                lemma_has_first(live, id);
                let p = position(live, id);
                if has_id(restored, id) {
                    lemma_has_first(restored, id);
                    let q = position(restored, id);
                    let m = restored.remove(q);
                    assert forall|x: u64| true implies lookup(n, x) == (if x == id {
                        None
                    } else {
                        lookup(live, x)
                    }) && lookup(m, x) == (if x == id {
                        None
                    } else {
                        lookup(restored, x)
                    }) by {
                        lemma_lookup_remove(live, p, x);
                        lemma_lookup_remove(restored, q, x);
                    }
                    lemma_lookup_remove(live, p, id);
                    lemma_lookup_remove(restored, q, id);
                    assert(lookup(n, lost) is Some == has_id(n, lost));
                    assert(lookup(m, lost) is Some == has_id(m, lost));
                } else {
                    assert(id == lost) by {
                        if id != lost {
                            assert(lookup(restored, id) == lookup(live, id));
                        }
                    }
                    assert forall|x: u64| true implies lookup(n, x) == (if x == id {
                        None
                    } else {
                        lookup(live, x)
                    }) by {
                        lemma_lookup_remove(live, p, x);
                    }
                    lemma_lookup_remove(live, p, id);
                    assert(lookup(n, lost) is Some == has_id(n, lost));
                }
            } else {
                if has_id(restored, id) {
                    if id != lost {
                        assert(lookup(restored, id) == lookup(live, id));
                    }
                }
            }
        },
    }
}

/// A record under a key that the live memtable lacks goes into both
/// memtables, and the two go on agreeing.
proof fn lemma_put_agrees(
    live: Seq<RecordView>,
    restored: Seq<RecordView>,
    lost: u64,
    limit: usize,
    r: RecordView,
)
    requires
        agrees_but(live, restored, lost),
        live.len() < limit,
        !has_id(live, r.id),
    ensures
        !has_id(restored, r.id),
        restored.len() < limit,
        agrees_but(live.push(r), restored.push(r), lost),
{
    if has_id(restored, r.id) {
        if r.id != lost {
            assert(lookup(restored, r.id) == lookup(live, r.id));
        }
    }
    lemma_distinct_push(live, r);
    lemma_distinct_push(restored, r);
    let n = live.push(r);
    let m = restored.push(r);
    assert forall|x: u64| true implies lookup(n, x) == (if x == r.id {
        Some(r)
    } else {
        lookup(live, x)
    }) && lookup(m, x) == (if x == r.id {
        Some(r)
    } else {
        lookup(restored, x)
    }) by {
        lemma_lookup_push(live, r, x);
        lemma_lookup_push(restored, r, x);
    }
    lemma_lookup_push(live, r, lost);
    lemma_lookup_push(restored, r, lost);
    assert(lookup(n, lost) is Some == has_id(n, lost));
    assert(lookup(m, lost) is Some == has_id(m, lost));
}

/// Durability across a restart: the journal that the memtable followed from
/// a carried record builds, from nothing and without a rollover, a memtable
/// that agrees with it but for the key of that record.
pub proof fn restart_replay_agrees(
    carried: Seq<RecordView>,
    journal: Seq<LogEntryView>,
    limit: usize,
    lost: u64,
)
    requires
        carried.len() <= 1,
        carried.len() <= limit,
        carried.len() == 1 ==> carried[0].id == lost,
        mem_replay_from(carried, journal, limit) is Some,
    ensures
        mem_replay(journal, limit) is Some,
        agrees_but(
            mem_replay_from(carried, journal, limit).unwrap(),
            mem_replay(journal, limit).unwrap(),
            lost,
        ),
        mem_replay_from(carried, journal, limit).unwrap().len() <= limit,
    decreases journal.len(),
{
    if journal.len() == 0 {
        let none = Seq::<RecordView>::empty();
        if carried.len() == 1 {
            assert(carried[0].id == lost);
            assert(has_id(carried, lost));
            assert forall|id: u64| id != lost implies #[trigger] lookup(none, id) == lookup(
                carried,
                id,
            ) by {
                if has_id(carried, id) {
                    let k = choose|k: int| 0 <= k < carried.len() && #[trigger] carried[k].id == id;
                    assert(k == 0);
                }
            }
        } else {
            assert(carried =~= none);
        }
    } else {
        let init = journal.drop_last();
        restart_replay_agrees(carried, init, limit, lost);
        lemma_apply_agrees(
            mem_replay_from(carried, init, limit).unwrap(),
            mem_replay(init, limit).unwrap(),
            lost,
            limit,
            journal.last(),
        );
    }
}

/// Whether `files` is the listing of the directory `d` in `dir`: its table
/// files from the newest to the oldest, and nothing else.
pub open spec fn lists(files: Seq<FileView>, d: DiskView, dir: Seq<char>) -> bool {
    &&& files.len() == d.files.len()
    &&& by_falling_time(files)
    &&& forall|i: int|
        0 <= i < files.len() ==> is_table_name(encode_utf8((#[trigger] files[i]).name))
            && d.files[i].path == file_path(dir, files[i].name)
}

/// The tables once each is read from its file.
pub open spec fn read_from(tables: Seq<TableView>, d: DiskView) -> Seq<TableView> {
    Seq::new(
        tables.len(),
        |i: int|
            TableView {
                path: tables[i].path,
                loaded: true,
                records: table_image(d.files[i].bytes).unwrap(),
            },
    )
}

/// Durability: an engine that is opened on the listing of a directory, has
/// the journal replayed, and reads its table files, is what a restart on
/// the directory gives.
pub proof fn reopening_restarts(
    dir: Seq<char>,
    limit: usize,
    files: Seq<FileView>,
    d: DiskView,
    states: Seq<EngineView>,
    effects: Seq<Seq<EffectView>>,
)
    requires
        lists(files, d, dir),
        forall|i: int| 0 <= i < d.files.len() ==> table_image((#[trigger] d.files[i]).bytes) is Some,
        replay_chain(states, effects, d.journal),
        mem_replay(d.journal, limit) is Some,
        states[0] == (EngineView {
            memtable: Seq::empty(),
            limit,
            tables: lazy_tables(dir, newest_first(files)),
            dir,
            next_id: next_table_id(files),
        }),
    ensures
        restarted(
            EngineView { tables: read_from(states.last().tables, d), ..states.last() },
            d,
            limit,
        ),
{
    restart_restores_memtable(states, effects, d.journal);
    lemma_newest_first_keeps_order(files);
    let w = EngineView { tables: read_from(states.last().tables, d), ..states.last() };
    assert(states.last().tables == lazy_tables(dir, files));
    assert forall|i: int| 0 <= i < w.tables.len() implies {
        &&& (#[trigger] w.tables[i]).loaded
        &&& w.tables[i].path == d.files[i].path
        &&& Some(w.tables[i].records) == table_image(d.files[i].bytes)
    } by {
        assert(lazy_tables(dir, files)[i].path == file_path(dir, files[i].name));
        assert(table_image(d.files[i].bytes) is Some);
    }
}

/// Tables that hold the same give the same answers.
proof fn lemma_same_tables(a: Seq<TableView>, b: Seq<TableView>, id: u64, k: int)
    requires
        a.len() == b.len(),
        0 <= k <= a.len(),
        forall|i: int|
            0 <= i < a.len() ==> (#[trigger] a[i]).loaded && b[i].loaded && a[i].records == b[i].records,
    ensures
        probe_tables(a, id, k) == probe_tables(b, id, k),
    decreases a.len() - k,
{
    if k < a.len() {
        assert(a[k].loaded && b[k].loaded && a[k].records == b[k].records);
        lemma_same_tables(a, b, id, k + 1);
    }
}

/// Durability: the engine that `LSMEngine::new` gives on the listing and
/// the journal of a directory whose journal asks for no rollover is, once it
/// has read its table files, what a restart on the directory gives.
pub proof fn restart_reads_directory(
    dir: Seq<char>,
    limit: usize,
    files: Seq<FileView>,
    d: DiskView,
    e: EngineView,
)
    requires
        lists(files, d, dir),
        forall|i: int| 0 <= i < d.files.len() ==> table_image((#[trigger] d.files[i]).bytes) is Some,
        mem_replay(d.journal, limit) == Some(e.memtable),
        e == (EngineView {
            memtable: e.memtable,
            limit,
            tables: lazy_tables(dir, newest_first(files)),
            dir,
            next_id: next_table_id(files),
        }),
    ensures
        restarted(EngineView { tables: read_from(e.tables, d), ..e }, d, limit),
{
    lemma_newest_first_keeps_order(files);
    let w = EngineView { tables: read_from(e.tables, d), ..e };
    assert(e.tables == lazy_tables(dir, files));
    assert forall|i: int| 0 <= i < w.tables.len() implies {
        &&& (#[trigger] w.tables[i]).loaded
        &&& w.tables[i].path == d.files[i].path
        &&& Some(w.tables[i].records) == table_image(d.files[i].bytes)
    } by {
        assert(lazy_tables(dir, files)[i].path == file_path(dir, files[i].name));
        assert(table_image(d.files[i].bytes) is Some);
    }
}

/// Durability: where the engine and its directory are in step but for a
/// carried record, a restart gives under every key what the engine gave,
/// once the tables of both are read; but that the key of the carried record
/// may be missing from the memtable after the restart. Where nothing is
/// carried, that is every key.
pub proof fn restart_gives_same_answers(
    v: EngineView,
    w: EngineView,
    d: DiskView,
    carried: Seq<RecordView>,
    id: u64,
)
    requires
        in_step_after(v, d, carried),
        restarted(w, d, v.limit),
        forall|i: int| 0 <= i < v.tables.len() ==> (#[trigger] v.tables[i]).loaded,
        carried.len() == 1 ==> id != carried[0].id || has_id(w.memtable, id),
    ensures
        probe(w, id) == probe(v, id),
{
    let lost = if carried.len() == 1 {
        carried[0].id
    } else {
        (if id == 0 { 1u64 } else { 0u64 })
    };
    restart_replay_agrees(carried, d.journal, v.limit, lost);
    assert(agrees_but(v.memtable, w.memtable, lost));
    if id != lost {
        assert(lookup(w.memtable, id) == lookup(v.memtable, id));
    }
    assert forall|i: int| 0 <= i < v.tables.len() implies (#[trigger] v.tables[i]).loaded
        && w.tables[i].loaded && v.tables[i].records == w.tables[i].records by {
        assert(v.tables[i].path == d.files[i].path);
        assert(w.tables[i].loaded);
    }
    lemma_same_tables(v.tables, w.tables, id, 0);
}

/// Durability: the engine that `LSMEngine::new` gives on the listing and the
/// journal of a directory that is in step with an engine but for a carried
/// record answers under every key, once its table files are read, as that
/// engine did with its tables read; but that the key of the carried record
/// may be missing from its memtable.
pub proof fn new_engine_answers_as_before(
    v: EngineView,
    d: DiskView,
    carried: Seq<RecordView>,
    files: Seq<FileView>,
    e: EngineView,
    id: u64,
)
    requires
        in_step_after(v, d, carried),
        lists(files, d, v.dir),
        forall|i: int| 0 <= i < v.tables.len() ==> (#[trigger] v.tables[i]).loaded,
        e == (EngineView {
            memtable: mem_replay(d.journal, v.limit).unwrap(),
            limit: v.limit,
            tables: lazy_tables(v.dir, newest_first(files)),
            dir: v.dir,
            next_id: next_table_id(files),
        }),
        carried.len() == 1 ==> id != carried[0].id || has_id(e.memtable, id),
    ensures
        mem_replay(d.journal, v.limit) is Some,
        probe(EngineView { tables: read_from(e.tables, d), ..e }, id) == probe(v, id),
{
    restart_needs_no_rollover(v, d, carried);
    assert forall|i: int| 0 <= i < d.files.len() implies table_image((#[trigger] d.files[i]).bytes)
        is Some by {
        assert(v.tables[i].path == d.files[i].path);
    }
    restart_reads_directory(v.dir, v.limit, files, d, e);
    restart_gives_same_answers(v, EngineView { tables: read_from(e.tables, d), ..e }, d, carried, id);
}

/// Durability: the journal of a directory that is in step with its engine
/// is replayed after a restart without a rollover, so that a restart is as
/// `restarted` says.
pub proof fn restart_needs_no_rollover(v: EngineView, d: DiskView, carried: Seq<RecordView>)
    requires
        in_step_after(v, d, carried),
    ensures
        mem_replay(d.journal, v.limit) is Some,
{
    let lost = if carried.len() == 1 {
        carried[0].id
    } else {
        0u64
    };
    restart_replay_agrees(carried, d.journal, v.limit, lost);
}

/// A rollover that stopped before the journal was cut is harmless: a
/// restart on the directory with the new table file and the whole journal
/// gives under every key what a restart gives on the directory of the
/// rollover that was carried out to its end.
pub proof fn unfinished_rollover_restarts_alike(
    old: EngineView,
    new: EngineView,
    fx: Seq<EffectView>,
    d: DiskView,
    stopped: EngineView,
    finished: EngineView,
    id: u64,
)
    requires
        in_step(old, d),
        rolled_over(old, new, fx),
        old.tables.len() < MAX_TABLES,
        restarted(stopped, carried_out(d, fx[0]), old.limit),
        restarted(finished, carried_out_all(d, fx), old.limit),
    ensures
        probe(stopped, id) == probe(finished, id),
{
    lemma_rollover_tables(old, new, fx, d);
    let d1 = carried_out(d, fx[0]);
    let d2 = carried_out_all(d, fx);
    assert(d2 == carried_out(d1, fx[1])) by {
        assert(fx.drop_first()[0] == fx[1]);
        assert(fx.drop_first().drop_first().len() == 0);
        assert(carried_out_all(carried_out(d1, fx[1]), fx.drop_first().drop_first()) == carried_out(
            d1,
            fx[1],
        ));
        assert(carried_out_all(d1, fx.drop_first()) == carried_out(d1, fx[1]));
    }
    assert(d2.files == d1.files);
    assert(stopped.memtable == old.memtable);
    assert(finished.memtable =~= Seq::<RecordView>::empty());
    assert(d1.files[0].bytes == image_of(new.tables[0].records).unwrap());
    assert(stopped.tables[0].loaded);
    assert(stopped.tables[0].records == new.tables[0].records);
    shadow_is_harmless(stopped, id);
    let bare = EngineView { memtable: Seq::empty(), ..stopped };
    assert forall|i: int| 0 <= i < stopped.tables.len() implies (#[trigger] stopped.tables[i]).loaded
        && finished.tables[i].loaded && stopped.tables[i].records == finished.tables[i].records by {
        assert(finished.tables[i].loaded);
    }
    lemma_same_tables(stopped.tables, finished.tables, id, 0);
    assert(!has_id(bare.memtable, id));
    assert(!has_id(finished.memtable, id));
}

/// A directory in step with its engine is in step with nothing carried.
pub proof fn in_step_carries_nothing(v: EngineView, d: DiskView)
    ensures
        in_step(v, d) == in_step_after(v, d, Seq::empty()),
{
    assert(Seq::<RecordView>::empty().len() == 0);
}

/// The digits of a number as characters are its digits as bytes.
proof fn lemma_decimal_chars(n: nat)
    ensures
        decimal_chars(n).len() == decimal(n).len(),
        forall|i: int|
            0 <= i < decimal(n).len() ==> (#[trigger] decimal_chars(n)[i]) == digit_char(
                (decimal(n)[i] - 48) as nat,
            ),
    decreases n,
{
    lemma_decimal(n);
    if n >= 10 {
        lemma_decimal_chars(n / 10);
        lemma_decimal(n / 10);
        assert forall|i: int| 0 <= i < decimal(n).len() implies (#[trigger] decimal_chars(n)[i])
            == digit_char((decimal(n)[i] - 48) as nat) by {
            if i < decimal(n / 10).len() {
                assert(decimal_chars(n)[i] == decimal_chars(n / 10)[i]);
                assert(decimal(n)[i] == decimal(n / 10)[i]);
            }
        }
    }
}

/// Different numbers have different digits.
pub proof fn lemma_decimal_chars_injective(a: nat, b: nat)
    requires
        decimal_chars(a) == decimal_chars(b),
    ensures
        a == b,
{
    lemma_decimal_chars(a);
    lemma_decimal_chars(b);
    lemma_decimal(a);
    lemma_decimal(b);
    assert forall|i: int| 0 <= i < decimal(a).len() implies decimal(a)[i] == decimal(b)[i] by {
        let x = decimal(a)[i];
        let y = decimal(b)[i];
        assert(crate::text::is_digit(x));
        assert(crate::text::is_digit(y));
        assert(decimal_chars(a)[i] == digit_char((x - 48) as nat));
        assert(decimal_chars(b)[i] == digit_char((y - 48) as nat));
    }
    assert(decimal(a) =~= decimal(b));
    lemma_decimal_injective(a, b);
}

/// Table files with different numbers have different paths.
pub proof fn table_paths_differ(dir: Seq<char>, a: u64, b: u64)
    requires
        a != b,
    ensures
        table_path(dir, a) != table_path(dir, b),
{
    let head = dir + "/sstable_"@;
    let tail = ".dat"@;
    let x = decimal_chars(a as nat);
    let y = decimal_chars(b as nat);
    if table_path(dir, a) == table_path(dir, b) {
        let pa = head + x + tail;
        let pb = head + y + tail;
        assert(pa.len() == pb.len());
        assert(x.len() == y.len());
        assert forall|i: int| 0 <= i < x.len() implies x[i] == y[i] by {
            assert(pa[head.len() + i] == x[i]);
            assert(pb[head.len() + i] == y[i]);
        }
        assert(x =~= y);
        lemma_decimal_chars_injective(a as nat, b as nat);
    }
}

/// No table file is written twice: every file that a rollover writes has a
/// number from the engine's next number on, and the next number moves past
/// it.
pub proof fn rollover_writes_new_files(old: EngineView, new: EngineView, fx: Seq<EffectView>, k: int)
    requires
        rolled_over(old, new, fx),
        0 <= k < fx.len(),
        fx[k] is WriteTable,
    ensures
        new.next_id > old.next_id,
        exists|n: u64|
            old.next_id <= n < new.next_id && fx[k]->WriteTable_path == #[trigger] table_path(
                old.dir,
                n,
            ),
{
    if k == 0 {
        assert(fx[k]->WriteTable_path == table_path(old.dir, old.next_id));
    } else {
        assert(k == 2);
        assert(fx[k]->WriteTable_path == table_path(old.dir, (old.next_id + 1) as u64));
    }
}

} // verus!
