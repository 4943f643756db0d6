//! The engine of one table: a memtable over a list of sorted tables, newest
//! first.
//!
//! The engine decides; it does not touch the disk. A write is first appended
//! to the journal by the caller, then handed to the engine, which answers
//! with the storage effects that the caller is to carry out in order. A read
//! that needs a table whose file has not been read yet says which one.

use vstd::prelude::*;
use vstd::string::StringExecFns;
use super::block::{bincode_image, has_id, lookup, pairs_of, position, distinct_ids};
use super::memtable::MemTable;
use super::record::{Record, RecordView};
use super::sorted::{ascending, lemma_distinct_last, lookup_last, merge_records, overlay, sort_records, views};
use super::sstable::{table_image, SSTable};
use super::discovery::{discover, file_views, newest_first, next_table_id, FileView, TableFile};
use super::laws::{put_is_visible, replace_is_visible};
use super::durability::{journal_follows_write, lemma_replay_prefix, mem_apply, mem_replay, mem_replay_from};
use super::writelog::{entry_views, LogEntry, LogEntryView};
use crate::text::{append_decimal, decimal_chars};

verus! {

/// Above this many sorted tables, a rollover merges the two oldest.
pub const MAX_TABLES: usize = 4;

/// Something the caller is to do to the table's directory.
#[derive(Debug)]
pub enum Effect {
    /// Create the file at `path` with `bytes` as its content.
    WriteTable { path: String, bytes: Vec<u8> },
    /// Cut the journal down to nothing.
    TruncateLog,
    /// Delete the file at `path`; it is no error if that fails.
    RemoveTable { path: String },
}

/// What an effect asks for.
pub enum EffectView {
    WriteTable { path: Seq<char>, bytes: Seq<u8> },
    TruncateLog,
    RemoveTable { path: Seq<char> },
}

impl View for Effect {
    type V = EffectView;

    open spec fn view(&self) -> EffectView {
        match self {
            Effect::WriteTable { path, bytes } => EffectView::WriteTable { path: path@, bytes: bytes@ },
            Effect::TruncateLog => EffectView::TruncateLog,
            Effect::RemoveTable { path } => EffectView::RemoveTable { path: path@ },
        }
    }
}

/// What each effect of `v` asks for, in order.
pub open spec fn effect_views(v: Seq<Effect>) -> Seq<EffectView> {
    v.map_values(|e: Effect| e@)
}

/// Why the engine did not do what was asked. The engine is unchanged.
#[derive(Debug, Clone, Copy, PartialEq, Eq, Structural)]
pub enum EngineError {
    /// The sorted table at this place of the list must be read from its file
    /// first: see `load_table`.
    NotLoaded(usize),
    /// No sorted table stands at this place of the list.
    NoSuchTable(usize),
    /// The bytes handed over are not those of a sorted table.
    Corrupt,
    /// The records of a new table could not be put into bytes. The encoder
    /// has no failure to report for records, so no operation returns this.
    Encoding,
    /// The memtable takes no record at all: its bound is zero.
    Rejected,
    /// No number is left for a new table file.
    IdsExhausted,
}

/// The error in words.
pub open spec fn engine_error_text(e: EngineError) -> Seq<char> {
    match e {
        EngineError::NotLoaded(_) => "table file not loaded"@,
        EngineError::NoSuchTable(_) => "no such table"@,
        EngineError::Corrupt => "table file is corrupt"@,
        EngineError::Encoding => "records could not be encoded"@,
        EngineError::Rejected => "Failed to insert after flush"@,
        EngineError::IdsExhausted => "table file numbers exhausted"@,
    }
}

impl EngineError {
    /// The error in words.
    pub fn message(&self) -> (r: &'static str)
        ensures
            r@ == engine_error_text(*self),
    {
        match self {
            EngineError::NotLoaded(_) => "table file not loaded",
            EngineError::NoSuchTable(_) => "no such table",
            EngineError::Corrupt => "table file is corrupt",
            EngineError::Encoding => "records could not be encoded",
            EngineError::Rejected => "Failed to insert after flush",
            EngineError::IdsExhausted => "table file numbers exhausted",
        }
    }
}

/// Counts of what the engine holds.
#[derive(Debug, Clone, Copy, PartialEq, Eq, Structural)]
pub struct EngineStats {
    pub memtable_size: usize,
    pub sstable_count: usize,
    pub total_records: usize,
}

/// What the engine knows of one sorted table.
pub struct TableView {
    pub path: Seq<char>,
    pub loaded: bool,
    pub records: Seq<RecordView>,
}

/// What an engine is: the memtable, its bound, the sorted tables from the
/// newest to the oldest, the directory and the number of the next table file.
pub struct EngineView {
    pub memtable: Seq<RecordView>,
    pub limit: usize,
    pub tables: Seq<TableView>,
    pub dir: Seq<char>,
    pub next_id: u64,
}

/// What the engine knows of `t`.
pub open spec fn table_view(t: SSTable) -> TableView {
    TableView { path: t.path(), loaded: t.loaded(), records: t@ }
}

/// The path of the table file with the number `id` in the directory `dir`.
pub open spec fn table_path(dir: Seq<char>, id: u64) -> Seq<char> {
    dir + "/sstable_"@ + decimal_chars(id as nat) + ".dat"@
}

/// What a reader finds under `id` in the tables from place `from` on, going
/// from newer to older: the first hit, or the place of a table that must be
/// read from its file before the answer is known.
pub open spec fn probe_tables(tables: Seq<TableView>, id: u64, from: int) -> Result<
    Option<RecordView>,
    int,
>
    decreases tables.len() - from,
{
    if from < 0 || from >= tables.len() {
        Ok(None)
    } else if !tables[from].loaded {
        Err(from)
    } else if has_id(tables[from].records, id) {
        Ok(lookup(tables[from].records, id))
    } else {
        probe_tables(tables, id, from + 1)
    }
}

/// What a reader finds under `id`: the memtable's record, else the first hit
/// in the tables from newest to oldest.
pub open spec fn probe(v: EngineView, id: u64) -> Result<Option<RecordView>, int> {
    if has_id(v.memtable, id) {
        Ok(lookup(v.memtable, id))
    } else {
        probe_tables(v.tables, id, 0)
    }
}

/// The place of the first table from `from` on whose file has not been read.
pub open spec fn first_unloaded(tables: Seq<TableView>, from: int) -> Option<int>
    decreases tables.len() - from,
{
    if from < 0 || from >= tables.len() {
        None
    } else if !tables[from].loaded {
        Some(from)
    } else {
        first_unloaded(tables, from + 1)
    }
}

/// The number of records in the tables from place `from` on.
pub open spec fn records_in(tables: Seq<TableView>, from: int) -> nat
    decreases tables.len() - from,
{
    if from < 0 || from >= tables.len() {
        0
    } else {
        tables[from].records.len() + records_in(tables, from + 1)
    }
}

/// What holds of every engine: the memtable is within its bound and has no
/// key twice, each table is in key order, and a table whose file has not
/// been read holds nothing.
pub open spec fn valid(v: EngineView) -> bool {
    &&& v.memtable.len() <= v.limit
    &&& distinct_ids(v.memtable)
    &&& v.next_id >= 1
    &&& forall|i: int| 0 <= i < v.tables.len() ==> ascending((#[trigger] v.tables[i]).records)
    &&& forall|i: int|
        0 <= i < v.tables.len() && !v.tables[i].loaded ==> (#[trigger] v.tables[i]).records.len() == 0
}

/// Whether two answers of a reader agree: the same record or none, or in
/// both cases a table that must be read first.
pub open spec fn same_answer(a: Result<Option<RecordView>, int>, b: Result<Option<RecordView>, int>) -> bool {
    match (a, b) {
        (Ok(x), Ok(y)) => x == y,
        (Err(_), Err(_)) => true,
        _ => false,
    }
}

/// Whether the list of tables stayed within its bound: it is no longer than
/// it was, or than `MAX_TABLES`.
pub open spec fn tables_bounded(old: EngineView, new: EngineView) -> bool {
    new.tables.len() <= old.tables.len() || new.tables.len() <= MAX_TABLES
}

/// Whether the memtable takes a record with the key `id` as it stands.
pub open spec fn accepts(v: EngineView, id: u64) -> bool {
    v.memtable.len() < v.limit && !has_id(v.memtable, id)
}

/// Whether `t` is the sorted table of the records `s`: in key order, with
/// the same answer to every lookup.
pub open spec fn is_run_of(t: Seq<RecordView>, s: Seq<RecordView>) -> bool {
    ascending(t) && forall|id: u64| #[trigger] lookup(t, id) == lookup(s, id)
}

/// Whether `t` is the sorted table that `newer` laid over `older` gives.
pub open spec fn is_merge_of(t: Seq<RecordView>, older: Seq<RecordView>, newer: Seq<RecordView>) -> bool {
    ascending(t) && forall|id: u64| #[trigger] lookup(t, id) == overlay(older, newer, id)
}

/// The bytes of the file of a table with these records.
pub open spec fn image_of(records: Seq<RecordView>) -> Option<Seq<u8>> {
    bincode_image(pairs_of(records))
}

/// Whether `t` is a table in memory at `path` whose file is to hold what the
/// effect `e` writes.
pub open spec fn written_by(t: TableView, path: Seq<char>, e: EffectView) -> bool {
    &&& t.loaded
    &&& t.path == path
    &&& image_of(t.records) is Some
    &&& table_image(image_of(t.records).unwrap()) == Some(t.records)
    &&& e == (EffectView::WriteTable { path: path, bytes: image_of(t.records).unwrap() })
}

/// The rollover: the memtable, which holds something, becomes a new sorted
/// table at the head of the list, and the journal is cut down. Where that
/// makes more than `MAX_TABLES` tables, the two oldest are merged into one,
/// the younger of the two winning where both have a key, and their files go.
pub open spec fn rolled_over(old: EngineView, new: EngineView, fx: Seq<EffectView>) -> bool {
    let n = old.tables.len() as int;
    &&& old.memtable.len() > 0
    &&& new.memtable.len() == 0
    &&& new.limit == old.limit
    &&& new.dir == old.dir
    &&& new.tables.len() >= 1
    &&& fx.len() >= 2
    &&& is_run_of(new.tables[0].records, old.memtable)
    &&& written_by(new.tables[0], table_path(old.dir, old.next_id), fx[0])
    &&& fx[1] == EffectView::TruncateLog
    &&& if n >= MAX_TABLES {
        &&& new.tables.len() == n
        &&& new.next_id == old.next_id + 2
        &&& forall|i: int| 1 <= i < n - 1 ==> #[trigger] new.tables[i] == old.tables[i - 1]
        &&& old.tables[n - 1].loaded
        &&& old.tables[n - 2].loaded
        &&& is_merge_of(new.tables[n - 1].records, old.tables[n - 1].records, old.tables[n - 2].records)
        &&& fx.len() == 5
        &&& written_by(new.tables[n - 1], table_path(old.dir, (old.next_id + 1) as u64), fx[2])
        &&& fx[3] == (EffectView::RemoveTable { path: old.tables[n - 1].path })
        &&& fx[4] == (EffectView::RemoveTable { path: old.tables[n - 2].path })
    } else {
        &&& new.tables.len() == n + 1
        &&& new.next_id == old.next_id + 1
        &&& forall|i: int| 1 <= i <= n ==> #[trigger] new.tables[i] == old.tables[i - 1]
        &&& fx.len() == 2
    }
}

/// What a flush does: nothing where the memtable is empty, else a rollover.
pub open spec fn flushed(old: EngineView, new: EngineView, fx: Seq<EffectView>) -> bool {
    if old.memtable.len() == 0 {
        new == old && fx.len() == 0
    } else {
        rolled_over(old, new, fx)
    }
}

/// Why a rollover is refused: one of the two tables to merge has not been
/// read from its file, the oldest named first; or no file number is left.
pub open spec fn roll_refusal(v: EngineView, e: EngineError) -> bool {
    let n = v.tables.len() as int;
    &&& v.memtable.len() > 0
    &&& if n >= MAX_TABLES && !v.tables[n - 1].loaded {
        e == EngineError::NotLoaded((n - 1) as usize)
    } else if n >= MAX_TABLES && !v.tables[n - 2].loaded {
        e == EngineError::NotLoaded((n - 2) as usize)
    } else if v.next_id > u64::MAX - (if n >= MAX_TABLES {
        2int
    } else {
        1int
    }) {
        e == EngineError::IdsExhausted
    } else {
        false
    }
}

/// What a write of the record `r` that the memtable does not hold does: the
/// memtable takes it as it stands, or after a rollover.
pub open spec fn put_done(old: EngineView, r: RecordView, new: EngineView, fx: Seq<EffectView>) -> bool {
    if accepts(old, r.id) {
        fx.len() == 0 && new == (EngineView { memtable: old.memtable.push(r), ..old })
    } else {
        &&& old.limit > 0
        &&& new.memtable == seq![r]
        &&& rolled_over(old, EngineView { memtable: Seq::empty(), ..new }, fx)
    }
}

/// Why such a write is refused: the memtable takes no record at all, or the
/// rollover that it needs is refused.
pub open spec fn put_refusal(old: EngineView, id: u64, e: EngineError) -> bool {
    &&& !accepts(old, id)
    &&& if old.limit == 0 {
        e == EngineError::Rejected
    } else {
        roll_refusal(old, e)
    }
}

/// What the replay of a write does: what the write did when it was made,
/// but that a memtable that takes no record at all is left as it is.
pub open spec fn replayed_put(old: EngineView, r: RecordView, new: EngineView, fx: Seq<EffectView>) -> bool {
    if !accepts(old, r.id) && old.limit == 0 {
        fx.len() == 0 && new == old
    } else {
        put_done(old, r, new, fx)
    }
}

/// What the replay of a journal entry does to the engine.
pub open spec fn replayed(old: EngineView, e: LogEntryView, new: EngineView, fx: Seq<EffectView>) -> bool {
    match e {
        LogEntryView::Insert(r) => replayed_put(old, r, new, fx),
        LogEntryView::Update { id, data } => if has_id(old.memtable, id) {
            fx.len() == 0 && new == (EngineView {
                memtable: old.memtable.update(position(old.memtable, id), RecordView { id, data }),
                ..old
            })
        } else {
            replayed_put(old, RecordView { id, data }, new, fx)
        },
        LogEntryView::Delete { id } => fx.len() == 0 && new == (EngineView {
            memtable: if has_id(old.memtable, id) {
                old.memtable.remove(position(old.memtable, id))
            } else {
                old.memtable
            },
            ..old
        }),
    }
}

/// Why the replay of a journal entry is refused: the rollover that it needs
/// is refused.
pub open spec fn replay_refusal(old: EngineView, e: LogEntryView, err: EngineError) -> bool {
    &&& old.limit > 0
    &&& match e {
        LogEntryView::Insert(r) => put_refusal(old, r.id, err),
        LogEntryView::Update { id, .. } => !has_id(old.memtable, id) && put_refusal(old, id, err),
        LogEntryView::Delete { .. } => false,
    }
}

/// The path of the file `name` in the directory `dir`.
pub open spec fn file_path(dir: Seq<char>, name: Seq<char>) -> Seq<char> {
    dir + "/"@ + name
}

/// The tables of the files `files` of the directory `dir`, none of them read
/// yet.
pub open spec fn lazy_tables(dir: Seq<char>, files: Seq<FileView>) -> Seq<TableView> {
    files.map_values(
        |f: FileView| TableView { path: file_path(dir, f.name), loaded: false, records: Seq::empty() },
    )
}

/// The engine of one table.
pub struct LSMEngine {
    memtable: MemTable,
    sstables: Vec<SSTable>,
    data_dir: String,
    next_sstable_id: u64,
}

impl View for LSMEngine {
    type V = EngineView;

    closed spec fn view(&self) -> EngineView {
        EngineView {
            memtable: self.memtable@,
            limit: self.memtable.limit(),
            tables: self.sstables@.map_values(|t: SSTable| table_view(t)),
            dir: self.data_dir@,
            next_id: self.next_sstable_id,
        }
    }
}

impl LSMEngine {
    /// Whether the engine's parts are well formed.
    pub closed spec fn wf(&self) -> bool {
        &&& self.memtable.wf()
        &&& forall|i: int| 0 <= i < self.sstables@.len() ==> (#[trigger] self.sstables@[i]).wf()
        &&& self.next_sstable_id >= 1
    }

    /// What the parts of a well-formed engine hold.
    pub proof fn lemma_wf(&self)
        requires
            self.wf(),
        ensures
            valid(self@),
    {
        self.memtable.lemma_wf();
        assert forall|i: int| 0 <= i < self@.tables.len() implies ascending(
            (#[trigger] self@.tables[i]).records,
        ) && (!self@.tables[i].loaded ==> self@.tables[i].records.len() == 0) by {
            self.sstables@[i].lemma_wf();
        }
    }

    /// An engine for the directory `data_dir` with nothing in it: an empty
    /// memtable that takes up to `memtable_size` records, and no table.
    pub fn empty(data_dir: &str, memtable_size: usize) -> (r: Self)
        ensures
            r.wf(),
            r@ == (EngineView {
                memtable: Seq::empty(),
                limit: memtable_size,
                tables: Seq::empty(),
                dir: data_dir@,
                next_id: 1,
            }),
    {
        let r = Self {
            memtable: MemTable::new(memtable_size),
            sstables: Vec::new(),
            data_dir: data_dir.to_owned(),
            next_sstable_id: 1,
        };
        assert(r@.tables =~= Seq::<TableView>::empty());
        r
    }

    /// The engine for the directory `data_dir` after a restart, given the
    /// listing of the directory: its table files become tables that are read
    /// on first use, the newest file first, and the memtable is empty. The
    /// journal is then replayed with `replay_journal` and `replay_entry`;
    /// `new` opens the engine and replays the journal in one call.
    pub fn open(data_dir: &str, memtable_size: usize, files: &Vec<TableFile>) -> (r: Self)
        ensures
            r.wf(),
            r@ == (EngineView {
                memtable: Seq::empty(),
                limit: memtable_size,
                tables: lazy_tables(data_dir@, newest_first(file_views(files@))),
                dir: data_dir@,
                next_id: next_table_id(file_views(files@)),
            }),
    {
        let (found, next) = discover(files);
        let mut tables: Vec<SSTable> = Vec::new();
        let mut i: usize = 0;
        let ghost order = newest_first(file_views(files@));
        while i < found.len()
            invariant
                i <= found@.len(),
                file_views(found@) == order,
                tables@.len() == i,
                forall|k: int| 0 <= k < i ==> (#[trigger] tables@[k]).wf(),
                forall|k: int|
                    0 <= k < i ==> table_view(#[trigger] tables@[k]) == lazy_tables(data_dir@, order)[k],
            decreases found@.len() - i,
        {
            let mut path = data_dir.to_owned();
            path.append("/");
            path.append(found[i].name.as_str());
            proof {
                assert(order[i as int] == found@[i as int]@);
                assert(path@ =~= file_path(data_dir@, found@[i as int]@.name));
            }
            tables.push(SSTable::new_lazy(path.as_str()));
            i += 1;
        }
        proof {
            super::discovery::lemma_next_table_id_positive(file_views(files@));
        }
        let r = Self {
            memtable: MemTable::new(memtable_size),
            sstables: tables,
            data_dir: data_dir.to_owned(),
            next_sstable_id: next,
        };
        proof {
            assert(r@.tables =~= lazy_tables(data_dir@, order));
        }
        r
    }

    /// The directory of the table files.
    pub fn data_dir(&self) -> (r: &str)
        ensures
            r@ == self@.dir,
    {
        self.data_dir.as_str()
    }

    /// The number of sorted tables.
    pub fn table_count(&self) -> (r: usize)
        ensures
            r == self@.tables.len(),
    {
        self.sstables.len()
    }

    /// The path of the file of the table at place `index`.
    pub fn table_file(&self, index: usize) -> (r: Option<&str>)
        ensures
            match r {
                Some(path) => index < self@.tables.len() && path@ == self@.tables[index as int].path,
                None => index >= self@.tables.len(),
            },
    {
        if index < self.sstables.len() {
            Some(self.sstables[index].file_path())
        } else {
            None
        }
    }

    /// Takes the bytes of the file of the table at place `index`, unless that
    /// table is in memory already. Nothing else changes.
    pub fn load_table(&mut self, index: usize, bytes: &[u8]) -> (r: Result<(), EngineError>)
        requires
            old(self).wf(),
        ensures
            final(self).wf(),
            match r {
                Ok(_) => index < old(self)@.tables.len() && final(self)@ == (EngineView {
                    tables: old(self)@.tables.update(
                        index as int,
                        if old(self)@.tables[index as int].loaded {
                            old(self)@.tables[index as int]
                        } else {
                            TableView {
                                path: old(self)@.tables[index as int].path,
                                loaded: true,
                                records: table_image(bytes@).unwrap(),
                            }
                        },
                    ),
                    ..old(self)@
                }) && (old(self)@.tables[index as int].loaded || table_image(bytes@) is Some),
                Err(e) => final(self)@ == old(self)@ && if index >= old(self)@.tables.len() {
                    e == EngineError::NoSuchTable(index)
                } else {
                    e == EngineError::Corrupt && !old(self)@.tables[index as int].loaded
                        && table_image(bytes@) is None
                },
            },
    {
        if index >= self.sstables.len() {
            return Err(EngineError::NoSuchTable(index));
        }
        let ghost before = self.sstables@;
        let result = self.sstables[index].load(bytes);
        proof {
            assert forall|i: int| 0 <= i < self.sstables@.len() implies (#[trigger] self.sstables@[i]).wf() by {
                if i != index {
                    assert(self.sstables@[i] == before[i]);
                }
            }
        }
        match result {
            Ok(()) => {
                proof {
                    assert(self@.tables =~= old(self)@.tables.update(
                        index as int,
                        table_view(self.sstables@[index as int]),
                    ));
                }
                Ok(())
            },
            Err(_) => {
                proof {
                    assert(self@.tables =~= old(self)@.tables);
                }
                Err(EngineError::Corrupt)
            },
        }
    }

    /// The path of the table file with the number `id`.
    fn path_of(&self, id: u64) -> (r: String)
        ensures
            r@ == table_path(self@.dir, id),
    {
        let mut path = self.data_dir.clone();
        path.append("/sstable_");
        append_decimal(&mut path, id);
        path.append(".dat");
        proof {
            assert(path@ =~= table_path(self@.dir, id));
        }
        path
    }

    /// Turns the memtable into a sorted table, if it holds anything.
    fn roll(&mut self) -> (r: Result<Vec<Effect>, EngineError>)
        requires
            old(self).wf(),
        ensures
            final(self).wf(),
            match r {
                Ok(effects) => flushed(old(self)@, final(self)@, effect_views(effects@)),
                Err(e) => final(self)@ == old(self)@ && roll_refusal(old(self)@, e),
            },
    {
        if self.memtable.is_empty() {
            return Ok(Vec::new());
        }
        let ghost before = self@;
        let ghost tables = self.sstables@;
        proof {
            self.memtable.lemma_wf();
        }
        let n = self.sstables.len();
        let compact = n >= MAX_TABLES;
        if compact {
            proof {
                assert(before.tables[n - 1] == table_view(tables[n - 1]));
                assert(before.tables[n - 2] == table_view(tables[n - 2]));
            }
            if !self.sstables[n - 1].is_loaded() {
                return Err(EngineError::NotLoaded(n - 1));
            }
            if !self.sstables[n - 2].is_loaded() {
                return Err(EngineError::NotLoaded(n - 2));
            }
        }
        let spare: u64 = if compact { 2 } else { 1 };
        if self.next_sstable_id > u64::MAX - spare {
            return Err(EngineError::IdsExhausted);
        }
        let path = self.path_of(self.next_sstable_id);
        let table = SSTable::create_from_block(self.memtable.as_block().clone(), path.as_str());
        proof {
            table.lemma_wf();
            assert forall|id: u64| #[trigger] lookup(table@, id) == lookup(before.memtable, id) by {
                lemma_distinct_last(before.memtable, id);
            }
            assert(is_run_of(table@, before.memtable));
        }
        let bytes = match table.to_bytes() {
            Ok(bytes) => bytes,
            Err(_) => {
                return Err(EngineError::Encoding);
            },
        };
        let mut effects: Vec<Effect> = Vec::new();
        effects.push(Effect::WriteTable { path, bytes });
        effects.push(Effect::TruncateLog);
        if compact {
            let merged_path = self.path_of(self.next_sstable_id + 1);
            proof {
                assert(tables[n - 1].wf());
                assert(tables[n - 2].wf());
            }
            let merged = match self.sstables[n - 1].merge_with(
                &self.sstables[n - 2],
                merged_path.as_str(),
            ) {
                Ok(merged) => merged,
                Err(_) => {
                    return Err(EngineError::NotLoaded(n - 1));
                },
            };
            proof {
                merged.lemma_wf();
                assert(is_merge_of(merged@, before.tables[n - 1].records, before.tables[n - 2].records));
            }
            let merged_bytes = match merged.to_bytes() {
                Ok(bytes) => bytes,
                Err(_) => {
                    return Err(EngineError::Encoding);
                },
            };
            effects.push(Effect::WriteTable { path: merged_path, bytes: merged_bytes });
            effects.push(Effect::RemoveTable { path: self.sstables[n - 1].file_path().to_owned() });
            effects.push(Effect::RemoveTable { path: self.sstables[n - 2].file_path().to_owned() });
            self.sstables.truncate(n - 2);
            self.sstables.push(merged);
            self.next_sstable_id = self.next_sstable_id + 2;
        } else {
            self.next_sstable_id = self.next_sstable_id + 1;
        }
        self.memtable.clear();
        self.sstables.insert(0, table);
        proof {
            let now = self.sstables@;
            assert(now[0] == table);
            assert forall|i: int| 0 <= i < now.len() implies (#[trigger] now[i]).wf() by {
                if 1 <= i && (!compact || i < n - 1) {
                    assert(now[i] == tables[i - 1]);
                    assert(tables[i - 1].wf());
                }
            }
            assert(self@.tables[0] == table_view(now[0]));
            let fx = effect_views(effects@);
            assert(fx[0] == effects@[0]@);
            assert(fx[1] == effects@[1]@);
            if compact {
                assert(fx[2] == effects@[2]@);
                assert(fx[3] == effects@[3]@);
                assert(fx[4] == effects@[4]@);
                assert(self@.tables[n - 1] == table_view(now[n - 1]));
                assert forall|i: int| 1 <= i < n - 1 implies #[trigger] self@.tables[i]
                    == before.tables[i - 1] by {
                    assert(now[i] == tables[i - 1]);
                }
            } else {
                assert forall|i: int| 1 <= i <= n implies #[trigger] self@.tables[i] == before.tables[i
                    - 1] by {
                    assert(now[i] == tables[i - 1]);
                }
            }
        }
        Ok(effects)
    }

    /// Puts a record that the memtable does not hold into the memtable, after
    /// a rollover where it has no room or holds the key already.
    fn put(&mut self, record: Record) -> (r: Result<Vec<Effect>, EngineError>)
        requires
            old(self).wf(),
        ensures
            final(self).wf(),
            match r {
                Ok(effects) => put_done(old(self)@, record@, final(self)@, effect_views(effects@)),
                Err(e) => final(self)@ == old(self)@ && put_refusal(old(self)@, record.id, e),
            },
    {
        let fits = !self.memtable.is_full() && self.memtable.get(record.id).is_none();
        if fits {
            let ghost tables = self@.tables;
            self.memtable.insert(record);
            proof {
                assert(self@.tables =~= tables);
            }
            return Ok(Vec::new());
        }
        proof {
            self.memtable.lemma_wf();
        }
        if self.memtable.is_empty() {
            return Err(EngineError::Rejected);
        }
        let effects = match self.roll() {
            Ok(effects) => effects,
            Err(e) => {
                return Err(e);
            },
        };
        let ghost rolled = self@;
        self.memtable.insert(record);
        proof {
            assert(self@.tables =~= rolled.tables);
            assert(rolled.memtable =~= Seq::<RecordView>::empty());
            assert(self@.memtable =~= seq![record@]);
            assert(rolled == (EngineView { memtable: Seq::empty(), ..self@ }));
        }
        Ok(effects)
    }

    /// Writes a new record. The caller has appended the entry to the journal.
    /// The record is what `get` finds under its key from now on.
    pub fn insert(&mut self, record: Record) -> (r: Result<Vec<Effect>, EngineError>)
        requires
            old(self).wf(),
        ensures
            final(self).wf(),
            match r {
                Ok(effects) => put_done(old(self)@, record@, final(self)@, effect_views(effects@)),
                Err(e) => final(self)@ == old(self)@ && put_refusal(old(self)@, record.id, e),
            },
            r is Ok ==> probe(final(self)@, record.id) == Ok::<Option<RecordView>, int>(Some(record@)),
            tables_bounded(old(self)@, final(self)@),
    {
        let r = self.put(record);
        proof {
            if r is Ok {
                put_is_visible(old(self)@, record@, self@, effect_views(r.unwrap()@));
            }
        }
        r
    }

    /// Writes the payload under `id`, whether the key is known or not. The
    /// caller has appended the entry to the journal.
    pub fn update(&mut self, id: u64, new_data: Vec<u8>) -> (r: Result<Vec<Effect>, EngineError>)
        requires
            old(self).wf(),
        ensures
            final(self).wf(),
            match r {
                Ok(effects) => if has_id(old(self)@.memtable, id) {
                    effects@.len() == 0 && final(self)@ == (EngineView {
                        memtable: old(self)@.memtable.update(
                            position(old(self)@.memtable, id),
                            RecordView { id, data: new_data@ },
                        ),
                        ..old(self)@
                    })
                } else {
                    put_done(
                        old(self)@,
                        RecordView { id, data: new_data@ },
                        final(self)@,
                        effect_views(effects@),
                    )
                },
                Err(e) => final(self)@ == old(self)@ && !has_id(old(self)@.memtable, id)
                    && put_refusal(old(self)@, id, e),
            },
            r is Ok ==> probe(final(self)@, id) == Ok::<Option<RecordView>, int>(
                Some(RecordView { id, data: new_data@ }),
            ),
            tables_bounded(old(self)@, final(self)@),
    {
        if self.memtable.get(id).is_some() {
            let ghost tables = self@.tables;
            proof {
                self.lemma_wf();
                replace_is_visible(old(self)@, RecordView { id, data: new_data@ }, id);
            }
            self.memtable.update(id, new_data);
            proof {
                assert(self@.tables =~= tables);
            }
            return Ok(Vec::new());
        }
        let r = self.put(Record::new(id, new_data));
        proof {
            if r is Ok {
                put_is_visible(
                    old(self)@,
                    RecordView { id, data: new_data@ },
                    self@,
                    effect_views(r.unwrap()@),
                );
            }
        }
        r
    }

    /// Takes the record under `id` out of the memtable and says whether it
    /// was there. The sorted tables keep what they hold. The caller has
    /// appended the entry to the journal.
    pub fn delete(&mut self, id: u64) -> (deleted: bool)
        requires
            old(self).wf(),
        ensures
            final(self).wf(),
            deleted == has_id(old(self)@.memtable, id),
            final(self)@ == (EngineView {
                memtable: if deleted {
                    old(self)@.memtable.remove(position(old(self)@.memtable, id))
                } else {
                    old(self)@.memtable
                },
                ..old(self)@
            }),
    {
        let ghost tables = self@.tables;
        let deleted = self.memtable.delete(id);
        proof {
            assert(self@.tables =~= tables);
        }
        deleted
    }

    /// Applies one entry of the journal to the engine, as the write did when
    /// it was made; the journal itself is not written to.
    pub fn replay_entry(&mut self, entry: LogEntry) -> (r: Result<Vec<Effect>, EngineError>)
        requires
            old(self).wf(),
        ensures
            final(self).wf(),
            match r {
                Ok(effects) => replayed(old(self)@, entry@, final(self)@, effect_views(effects@)),
                Err(e) => final(self)@ == old(self)@ && replay_refusal(old(self)@, entry@, e),
            },
            tables_bounded(old(self)@, final(self)@),
    {
        proof {
            self.memtable.lemma_wf();
        }
        match entry {
            LogEntry::Insert(record) => {
                match self.put(record) {
                    Err(EngineError::Rejected) => Ok(Vec::new()),
                    other => other,
                }
            },
            LogEntry::Update { id, data } => {
                if self.memtable.get(id).is_some() {
                    let ghost tables = self@.tables;
                    self.memtable.update(id, data);
                    proof {
                        assert(self@.tables =~= tables);
                    }
                    return Ok(Vec::new());
                }
                match self.put(Record::new(id, data)) {
                    Err(EngineError::Rejected) => Ok(Vec::new()),
                    other => other,
                }
            },
            LogEntry::Delete { id } => {
                let ghost tables = self@.tables;
                self.memtable.delete(id);
                proof {
                    assert(self@.tables =~= tables);
                }
                Ok(Vec::new())
            },
        }
    }

    /// Whether the memtable takes an entry of the journal as it stands,
    /// without a rollover.
    pub fn takes(&self, entry: &LogEntry) -> (r: bool)
        requires
            self.wf(),
        ensures
            r == mem_apply(self@.memtable, self@.limit, entry@) is Some,
    {
        match entry {
            LogEntry::Insert(record) => !self.memtable.is_full() && self.memtable.get(
                record.id,
            ).is_none(),
            LogEntry::Update { id, .. } => self.memtable.get(*id).is_some() || !self.memtable.is_full(),
            LogEntry::Delete { .. } => true,
        }
    }

    /// Replays the entries of a journal, one after another, for as long as
    /// the memtable takes them as it stands, and says how many it replayed:
    /// all of them where the journal asks for no rollover. The tables stay
    /// as they are. The first entry that is left, if any, is one for
    /// `replay_entry`, with the effects that its rollover asks for.
    pub fn replay_journal(&mut self, entries: &Vec<LogEntry>) -> (done: usize)
        requires
            old(self).wf(),
        ensures
            final(self).wf(),
            done <= entries@.len(),
            mem_replay_from(
                old(self)@.memtable,
                entry_views(entries@).subrange(0, done as int),
                old(self)@.limit,
            ) == Some(final(self)@.memtable),
            final(self)@ == (EngineView { memtable: final(self)@.memtable, ..old(self)@ }),
            done < entries@.len() ==> mem_apply(
                final(self)@.memtable,
                final(self)@.limit,
                entries@[done as int]@,
            ) is None,
            mem_replay_from(old(self)@.memtable, entry_views(entries@), old(self)@.limit) is Some ==> done
                == entries@.len(),
    {
        let ghost start = self@;
        let ghost journal = entry_views(entries@);
        let mut i: usize = 0;
        let mut done = false;
        proof {
            assert(journal.subrange(0, 0) =~= Seq::<LogEntryView>::empty());
        }
        while i < entries.len() && !done
            invariant
                self.wf(),
                i <= entries@.len(),
                start == old(self)@,
                journal == entry_views(entries@),
                mem_replay_from(start.memtable, journal.subrange(0, i as int), start.limit) == Some(
                    self@.memtable,
                ),
                self@ == (EngineView { memtable: self@.memtable, ..start }),
                done ==> i < entries@.len() && mem_apply(self@.memtable, self@.limit, entries@[i as int]@)
                    is None,
            decreases entries@.len() - i + if done { 0int } else { 1int },
        {
            if self.takes(&entries[i]) {
                let ghost before = self@;
                let ghost e = entries@[i as int]@;
                match self.replay_entry(entries[i].clone()) {
                    Ok(effects) => {
                        proof {
                            journal_follows_write(
                                before,
                                e,
                                self@,
                                effect_views(effects@),
                                journal.subrange(0, i as int),
                                start.memtable,
                            );
                            assert(journal.subrange(0, i as int).push(e) =~= journal.subrange(0, i + 1));
                        }
                    },
                    Err(_) => {
                        proof {
                            assert(false);
                        }
                    },
                }
                i += 1;
            } else {
                done = true;
            }
        }
        proof {
            if i < entries@.len() {
                if mem_replay_from(start.memtable, journal, start.limit) is Some {
                    lemma_replay_prefix(start.memtable, journal, start.limit, i + 1);
                    assert(journal.subrange(0, i + 1).drop_last() =~= journal.subrange(0, i as int));
                    assert(journal.subrange(0, i + 1).last() == entries@[i as int]@);
                }
            } else {
                assert(journal.subrange(0, i as int) =~= journal);
            }
        }
        i
    }

    /// The engine for the directory `data_dir`, given the listing of the
    /// directory and the entries of its journal: the tables of `open`, and
    /// the memtable that the journal builds for as long as its entries ask
    /// for no rollover. It says how many entries it replayed: all of them
    /// where the journal asks for no rollover, as the journal of a
    /// directory does that is in step with its engine. An entry that is
    /// left is one for `replay_entry`, and those behind it for
    /// `replay_journal`. On a directory without files and with an empty
    /// journal this is the engine of `empty`.
    pub fn new(
        data_dir: &str,
        memtable_size: usize,
        files: &Vec<TableFile>,
        journal: &Vec<LogEntry>,
    ) -> (r: (Self, usize))
        ensures
            r.0.wf(),
            r.1 <= journal@.len(),
            mem_replay(entry_views(journal@).subrange(0, r.1 as int), memtable_size) == Some(
                r.0@.memtable,
            ),
            r.0@ == (EngineView {
                memtable: r.0@.memtable,
                limit: memtable_size,
                tables: lazy_tables(data_dir@, newest_first(file_views(files@))),
                dir: data_dir@,
                next_id: next_table_id(file_views(files@)),
            }),
            r.1 < journal@.len() ==> mem_apply(r.0@.memtable, memtable_size, journal@[r.1 as int]@)
                is None,
            mem_replay(entry_views(journal@), memtable_size) is Some ==> r.1 == journal@.len(),
            files@.len() == 0 && journal@.len() == 0 ==> r.0@ == (EngineView {
                memtable: Seq::empty(),
                limit: memtable_size,
                tables: Seq::empty(),
                dir: data_dir@,
                next_id: 1,
            }),
    {
        let mut engine = LSMEngine::open(data_dir, memtable_size, files);
        let done = engine.replay_journal(journal);
        proof {
            if files@.len() == 0 && journal@.len() == 0 {
                assert(file_views(files@) =~= Seq::<FileView>::empty());
                assert(lazy_tables(data_dir@, Seq::<FileView>::empty()) =~= Seq::<TableView>::empty());
                assert(entry_views(journal@).subrange(0, 0) =~= Seq::<LogEntryView>::empty());
            }
        }
        (engine, done)
    }

    /// Turns the memtable into a sorted table now, if it holds anything.
    pub fn flush(&mut self) -> (r: Result<Vec<Effect>, EngineError>)
        requires
            old(self).wf(),
        ensures
            final(self).wf(),
            match r {
                Ok(effects) => flushed(old(self)@, final(self)@, effect_views(effects@)),
                Err(e) => final(self)@ == old(self)@ && roll_refusal(old(self)@, e),
            },
            tables_bounded(old(self)@, final(self)@),
    {
        self.roll()
    }

    /// The newest record under `id`: the memtable's, else the first hit in
    /// the tables from newest to oldest.
    pub fn get(&self, id: u64) -> (r: Result<Option<Record>, EngineError>)
        requires
            self.wf(),
        ensures
            match r {
                Ok(Some(record)) => probe(self@, id) == Ok::<Option<RecordView>, int>(Some(record@)),
                Ok(None) => probe(self@, id) == Ok::<Option<RecordView>, int>(None),
                Err(EngineError::NotLoaded(i)) => probe(self@, id) == Err::<Option<RecordView>, int>(
                    i as int,
                ),
                Err(_) => false,
            },
    {
        if let Some(record) = self.memtable.get(id) {
            return Ok(Some(record.clone()));
        }
        let ghost tables = self@.tables;
        let mut i: usize = 0;
        while i < self.sstables.len()
            invariant
                i <= self.sstables@.len(),
                self.wf(),
                tables == self@.tables,
                probe(self@, id) == probe_tables(tables, id, i as int),
            decreases self.sstables@.len() - i,
        {
            proof {
                assert(tables[i as int] == table_view(self.sstables@[i as int]));
                assert(self.sstables@[i as int].wf());
            }
            match self.sstables[i].get(id) {
                Ok(Some(record)) => {
                    return Ok(Some(record.clone()));
                },
                Ok(None) => {},
                Err(_) => {
                    return Err(EngineError::NotLoaded(i));
                },
            }
            i += 1;
        }
        Ok(None)
    }

    /// Counts of what the engine holds. The total counts a key once for each
    /// table that has it.
    pub fn stats(&self) -> (r: Result<EngineStats, EngineError>)
        ensures
            match r {
                Ok(stats) => first_unloaded(self@.tables, 0) is None && stats.memtable_size
                    == self@.memtable.len() && stats.sstable_count == self@.tables.len()
                    && stats.total_records == if self@.memtable.len() + records_in(self@.tables, 0)
                    <= usize::MAX {
                    (self@.memtable.len() + records_in(self@.tables, 0)) as usize
                } else {
                    usize::MAX
                },
                Err(EngineError::NotLoaded(i)) => first_unloaded(self@.tables, 0) == Some(i as int),
                Err(_) => false,
            },
    {
        let ghost tables = self@.tables;
        let mut k: usize = 0;
        while k < self.sstables.len()
            invariant
                k <= self.sstables@.len(),
                tables == self@.tables,
                first_unloaded(tables, 0) == first_unloaded(tables, k as int),
                forall|j: int| 0 <= j < k ==> (#[trigger] tables[j]).loaded,
            decreases self.sstables@.len() - k,
        {
            proof {
                assert(tables[k as int] == table_view(self.sstables@[k as int]));
            }
            if !self.sstables[k].is_loaded() {
                return Err(EngineError::NotLoaded(k));
            }
            k += 1;
        }
        let mut total: usize = 0;
        let mut i: usize = self.sstables.len();
        while i > 0
            invariant
                i <= self.sstables@.len(),
                tables == self@.tables,
                forall|j: int| 0 <= j < tables.len() ==> (#[trigger] tables[j]).loaded,
                total == if records_in(tables, i as int) <= usize::MAX {
                    records_in(tables, i as int) as usize
                } else {
                    usize::MAX
                },
            decreases i,
        {
            i -= 1;
            proof {
                assert(tables[i as int] == table_view(self.sstables@[i as int]));
            }
            match self.sstables[i].size() {
                Ok(n) => {
                    total = total.saturating_add(n);
                },
                Err(_) => {
                    proof {
                        assert(tables[i as int].loaded);
                    }
                },
            }
        }
        Ok(
            EngineStats {
                memtable_size: self.memtable.size(),
                sstable_count: self.sstables.len(),
                total_records: total.saturating_add(self.memtable.size()),
            },
        )
    }

    /// Every live record once, by rising key: for each key what `get` finds.
    pub fn get_all_records(&self) -> (r: Result<Vec<Record>, EngineError>)
        requires
            self.wf(),
        ensures
            match r {
                Ok(records) => first_unloaded(self@.tables, 0) is None && ascending(views(records@))
                    && forall|id: u64|
                    Ok::<Option<RecordView>, int>(#[trigger] lookup(views(records@), id)) == probe(
                        self@,
                        id,
                    ),
                Err(EngineError::NotLoaded(i)) => first_unloaded(self@.tables, 0) == Some(i as int),
                Err(_) => false,
            },
    {
        let ghost tables = self@.tables;
        let mut k: usize = 0;
        while k < self.sstables.len()
            invariant
                k <= self.sstables@.len(),
                tables == self@.tables,
                first_unloaded(tables, 0) == first_unloaded(tables, k as int),
                forall|j: int| 0 <= j < k ==> (#[trigger] tables[j]).loaded,
            decreases self.sstables@.len() - k,
        {
            proof {
                assert(tables[k as int] == table_view(self.sstables@[k as int]));
            }
            if !self.sstables[k].is_loaded() {
                return Err(EngineError::NotLoaded(k));
            }
            k += 1;
        }
        let mut all: Vec<Record> = Vec::new();
        let mut i: usize = self.sstables.len();
        proof {
            assert(views(all@) =~= Seq::<RecordView>::empty());
        }
        while i > 0
            invariant
                i <= self.sstables@.len(),
                self.wf(),
                tables == self@.tables,
                forall|j: int| 0 <= j < tables.len() ==> (#[trigger] tables[j]).loaded,
                ascending(views(all@)),
                forall|id: u64|
                    Ok::<Option<RecordView>, int>(#[trigger] lookup(views(all@), id)) == probe_tables(
                        tables,
                        id,
                        i as int,
                    ),
            decreases i,
        {
            i -= 1;
            let table = &self.sstables[i];
            proof {
                assert(tables[i as int] == table_view(self.sstables@[i as int]));
                assert(self.sstables@[i as int].wf());
                table.lemma_wf();
            }
            let ghost older = views(all@);
            all = merge_records(&all, table.records());
            proof {
                assert forall|id: u64|
                    Ok::<Option<RecordView>, int>(#[trigger] lookup(views(all@), id)) == probe_tables(
                        tables,
                        id,
                        i as int,
                    ) by {
                    assert(lookup(views(all@), id) == overlay(older, table@, id));
                    assert(Ok::<Option<RecordView>, int>(lookup(older, id)) == probe_tables(
                        tables,
                        id,
                        i + 1,
                    ));
                }
            }
        }
        let newest = sort_records(self.memtable.as_block().as_records());
        proof {
            self.memtable.lemma_wf();
        }
        let ghost older = views(all@);
        let merged = merge_records(&all, &newest);
        proof {
            assert forall|id: u64|
                Ok::<Option<RecordView>, int>(#[trigger] lookup(views(merged@), id)) == probe(
                    self@,
                    id,
                ) by {
                assert(lookup(views(merged@), id) == overlay(older, views(newest@), id));
                assert(lookup(views(newest@), id) == lookup_last(self@.memtable, id));
                lemma_distinct_last(self@.memtable, id);
                assert(Ok::<Option<RecordView>, int>(lookup(older, id)) == probe_tables(tables, id, 0));
                lemma_same_keys(views(newest@), self@.memtable, id);
            }
        }
        Ok(merged)
    }
}

/// Runs that answer a lookup alike have the key or lack it alike.
proof fn lemma_same_keys(a: Seq<RecordView>, b: Seq<RecordView>, id: u64)
    requires
        lookup(a, id) == lookup(b, id),
    ensures
        has_id(a, id) == has_id(b, id),
{
}

} // verus!
