//! The sorted table: an immutable run of records in key order, kept in one
//! file and read into memory on first use.

use vstd::prelude::*;
use super::block::{bincode_image, bincode_pairs, has_id, lookup, pairs_of, Block};
use super::error::TableError;
use super::record::{Record, RecordView};
use super::sorted::{
    ascending, lemma_ascending_distinct, lemma_lookup_distinct, lookup_last, merge_records, overlay,
    sort_records, views,
};

verus! {

/// The records that a list of pairs stands for.
pub open spec fn records_of(pairs: Seq<(u64, Seq<u8>)>) -> Seq<RecordView> {
    pairs.map_values(|p: (u64, Seq<u8>)| RecordView { id: p.0, data: p.1 })
}

/// The table that a file with these bytes holds: the records read from it,
/// where they can be read and are in key order.
pub open spec fn table_image(bytes: Seq<u8>) -> Option<Seq<RecordView>> {
    match bincode_pairs(bytes) {
        Some(pairs) => if ascending(records_of(pairs)) {
            Some(records_of(pairs))
        } else {
            None
        },
        None => None,
    }
}

/// The records of `s` whose keys lie from `lo` to `hi`, both included.
pub open spec fn within(s: Seq<RecordView>, lo: u64, hi: u64) -> Seq<RecordView> {
    s.filter(|r: RecordView| lo <= r.id && r.id <= hi)
}

/// Reading the pairs of some records gives the records back.
pub proof fn lemma_records_of_pairs(s: Seq<RecordView>)
    ensures
        records_of(pairs_of(s)) == s,
{
    assert(records_of(pairs_of(s)) =~= s);
}

/// A run of records in key order, with the path of its file.
pub struct SSTable {
    block: Block,
    file_path: String,
    is_loaded: bool,
}

impl View for SSTable {
    type V = Seq<RecordView>;

    closed spec fn view(&self) -> Seq<RecordView> {
        self.block@
    }
}

/// The place of the record with the key `id` in a run in key order.
fn search(records: &Vec<Record>, id: u64) -> (r: Option<usize>)
    requires
        ascending(views(records@)),
    ensures
        match r {
            Some(i) => i < records@.len() && records@[i as int].id == id,
            None => !has_id(views(records@), id),
        },
{
    let mut lo: usize = 0;
    let mut hi: usize = records.len();
    while lo < hi
        invariant
            lo <= hi <= records@.len(),
            ascending(views(records@)),
            forall|k: int| 0 <= k < lo ==> (#[trigger] views(records@)[k]).id < id,
            forall|k: int| hi <= k < records@.len() ==> (#[trigger] views(records@)[k]).id > id,
        decreases hi - lo,
    {
        let mid = lo + (hi - lo) / 2;
        let key = records[mid].id;
        assert(views(records@)[mid as int].id == key);
        if key == id {
            return Some(mid);
        } else if key < id {
            assert forall|k: int| 0 <= k < mid + 1 implies (#[trigger] views(records@)[k]).id < id by {
                if k < mid {
                    assert(views(records@)[k].id < views(records@)[mid as int].id);
                }
            }
            lo = mid + 1;
        } else {
            assert forall|k: int| mid <= k < records@.len() implies (#[trigger] views(
                records@,
            )[k]).id > id by {
                if k > mid {
                    assert(views(records@)[mid as int].id < views(records@)[k].id);
                }
            }
            hi = mid;
        }
    }
    None
}

/// Whether the keys rise strictly from one record to the next.
fn in_key_order(records: &Vec<Record>) -> (r: bool)
    ensures
        r == ascending(views(records@)),
{
    let ghost s = views(records@);
    let mut i: usize = 1;
    while i < records.len()
        invariant
            1 <= i,
            s == views(records@),
            forall|a: int, b: int|
                0 <= a < b < i && b < s.len() ==> (#[trigger] s[a]).id < (#[trigger] s[b]).id,
        decreases records@.len() - i,
    {
        if records[i - 1].id >= records[i].id {
            proof {
                assert(s[i - 1].id >= s[i as int].id);
            }
            return false;
        }
        proof {
            assert forall|a: int, b: int| 0 <= a < b < i + 1 && b < s.len() implies (#[trigger] s[a]).id
                < (#[trigger] s[b]).id by {
                if b == i {
                    assert(s[i - 1].id < s[i as int].id);
                    if a < i - 1 {
                        assert(s[a].id < s[i - 1].id);
                    }
                }
            }
        }
        i += 1;
    }
    true
}

impl SSTable {
    /// Whether the records are in key order, and none is held before the
    /// file has been read.
    pub closed spec fn wf(&self) -> bool {
        &&& ascending(self.block@)
        &&& !self.is_loaded ==> self.block@.len() == 0
    }

    /// Whether the file's records are in memory.
    pub closed spec fn loaded(&self) -> bool {
        self.is_loaded
    }

    /// The path of the table's file.
    pub closed spec fn path(&self) -> Seq<char> {
        self.file_path@
    }

    /// What a well-formed table holds.
    pub proof fn lemma_wf(&self)
        requires
            self.wf(),
        ensures
            ascending(self@),
            !self.loaded() ==> self@.len() == 0,
    {
    }

    /// The table of the records of `block`: by rising key, each key once with
    /// the payload of its last occurrence. Its file is to hold `to_bytes()`.
    pub fn create_from_block(block: Block, file_path: &str) -> (r: SSTable)
        ensures
            r.wf(),
            r.loaded(),
            r.path() == file_path@,
            forall|id: u64| #[trigger] lookup(r@, id) == lookup_last(block@, id),
    {
        let sorted = sort_records(block.as_records());
        SSTable { block: Block::from_records(sorted), file_path: file_path.to_owned(), is_loaded: true }
    }

    /// The table whose file at `file_path` holds `bytes`.
    pub fn load_from_disk(file_path: &str, bytes: &[u8]) -> (r: Result<SSTable, TableError>)
        ensures
            match r {
                Ok(table) => table.wf() && table.loaded() && table.path() == file_path@
                    && table_image(bytes@) == Some(table@),
                Err(e) => e == TableError::Corrupt && table_image(bytes@) is None,
            },
    {
        let mut table = SSTable::new_lazy(file_path);
        match table.load(bytes) {
            Ok(()) => Ok(table),
            Err(e) => Err(e),
        }
    }

    /// A table whose file at `file_path` has not been read yet.
    pub fn new_lazy(file_path: &str) -> (r: SSTable)
        ensures
            r.wf(),
            !r.loaded(),
            r.path() == file_path@,
            r@ == Seq::<RecordView>::empty(),
    {
        SSTable { block: Block::new(), file_path: file_path.to_owned(), is_loaded: false }
    }

    /// The records in memory, by rising key, where they lie.
    pub fn records(&self) -> (r: &Vec<Record>)
        ensures
            views(r@) == self@,
    {
        self.block.as_records()
    }

    pub fn is_loaded(&self) -> (r: bool)
        ensures
            r == self.loaded(),
    {
        self.is_loaded
    }

    /// Takes the bytes of the table's file, unless the table is in memory
    /// already. Bytes that hold no run of records in key order are refused.
    pub fn load(&mut self, bytes: &[u8]) -> (r: Result<(), TableError>)
        requires
            old(self).wf(),
        ensures
            final(self).wf(),
            final(self).path() == old(self).path(),
            old(self).loaded() ==> r is Ok && final(self).loaded() && final(self)@ == old(self)@,
            !old(self).loaded() ==> match r {
                Ok(_) => final(self).loaded() && table_image(bytes@) == Some(final(self)@),
                Err(e) => e == TableError::Corrupt && table_image(bytes@) is None
                    && !final(self).loaded() && final(self)@ == old(self)@,
            },
    {
        if self.is_loaded {
            return Ok(());
        }
        match Block::from_bytes(bytes) {
            Ok(block) => {
                proof {
                    lemma_records_of_pairs(block@);
                }
                if !in_key_order(block.as_records()) {
                    return Err(TableError::Corrupt);
                }
                self.block = block;
                self.is_loaded = true;
                Ok(())
            },
            Err(_) => Err(TableError::Corrupt),
        }
    }

    /// The table as the bytes of its file.
    pub fn to_bytes(&self) -> (r: Result<Vec<u8>, TableError>)
        requires
            self.wf(),
        ensures
            match r {
                Ok(bytes) => self.loaded() && bincode_image(pairs_of(self@)) == Some(bytes@)
                    && table_image(bytes@) == Some(self@),
                Err(e) => !self.loaded() && e == TableError::NotLoaded,
            },
    {
        if !self.is_loaded {
            return Err(TableError::NotLoaded);
        }
        proof {
            lemma_records_of_pairs(self@);
        }
        self.block.to_bytes()
    }

    /// The record under `id`, by binary search.
    pub fn get(&self, id: u64) -> (r: Result<Option<&Record>, TableError>)
        requires
            self.wf(),
        ensures
            match r {
                Ok(Some(record)) => self.loaded() && lookup(self@, id) == Some(record@),
                Ok(None) => self.loaded() && lookup(self@, id) is None,
                Err(e) => e == TableError::NotLoaded && !self.loaded(),
            },
    {
        if !self.is_loaded {
            return Err(TableError::NotLoaded);
        }
        let records = self.block.as_records();
        match search(records, id) {
            Some(i) => {
                proof {
                    lemma_ascending_distinct(self@);
                    assert(self@[i as int] == records@[i as int]@);
                    lemma_lookup_distinct(self@, i as int);
                }
                Ok(Some(&records[i]))
            },
            None => Ok(None),
        }
    }

    /// All records, by rising key.
    pub fn get_all(&self) -> (r: Result<Vec<&Record>, TableError>)
        ensures
            match r {
                Ok(all) => self.loaded() && all@.len() == self@.len() && forall|i: int|
                    0 <= i < all@.len() ==> (#[trigger] all@[i])@ == self@[i],
                Err(e) => e == TableError::NotLoaded && !self.loaded(),
            },
    {
        if !self.is_loaded {
            return Err(TableError::NotLoaded);
        }
        Ok(self.block.get_all())
    }

    /// The records with keys from `start_id` to `end_id`, both included, by
    /// rising key.
    pub fn get_range(&self, start_id: u64, end_id: u64) -> (r: Result<Vec<&Record>, TableError>)
        requires
            self.wf(),
        ensures
            match r {
                Ok(found) => self.loaded() && found@.map_values(|x: &Record| x@) == within(
                    self@,
                    start_id,
                    end_id,
                ),
                Err(e) => e == TableError::NotLoaded && !self.loaded(),
            },
    {
        if !self.is_loaded {
            return Err(TableError::NotLoaded);
        }
        let records = self.block.as_records();
        let mut result: Vec<&Record> = Vec::new();
        let mut i: usize = 0;
        let ghost s = self@;
        proof {
            assert(s.subrange(0, 0) =~= Seq::<RecordView>::empty());
            assert(result@.map_values(|x: &Record| x@) =~= within(s.subrange(0, 0), start_id, end_id));
        }
        while i < records.len()
            invariant
                i <= records@.len(),
                self.loaded(),
                s == self@,
                views(records@) == s,
                ascending(s),
                result@.map_values(|x: &Record| x@) == within(
                    s.subrange(0, i as int),
                    start_id,
                    end_id,
                ),
            decreases records@.len() - i,
        {
            let record = &records[i];
            proof {
                assert(record@ == s[i as int]);
                assert(s.subrange(0, i + 1) =~= s.subrange(0, i as int).push(s[i as int]));
                lemma_within_push(s.subrange(0, i as int), s[i as int], start_id, end_id);
            }
            if record.id >= start_id && record.id <= end_id {
                let ghost before = result@.map_values(|x: &Record| x@);
                result.push(record);
                proof {
                    assert(result@.map_values(|x: &Record| x@) =~= before.push(record@));
                }
            } else if record.id > end_id {
                proof {
                    lemma_within_tail(s, i as int, start_id, end_id);
                }
                return Ok(result);
            }
            i += 1;
        }
        proof {
            assert(s.subrange(0, i as int) =~= s);
        }
        Ok(result)
    }

    pub fn is_empty(&self) -> (r: Result<bool, TableError>)
        ensures
            match r {
                Ok(b) => self.loaded() && b == (self@.len() == 0),
                Err(e) => e == TableError::NotLoaded && !self.loaded(),
            },
    {
        if !self.is_loaded {
            return Err(TableError::NotLoaded);
        }
        Ok(self.block.is_empty())
    }

    pub fn size(&self) -> (r: Result<usize, TableError>)
        ensures
            match r {
                Ok(n) => self.loaded() && n == self@.len(),
                Err(e) => e == TableError::NotLoaded && !self.loaded(),
            },
    {
        if !self.is_loaded {
            return Err(TableError::NotLoaded);
        }
        Ok(self.block.count())
    }

    pub fn file_path(&self) -> (r: &str)
        ensures
            r@ == self.path(),
    {
        self.file_path.as_str()
    }

    /// Whether the table has a record under `id`.
    pub fn contains(&self, id: u64) -> (r: Result<bool, TableError>)
        requires
            self.wf(),
        ensures
            match r {
                Ok(b) => self.loaded() && b == has_id(self@, id),
                Err(e) => e == TableError::NotLoaded && !self.loaded(),
            },
    {
        if !self.is_loaded {
            return Err(TableError::NotLoaded);
        }
        match search(self.block.as_records(), id) {
            Some(i) => {
                proof {
                    assert(self@[i as int].id == id);
                }
                Ok(true)
            },
            None => Ok(false),
        }
    }

    /// The table of every key of this table and of `other`, with the payload
    /// of `other` where both have the key. Neither table changes.
    pub fn merge_with(&self, other: &SSTable, output_path: &str) -> (r: Result<SSTable, TableError>)
        requires
            self.wf(),
            other.wf(),
        ensures
            match r {
                Ok(merged) => self.loaded() && other.loaded() && merged.wf() && merged.loaded()
                    && merged.path() == output_path@ && forall|id: u64| #[trigger]
                    lookup(merged@, id) == overlay(self@, other@, id),
                Err(e) => e == TableError::NotLoaded && !(self.loaded() && other.loaded()),
            },
    {
        if !self.is_loaded || !other.is_loaded {
            return Err(TableError::NotLoaded);
        }
        let merged = merge_records(self.block.as_records(), other.block.as_records());
        Ok(
            SSTable {
                block: Block::from_records(merged),
                file_path: output_path.to_owned(),
                is_loaded: true,
            },
        )
    }
}

/// What `within` keeps of a run that has one record more.
proof fn lemma_within_push(s: Seq<RecordView>, r: RecordView, lo: u64, hi: u64)
    ensures
        within(s.push(r), lo, hi) == if lo <= r.id && r.id <= hi {
            within(s, lo, hi).push(r)
        } else {
            within(s, lo, hi)
        },
{
    let t = s.push(r);
    assert(t.drop_last() =~= s);
    assert(t.last() == r);
    reveal_with_fuel(Seq::filter, 2);
}

/// Past the first key above `hi`, a run in key order holds nothing up to `hi`.
proof fn lemma_within_tail(s: Seq<RecordView>, i: int, lo: u64, hi: u64)
    requires
        ascending(s),
        0 <= i < s.len(),
        s[i].id > hi,
    ensures
        within(s, lo, hi) == within(s.subrange(0, i), lo, hi),
    decreases s.len() - i,
{
    assert(s =~= s.drop_last().push(s.last()));
    lemma_within_push(s.drop_last(), s.last(), lo, hi);
    if i == s.len() - 1 {
        assert(s.drop_last() =~= s.subrange(0, i));
    } else {
        let t = s.drop_last();
        assert forall|a: int, b: int| 0 <= a < b < t.len() implies #[trigger] t[a].id
            < #[trigger] t[b].id by {
            assert(s[a].id < s[b].id);
        }
        assert(s[i].id < s[s.len() - 1].id);
        lemma_within_tail(t, i, lo, hi);
        assert(t.subrange(0, i) =~= s.subrange(0, i));
    }
}

} // verus!
