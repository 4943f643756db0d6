//! The memtable: the bounded buffer that takes the newest writes.

use vstd::prelude::*;
use super::block::{Block, distinct_ids, has_id, lookup, position, first_at, lemma_first_at, lemma_has_first};
use super::record::{Record, RecordView};

verus! {

/// A bounded buffer of records with no key twice.
pub struct MemTable {
    data: Block,
    max_size: usize,
}

impl View for MemTable {
    type V = Seq<RecordView>;

    closed spec fn view(&self) -> Seq<RecordView> {
        self.data@
    }
}

impl MemTable {
    /// The most records that the buffer takes.
    pub closed spec fn limit(&self) -> usize {
        self.max_size
    }

    /// Whether the buffer is within its bound and holds no key twice.
    pub closed spec fn wf(&self) -> bool {
        &&& self.data@.len() <= self.max_size
        &&& distinct_ids(self.data@)
    }

    /// What a well-formed memtable holds.
    pub proof fn lemma_wf(&self)
        requires
            self.wf(),
        ensures
            self@.len() <= self.limit(),
            distinct_ids(self@),
    {
    }

    pub fn new(max_size: usize) -> (r: Self)
        ensures
            r.wf(),
            r@ == Seq::<RecordView>::empty(),
            r.limit() == max_size,
    {
        Self { data: Block::new(), max_size }
    }

    /// Takes `record` if there is room and its key is new; says whether it did.
    pub fn insert(&mut self, record: Record) -> (ok: bool)
        requires
            old(self).wf(),
        ensures
            final(self).wf(),
            final(self).limit() == old(self).limit(),
            ok == (old(self)@.len() < old(self).limit() && !has_id(old(self)@, record.id)),
            ok ==> final(self)@ == old(self)@.push(record@),
            !ok ==> final(self)@ == old(self)@,
    {
        if self.is_full() {
            return false;
        }
        let ghost before = self.data@;
        let ghost added = record@;
        let ok = self.data.insert(record);
        proof {
            if ok {
                assert forall|i: int, j: int| 0 <= i < j < self.data@.len() implies
                    #[trigger] self.data@[i].id != #[trigger] self.data@[j].id by {
                    if j == before.len() {
                        assert(before[i].id != added.id);
                    } else {
                        assert(before[i].id != before[j].id);
                    }
                }
            }
        }
        ok
    }

    pub fn get(&self, id: u64) -> (r: Option<&Record>)
        ensures
            match r {
                Some(record) => lookup(self@, id) == Some(record@),
                None => lookup(self@, id) is None,
            },
    {
        self.data.get(id)
    }

    /// Replaces the payload under `id`; says whether the key was there.
    pub fn update(&mut self, id: u64, new_data: Vec<u8>) -> (ok: bool)
        requires
            old(self).wf(),
        ensures
            final(self).wf(),
            final(self).limit() == old(self).limit(),
            ok == has_id(old(self)@, id),
            ok ==> final(self)@ == old(self)@.update(
                position(old(self)@, id),
                RecordView { id, data: new_data@ },
            ),
            !ok ==> final(self)@ == old(self)@,
    {
        let ghost before = self.data@;
        let ok = self.data.update(id, new_data);
        proof {
            if ok {
                lemma_has_first(before, id);
                assert forall|i: int, j: int| 0 <= i < j < self.data@.len() implies
                    #[trigger] self.data@[i].id != #[trigger] self.data@[j].id by {
                    assert(before[i].id != before[j].id);
                }
            }
        }
        ok
    }

    /// Removes the record under `id`; says whether the key was there.
    pub fn delete(&mut self, id: u64) -> (ok: bool)
        requires
            old(self).wf(),
        ensures
            final(self).wf(),
            final(self).limit() == old(self).limit(),
            ok == has_id(old(self)@, id),
            ok ==> final(self)@ == old(self)@.remove(position(old(self)@, id)),
            !ok ==> final(self)@ == old(self)@,
    {
        let ghost before = self.data@;
        let ok = self.data.delete(id);
        proof {
            if ok {
                lemma_has_first(before, id);
                let p = position(before, id);
                assert forall|i: int, j: int| 0 <= i < j < self.data@.len() implies
                    #[trigger] self.data@[i].id != #[trigger] self.data@[j].id by {
                    let a = if i < p { i } else { i + 1 };
                    let b = if j < p { j } else { j + 1 };
                    assert(before[a].id != before[b].id);
                }
            }
        }
        ok
    }

    /// The records, in insertion order, where they lie.
    pub fn as_block(&self) -> (r: &Block)
        ensures
            r@ == self@,
    {
        &self.data
    }

    pub fn is_full(&self) -> (r: bool)
        ensures
            r == (self@.len() >= self.limit()),
    {
        self.data.count() >= self.max_size
    }

    pub fn is_empty(&self) -> (r: bool)
        ensures
            r == (self@.len() == 0),
    {
        self.data.is_empty()
    }

    /// Hands out the records in their order and leaves the buffer empty.
    pub fn flush_to_block(&mut self) -> (r: Block)
        requires
            old(self).wf(),
        ensures
            final(self).wf(),
            final(self).limit() == old(self).limit(),
            r@ == old(self)@,
            final(self)@ == Seq::<RecordView>::empty(),
    {
        let mut block = Block::new();
        std::mem::swap(&mut self.data, &mut block);
        block
    }

    pub fn clear(&mut self)
        requires
            old(self).wf(),
        ensures
            final(self).wf(),
            final(self).limit() == old(self).limit(),
            final(self)@ == Seq::<RecordView>::empty(),
    {
        self.data.clear();
    }

    pub fn size(&self) -> (r: usize)
        ensures
            r == self@.len(),
    {
        self.data.count()
    }

    /// The records by rising key.
    pub fn get_sorted_records(&self) -> (r: Vec<&Record>)
        requires
            self.wf(),
        ensures
            r@.len() == self@.len(),
            forall|i: int, j: int| 0 <= i < j < r@.len() ==> (#[trigger] r@[i]).id < (#[trigger] r@[j]).id,
            forall|i: int| 0 <= i < r@.len() ==> lookup(self@, (#[trigger] r@[i]).id) == Some(r@[i]@),
    {
        let all = self.data.get_all();
        let mut out: Vec<&Record> = Vec::new();
        let mut k: usize = 0;
        while k < all.len()
            invariant
                k <= all@.len(),
                all@.len() == self@.len(),
                forall|i: int| 0 <= i < all@.len() ==> (#[trigger] all@[i])@ == self@[i],
                distinct_ids(self@),
                out@.len() == k,
                forall|i: int, j: int| 0 <= i < j < out@.len() ==> (#[trigger] out@[i]).id < (#[trigger] out@[j]).id,
                forall|i: int| 0 <= i < out@.len() ==> exists|m: int| 0 <= m < k && all@[m] == #[trigger] out@[i],
            decreases all@.len() - k,
        {
            let item = all[k];
            let mut p: usize = 0;
            while p < out.len() && out[p].id < item.id
                invariant
                    p <= out@.len(),
                    forall|i: int| 0 <= i < p ==> (#[trigger] out@[i]).id < item.id,
                decreases out@.len() - p,
            {
                p += 1;
            }
            proof {
                if p < out@.len() {
                    let m = choose|m: int| 0 <= m < k && all@[m] == out@[p as int];
                    assert(self@[m].id != self@[k as int].id);
                    assert(all@[m]@ == self@[m]);
                    assert(all@[k as int]@ == self@[k as int]);
                }
            }
            let ghost before = out@;
            out.insert(p, item);
            proof {
                assert forall|i: int, j: int| 0 <= i < j < out@.len() implies
                    (#[trigger] out@[i]).id < (#[trigger] out@[j]).id by {
                    let a = if i < p { i } else { i - 1 };
                    let b = if j < p { j } else { j - 1 };
                    if i == p {
                        assert(before[b].id >= before[p as int].id);
                    } else if j == p {
                    } else {
                        assert(before[a].id < before[b].id);
                    }
                }
                assert forall|i: int| 0 <= i < out@.len() implies exists|m: int|
                    0 <= m < k + 1 && all@[m] == #[trigger] out@[i] by {
                    if i == p {
                        assert(all@[k as int] == out@[i]);
                    } else {
                        let a = if i < p { i } else { i - 1 };
                        let m = choose|m: int| 0 <= m < k && all@[m] == before[a];
                        assert(all@[m] == out@[i]);
                    }
                }
            }
            k += 1;
        }
        proof {
            assert forall|i: int| 0 <= i < out@.len() implies lookup(self@, (#[trigger] out@[i]).id)
                == Some(out@[i]@) by {
                let m = choose|m: int| 0 <= m < k && all@[m] == out@[i];
                assert(all@[m]@ == self@[m]);
                assert forall|j: int| 0 <= j < m implies #[trigger] self@[j].id != out@[i].id by {
                    assert(self@[j].id != self@[m].id);
                }
                assert(first_at(self@, out@[i].id, m));
                lemma_first_at(self@, out@[i].id, m);
            }
        }
        out
    }
}

} // verus!
