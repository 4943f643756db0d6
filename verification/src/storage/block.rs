//! The block: an ordered run of records held in memory.

use vstd::prelude::*;
use vstd::std_specs::cmp::PartialEqSpecImpl;
use super::error::TableError;
use super::record::{Record, RecordView};

verus! {

/// The failure that `bincode` reports; nothing is read from it.
#[verifier::external_type_specification]
#[verifier::external_body]
pub struct ExBincodeErrorKind(bincode::ErrorKind);

/// The bytes that `bincode::serialize` gives for a list of key and payload
/// pairs, where it gives any.
pub uninterp spec fn bincode_image(pairs: Seq<(u64, Seq<u8>)>) -> Option<Seq<u8>>;

/// The list of key and payload pairs that `bincode::deserialize` reads from
/// `bytes`, where it reads one.
pub uninterp spec fn bincode_pairs(bytes: Seq<u8>) -> Option<Seq<(u64, Seq<u8>)>>;

/// Calls `bincode::serialize` on the pairs. The contract names the bytes that
/// come back, and claims of them that `bincode::deserialize` reads the same
/// pairs from them: the round trip that the format is made for. It also
/// claims that bytes do come back: the call sets no limit on the size, a
/// list knows its length, and writing to a vector in memory does not fail,
/// so `bincode` has no failure to report for a list of such pairs.
#[verifier::external_body]
fn serialize_pairs(pairs: &Vec<(u64, Vec<u8>)>) -> (r: Result<Vec<u8>, Box<bincode::ErrorKind>>)
    ensures
        match r {
            Ok(bytes) => bincode_image(pairs.deep_view()) == Some(bytes@) && bincode_pairs(bytes@)
                == Some(pairs.deep_view()),
            Err(_) => false,
        },
{
    bincode::serialize(pairs)
}

/// Calls `bincode::deserialize` for a list of key and payload pairs. The
/// contract names what comes back; bytes after the list are not looked at.
#[verifier::external_body]
fn deserialize_pairs(bytes: &[u8]) -> (r: Result<Vec<(u64, Vec<u8>)>, Box<bincode::ErrorKind>>)
    ensures
        match r {
            Ok(pairs) => bincode_pairs(bytes@) == Some(pairs.deep_view()),
            Err(_) => bincode_pairs(bytes@) is None,
        },
{
    bincode::deserialize(bytes)
}

/// The records as the pairs that are written to disk.
pub open spec fn pairs_of(s: Seq<RecordView>) -> Seq<(u64, Seq<u8>)> {
    s.map_values(|r: RecordView| (r.id, r.data))
}

/// The bytes of a block hold the block: what is read from the bytes that a
/// block was put into is that block.
pub proof fn block_image_is_faithful(bytes: Seq<u8>, written: Seq<RecordView>, read: Seq<RecordView>)
    requires
        bincode_pairs(bytes) == Some(pairs_of(written)),
        bincode_pairs(bytes) == Some(pairs_of(read)),
    ensures
        read == written,
{
    assert(written.len() == pairs_of(written).len());
    assert(read.len() == pairs_of(read).len());
    assert forall|i: int| 0 <= i < read.len() implies read[i] == written[i] by {
        assert(pairs_of(read)[i] == pairs_of(written)[i]);
    }
    assert(read =~= written);
}

/// Whether some record of `s` has the key `id`.
pub open spec fn has_id(s: Seq<RecordView>, id: u64) -> bool {
    exists|i: int| 0 <= i < s.len() && #[trigger] s[i].id == id
}

/// Whether `i` is the place of the first record of `s` with the key `id`.
pub open spec fn first_at(s: Seq<RecordView>, id: u64, i: int) -> bool {
    &&& 0 <= i < s.len()
    &&& s[i].id == id
    &&& forall|j: int| 0 <= j < i ==> #[trigger] s[j].id != id
}

/// The place of the first record of `s` with the key `id`, where there is one.
pub open spec fn position(s: Seq<RecordView>, id: u64) -> int {
    choose|i: int| first_at(s, id, i)
}

/// The first record of `s` with the key `id`.
pub open spec fn lookup(s: Seq<RecordView>, id: u64) -> Option<RecordView> {
    if has_id(s, id) {
        Some(s[position(s, id)])
    } else {
        None
    }
}

/// The payload `data` with the bytes from `offset` on overwritten by `patch`.
pub open spec fn patched(data: Seq<u8>, offset: int, patch: Seq<u8>) -> Seq<u8> {
    data.subrange(0, offset) + patch + data.subrange(offset + patch.len(), data.len() as int)
}

/// Whether no key occurs twice in `s`.
pub open spec fn distinct_ids(s: Seq<RecordView>) -> bool {
    forall|i: int, j: int| 0 <= i < j < s.len() ==> #[trigger] s[i].id != #[trigger] s[j].id
}

/// The first match is the only first match.
pub proof fn lemma_first_at(s: Seq<RecordView>, id: u64, i: int)
    requires
        first_at(s, id, i),
    ensures
        has_id(s, id),
        position(s, id) == i,
        lookup(s, id) == Some(s[i]),
{
    let p = position(s, id);
    assert(first_at(s, id, p));
    if p < i {
        assert(s[p].id != id);
    }
    if i < p {
        assert(s[i].id != id);
    }
}

/// A key that occurs has a first occurrence.
pub proof fn lemma_has_first(s: Seq<RecordView>, id: u64)
    requires
        has_id(s, id),
    ensures
        first_at(s, id, position(s, id)),
{
    let k = choose|i: int| 0 <= i < s.len() && #[trigger] s[i].id == id;
    lemma_first_upto(s, id, k);
}

proof fn lemma_first_upto(s: Seq<RecordView>, id: u64, k: int)
    requires
        0 <= k < s.len(),
        s[k].id == id,
    ensures
        exists|i: int| first_at(s, id, i),
    decreases k,
{
    if exists|j: int| 0 <= j < k && #[trigger] s[j].id == id {
        let j = choose|j: int| 0 <= j < k && #[trigger] s[j].id == id;
        lemma_first_upto(s, id, j);
    } else {
        assert(first_at(s, id, k));
    }
}

/// An ordered run of records.
pub struct Block {
    records: Vec<Record>,
}

impl View for Block {
    type V = Seq<RecordView>;

    closed spec fn view(&self) -> Seq<RecordView> {
        self.records@.map_values(|r: Record| r@)
    }
}

impl Block {
    pub fn new() -> (r: Self)
        ensures
            r@ == Seq::<RecordView>::empty(),
    {
        let r = Self { records: Vec::new() };
        assert(r@ =~= Seq::<RecordView>::empty());
        r
    }

    /// A block of the given records, in their order.
    pub fn from_records(records: Vec<Record>) -> (r: Self)
        ensures
            r@ == records@.map_values(|x: Record| x@),
    {
        Self { records }
    }

    /// The records, in their order, where they lie.
    pub fn as_records(&self) -> (r: &Vec<Record>)
        ensures
            self@ == r@.map_values(|x: Record| x@),
    {
        &self.records
    }

    /// The block as the bytes of its file.
    pub fn to_bytes(&self) -> (r: Result<Vec<u8>, TableError>)
        ensures
            match r {
                Ok(bytes) => bincode_image(pairs_of(self@)) == Some(bytes@) && bincode_pairs(bytes@)
                    == Some(pairs_of(self@)),
                Err(_) => false,
            },
    {
        let pairs = self.to_pairs();
        match serialize_pairs(&pairs) {
            Ok(bytes) => Ok(bytes),
            Err(_) => Err(TableError::Encoding),
        }
    }

    /// The block whose file holds `bytes`.
    pub fn from_bytes(bytes: &[u8]) -> (r: Result<Block, TableError>)
        ensures
            match r {
                Ok(block) => bincode_pairs(bytes@) == Some(pairs_of(block@)),
                Err(e) => e == TableError::Corrupt && bincode_pairs(bytes@) is None,
            },
    {
        match deserialize_pairs(bytes) {
            Ok(pairs) => Ok(Block::from_pairs(pairs)),
            Err(_) => Err(TableError::Corrupt),
        }
    }

    /// The records as pairs of key and payload, in their order.
    pub fn to_pairs(&self) -> (pairs: Vec<(u64, Vec<u8>)>)
        ensures
            pairs.deep_view() == pairs_of(self@),
    {
        let mut pairs: Vec<(u64, Vec<u8>)> = Vec::new();
        let mut i: usize = 0;
        while i < self.records.len()
            invariant
                i <= self.records@.len(),
                pairs@.len() == i,
                forall|j: int| 0 <= j < i ==> (#[trigger] pairs.deep_view()[j]) == pairs_of(self@)[j],
            decreases self.records@.len() - i,
        {
            let ghost before = pairs.deep_view();
            pairs.push((self.records[i].id, self.records[i].data.clone()));
            proof {
                assert forall|j: int| 0 <= j < i + 1 implies (#[trigger] pairs.deep_view()[j])
                    == pairs_of(self@)[j] by {
                    if j < i {
                        assert(pairs.deep_view()[j] == before[j]);
                    }
                }
            }
            i += 1;
        }
        assert(pairs.deep_view() =~= pairs_of(self@));
        pairs
    }

    /// The block of the records that the pairs of key and payload stand
    /// for, in their order.
    pub fn from_pairs(pairs: Vec<(u64, Vec<u8>)>) -> (block: Block)
        ensures
            pairs_of(block@) == pairs.deep_view(),
    {
        let mut records: Vec<Record> = Vec::new();
        let ghost all = pairs.deep_view();
        let ghost raw = pairs@;
        for pair in it: pairs
            invariant
                it.seq() == raw,
                all.len() == raw.len(),
                forall|j: int| 0 <= j < raw.len() ==> all[j] == (raw[j].0, raw[j].1@),
                records@.len() == it.index(),
                forall|j: int|
                    0 <= j < records@.len() ==> ((#[trigger] records@[j]).id, records@[j].data@)
                        == all[j],
        {
            records.push(Record { id: pair.0, data: pair.1 });
        }
        let block = Block { records };
        assert(pairs_of(block@) =~= all);
        block
    }

    /// The place of the first record with the key `id`.
    fn find(&self, id: u64) -> (r: Option<usize>)
        ensures
            match r {
                Some(i) => first_at(self@, id, i as int),
                None => !has_id(self@, id),
            },
    {
        let mut i: usize = 0;
        while i < self.records.len()
            invariant
                i <= self.records@.len(),
                forall|j: int| 0 <= j < i ==> #[trigger] self@[j].id != id,
            decreases self.records@.len() - i,
        {
            if self.records[i].id == id {
                return Some(i);
            }
            i += 1;
        }
        None
    }

    /// Appends `record` unless its key is already there; says whether it did.
    pub fn insert(&mut self, record: Record) -> (ok: bool)
        ensures
            ok == !has_id(old(self)@, record.id),
            ok ==> final(self)@ == old(self)@.push(record@),
            !ok ==> final(self)@ == old(self)@,
    {
        if self.find(record.id).is_some() {
            return false;
        }
        self.records.push(record);
        assert(self@ =~= old(self)@.push(record@));
        true
    }

    /// The first record with the key `id`.
    pub fn get(&self, id: u64) -> (r: Option<&Record>)
        ensures
            match r {
                Some(record) => lookup(self@, id) == Some(record@),
                None => lookup(self@, id) is None,
            },
    {
        match self.find(id) {
            Some(i) => {
                proof {
                    lemma_first_at(self@, id, i as int);
                }
                Some(&self.records[i])
            },
            None => None,
        }
    }

    /// The records, in insertion order.
    pub fn get_all(&self) -> (r: Vec<&Record>)
        ensures
            r@.len() == self@.len(),
            forall|i: int| 0 <= i < r@.len() ==> (#[trigger] r@[i])@ == self@[i],
    {
        let mut out: Vec<&Record> = Vec::new();
        let mut i: usize = 0;
        while i < self.records.len()
            invariant
                i <= self.records@.len(),
                out@.len() == i,
                forall|j: int| 0 <= j < i ==> (#[trigger] out@[j])@ == self@[j],
            decreases self.records@.len() - i,
        {
            out.push(&self.records[i]);
            i += 1;
        }
        out
    }

    pub fn is_empty(&self) -> (r: bool)
        ensures
            r == (self@.len() == 0),
    {
        self.records.len() == 0
    }

    /// Replaces the payload of the first record with the key `id`; says
    /// whether there was one.
    pub fn update(&mut self, id: u64, new_data: Vec<u8>) -> (ok: bool)
        ensures
            ok == has_id(old(self)@, id),
            ok ==> final(self)@ == old(self)@.update(
                position(old(self)@, id),
                RecordView { id, data: new_data@ },
            ),
            !ok ==> final(self)@ == old(self)@,
    {
        match self.find(id) {
            Some(i) => {
                proof {
                    lemma_first_at(self@, id, i as int);
                }
                self.records[i] = Record { id, data: new_data };
                assert(self@ =~= old(self)@.update(
                    i as int,
                    RecordView { id, data: new_data@ },
                ));
                true
            },
            None => false,
        }
    }

    /// Removes the first record with the key `id`; says whether there was one.
    pub fn delete(&mut self, id: u64) -> (ok: bool)
        ensures
            ok == has_id(old(self)@, id),
            ok ==> final(self)@ == old(self)@.remove(position(old(self)@, id)),
            !ok ==> final(self)@ == old(self)@,
    {
        match self.find(id) {
            Some(i) => {
                proof {
                    lemma_first_at(self@, id, i as int);
                }
                self.records.remove(i);
                assert(self@ =~= old(self)@.remove(i as int));
                true
            },
            None => false,
        }
    }

    /// Overwrites the bytes of the payload of the first record with the key
    /// `record_id` from `offset` on with `new_value`; does nothing where no
    /// record has the key.
    pub fn update_record(&mut self, record_id: u64, offset: usize, new_value: &[u8])
        requires
            match lookup(old(self)@, record_id) {
                Some(record) => offset + new_value@.len() <= record.data.len(),
                None => true,
            },
        ensures
            match lookup(old(self)@, record_id) {
                Some(record) => final(self)@ == old(self)@.update(
                    position(old(self)@, record_id),
                    RecordView {
                        id: record_id,
                        data: patched(record.data, offset as int, new_value@),
                    },
                ),
                None => final(self)@ == old(self)@,
            },
    {
        match self.find(record_id) {
            Some(i) => {
                proof {
                    lemma_first_at(self@, record_id, i as int);
                }
                let ghost before = self.records@[i as int].data@;
                let n = self.records[i].data.len();
                let mut k: usize = 0;
                while k < new_value.len()
                    invariant
                        k <= new_value@.len(),
                        i < self.records@.len(),
                        self.records@.len() == old(self).records@.len(),
                        offset + new_value@.len() <= before.len(),
                        before.len() == n,
                        self.records@[i as int].id == record_id,
                        self.records@[i as int].data@.len() == before.len(),
                        forall|j: int|
                            0 <= j < self.records@.len() && j != i ==> self.records@[j] == old(self).records@[j],
                        forall|j: int|
                            0 <= j < before.len() ==> self.records@[i as int].data@[j] == if offset
                                <= j < offset + k {
                                new_value@[j - offset]
                            } else {
                                before[j]
                            },
                    decreases new_value@.len() - k,
                {
                    self.records[i].data[offset + k] = new_value[k];
                    k += 1;
                }
                proof {
                    assert(self.records@[i as int].data@ =~= patched(before, offset as int, new_value@));
                    assert(self@ =~= old(self)@.update(
                        i as int,
                        RecordView {
                            id: record_id,
                            data: patched(before, offset as int, new_value@),
                        },
                    ));
                }
            },
            None => {},
        }
    }

    pub fn count(&self) -> (r: usize)
        ensures
            r == self@.len(),
    {
        self.records.len()
    }

    pub fn clear(&mut self)
        ensures
            final(self)@ == Seq::<RecordView>::empty(),
    {
        self.records.clear();
        assert(self@ =~= Seq::<RecordView>::empty());
    }
}

impl Clone for Block {
    fn clone(&self) -> (r: Self)
        ensures
            r@ == self@,
    {
        let mut records: Vec<Record> = Vec::new();
        let mut i: usize = 0;
        while i < self.records.len()
            invariant
                i <= self.records@.len(),
                records@.len() == i,
                forall|j: int| 0 <= j < i ==> (#[trigger] records@[j])@ == self@[j],
            decreases self.records@.len() - i,
        {
            records.push(self.records[i].clone());
            i += 1;
        }
        let r = Block { records };
        assert(r@ =~= self@);
        r
    }
}

impl PartialEq for Block {
    fn eq(&self, other: &Self) -> (r: bool) {
        if self.records.len() != other.records.len() {
            assert(self@.len() != other@.len());
            return false;
        }
        let mut i: usize = 0;
        while i < self.records.len()
            invariant
                self.records@.len() == other.records@.len(),
                i <= self.records@.len(),
                forall|j: int| 0 <= j < i ==> #[trigger] self@[j] == other@[j],
            decreases self.records@.len() - i,
        {
            if !(self.records[i] == other.records[i]) {
                assert(self@[i as int] != other@[i as int]);
                return false;
            }
            i += 1;
        }
        assert(self@ =~= other@);
        true
    }
}

impl PartialEqSpecImpl for Block {
    open spec fn obeys_eq_spec() -> bool {
        true
    }

    open spec fn eq_spec(&self, other: &Self) -> bool {
        self@ == other@
    }
}

} // verus!
