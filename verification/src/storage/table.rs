//! A table as a list of blocks, with a note of the block that holds each key.

use std::collections::HashMap;
use vstd::prelude::*;
use super::block::{has_id, pairs_of, Block};
use super::error::TableError;
use super::record::RecordView;

verus! {

broadcast use vstd::std_specs::hash::group_hash_axioms;

/// The bytes that `bincode::serialize` gives for a list of lists of key and
/// payload pairs, where it gives any.
pub uninterp spec fn bincode_lists_image(lists: Seq<Seq<(u64, Seq<u8>)>>) -> Option<Seq<u8>>;

/// The list of lists of key and payload pairs that `bincode::deserialize`
/// reads from `bytes`, where it reads one.
pub uninterp spec fn bincode_lists(bytes: Seq<u8>) -> Option<Seq<Seq<(u64, Seq<u8>)>>>;

/// Calls `bincode::serialize` on the lists. The contract names the bytes that
/// come back, and claims of them that `bincode::deserialize` reads the same
/// lists from them: the round trip that the format is made for. It also
/// claims that bytes do come back: the call sets no limit on the size, a
/// list knows its length, and writing to a vector in memory does not fail.
#[verifier::external_body]
fn serialize_lists(lists: &Vec<Vec<(u64, Vec<u8>)>>) -> (r: Result<
    Vec<u8>,
    Box<bincode::ErrorKind>,
>)
    ensures
        match r {
            Ok(bytes) => bincode_lists_image(lists.deep_view()) == Some(bytes@) && bincode_lists(
                bytes@,
            ) == Some(lists.deep_view()),
            Err(_) => false,
        },
{
    bincode::serialize(lists)
}

/// Calls `bincode::deserialize` for a list of lists of key and payload
/// pairs. The contract names what comes back; bytes after the lists are not
/// looked at.
#[verifier::external_body]
fn deserialize_lists(bytes: &[u8]) -> (r: Result<Vec<Vec<(u64, Vec<u8>)>>, Box<bincode::ErrorKind>>)
    ensures
        match r {
            Ok(lists) => bincode_lists(bytes@) == Some(lists.deep_view()),
            Err(_) => bincode_lists(bytes@) is None,
        },
{
    bincode::deserialize(bytes)
}

/// The blocks as the lists of pairs that are written to disk.
pub open spec fn lists_of(blocks: Seq<Seq<RecordView>>) -> Seq<Seq<(u64, Seq<u8>)>> {
    blocks.map_values(|b: Seq<RecordView>| pairs_of(b))
}

/// The place of the last block that holds a record with the key `id`.
pub open spec fn place_of(blocks: Seq<Seq<RecordView>>, id: u64) -> Option<usize>
    decreases blocks.len(),
{
    if blocks.len() == 0 {
        None
    } else if has_id(blocks.last(), id) {
        Some((blocks.len() - 1) as usize)
    } else {
        place_of(blocks.drop_last(), id)
    }
}

/// The bytes of a block table hold the table: what is read from the bytes
/// that blocks were put into are those blocks.
pub proof fn table_image_is_faithful(
    bytes: Seq<u8>,
    written: Seq<Seq<RecordView>>,
    read: Seq<Seq<RecordView>>,
)
    requires
        bincode_lists(bytes) == Some(lists_of(written)),
        bincode_lists(bytes) == Some(lists_of(read)),
    ensures
        read == written,
{
    assert(written.len() == lists_of(written).len());
    assert(read.len() == lists_of(read).len());
    assert forall|i: int| 0 <= i < read.len() implies read[i] == written[i] by {
        assert(lists_of(read)[i] == lists_of(written)[i]);
        assert(pairs_of(read[i]) == pairs_of(written[i]));
        assert(read[i].len() == pairs_of(read[i]).len());
        assert(written[i].len() == pairs_of(written[i]).len());
        assert forall|j: int| 0 <= j < read[i].len() implies read[i][j] == written[i][j] by {
            assert(pairs_of(read[i])[j] == pairs_of(written[i])[j]);
        }
        assert(read[i] =~= written[i]);
    }
    assert(read =~= written);
}

/// A named list of blocks. For each key, the place of the last block that
/// was added with a record of that key is noted.
pub struct Table {
    name: String,
    blocks: Vec<Block>,
    index: HashMap<u64, usize>,
}

impl Table {
    /// The name of the table.
    pub closed spec fn spec_name(&self) -> Seq<char> {
        self.name@
    }

    /// The records of each block, in the order of the blocks.
    pub closed spec fn blocks(&self) -> Seq<Seq<RecordView>> {
        self.blocks@.map_values(|b: Block| b@)
    }

    /// For each key, the place of its block.
    pub closed spec fn places(&self) -> Map<u64, usize> {
        self.index@
    }

    /// A table without blocks.
    pub fn new(name: String) -> (r: Self)
        ensures
            r.spec_name() == name@,
            r.blocks().len() == 0,
            r.places() == Map::<u64, usize>::empty(),
            r.noted(),
    {
        let r = Self { name, blocks: Vec::new(), index: HashMap::new() };
        proof {
            assert(r.blocks() =~= Seq::<Seq<RecordView>>::empty());
        }
        r
    }

    /// Adds a block behind the others, and notes its place for every key
    /// that it holds.
    pub fn add_block(&mut self, block: Block)
        ensures
            final(self).spec_name() == old(self).spec_name(),
            final(self).blocks() == old(self).blocks().push(block@),
            forall|id: u64|
                final(self).places().contains_key(id) == (has_id(block@, id) || old(self).places().contains_key(id)),
            forall|id: u64|
                #[trigger] final(self).places().contains_key(id) ==> final(self).places()[id] == if has_id(
                    block@,
                    id,
                ) {
                    old(self).blocks().len() as usize
                } else {
                    old(self).places()[id]
                },
            old(self).noted() ==> final(self).noted(),
    {
        let block_index = self.blocks.len();
        let records = block.as_records();
        let ghost s = block@;
        let mut i: usize = 0;
        while i < records.len()
            invariant
                i <= records@.len(),
                s == block@,
                s == records@.map_values(|x: crate::storage::record::Record| x@),
                self.name == old(self).name,
                self.blocks == old(self).blocks,
                block_index == old(self).blocks@.len(),
                forall|id: u64|
                    self.index@.contains_key(id) == (has_id(s.subrange(0, i as int), id) || old(self).index@.contains_key(id)),
                forall|id: u64|
                    #[trigger] self.index@.contains_key(id) ==> self.index@[id] == if has_id(
                        s.subrange(0, i as int),
                        id,
                    ) {
                        block_index
                    } else {
                        old(self).index@[id]
                    },
            decreases records@.len() - i,
        {
            let ghost before = self.index@;
            let ghost seen = s.subrange(0, i as int);
            let key = records[i].id;
            self.index.insert(key, block_index);
            proof {
                let now = s.subrange(0, i + 1);
                assert(s[i as int].id == key);
                assert(now[i as int].id == key);
                assert forall|id: u64| has_id(now, id) == (id == key || has_id(seen, id)) by {
                    if has_id(seen, id) {
                        let k = choose|k: int| 0 <= k < seen.len() && #[trigger] seen[k].id == id;
                        assert(now[k].id == id);
                    }
                    if has_id(now, id) && id != key {
                        let k = choose|k: int| 0 <= k < now.len() && #[trigger] now[k].id == id;
                        assert(seen[k].id == id);
                    }
                }
            }
            i += 1;
        }
        proof {
            assert(s.subrange(0, i as int) =~= s);
        }
        self.blocks.push(block);
        proof {
            assert(self.blocks() =~= old(self).blocks().push(block@));
            assert(self.blocks().drop_last() =~= old(self).blocks());
            if old(self).noted() {
                assert forall|id: u64| #[trigger]
                    place_of(self.blocks(), id) == if self.places().contains_key(id) {
                        Some(self.places()[id])
                    } else {
                        None
                    } by {
                    let _ = place_of(old(self).blocks(), id);
                }
            }
        }
    }

    /// Whether the place noted for each key is that of the last block that
    /// holds the key.
    pub open spec fn noted(&self) -> bool {
        forall|id: u64| #[trigger]
            place_of(self.blocks(), id) == if self.places().contains_key(id) {
                Some(self.places()[id])
            } else {
                None
            }
    }

    /// The blocks as the bytes of the table's file.
    pub fn to_bytes(&self) -> (r: Result<Vec<u8>, TableError>)
        ensures
            match r {
                Ok(bytes) => bincode_lists_image(lists_of(self.blocks())) == Some(bytes@)
                    && bincode_lists(bytes@) == Some(lists_of(self.blocks())),
                Err(_) => false,
            },
    {
        let mut lists: Vec<Vec<(u64, Vec<u8>)>> = Vec::new();
        let mut i: usize = 0;
        while i < self.blocks.len()
            invariant
                i <= self.blocks@.len(),
                lists@.len() == i,
                forall|j: int|
                    0 <= j < i ==> (#[trigger] lists.deep_view()[j]) == lists_of(self.blocks())[j],
            decreases self.blocks@.len() - i,
        {
            let ghost before = lists.deep_view();
            let pairs = self.blocks[i].to_pairs();
            lists.push(pairs);
            proof {
                assert forall|j: int| 0 <= j < i + 1 implies (#[trigger] lists.deep_view()[j])
                    == lists_of(self.blocks())[j] by {
                    if j < i {
                        assert(lists.deep_view()[j] == before[j]);
                    }
                }
            }
            i += 1;
        }
        assert(lists.deep_view() =~= lists_of(self.blocks()));
        match serialize_lists(&lists) {
            Ok(bytes) => Ok(bytes),
            Err(_) => Err(TableError::Encoding),
        }
    }

    /// The table named `name` whose file holds `bytes`: its blocks in the
    /// order of the file, and for each key the place of the last block that
    /// holds it.
    pub fn load_from_disk(name: String, bytes: &[u8]) -> (r: Result<Table, TableError>)
        ensures
            match r {
                Ok(table) => {
                    &&& table.spec_name() == name@
                    &&& bincode_lists(bytes@) == Some(lists_of(table.blocks()))
                    &&& table.noted()
                },
                Err(e) => e == TableError::Corrupt && bincode_lists(bytes@) is None,
            },
    {
        match deserialize_lists(bytes) {
            Ok(lists) => {
                let mut table = Table::new(name);
                let ghost all = lists.deep_view();
                let ghost raw = lists@;
                for pairs in it: lists
                    invariant
                        it.seq() == raw,
                        all.len() == raw.len(),
                        forall|j: int| 0 <= j < raw.len() ==> all[j] == (#[trigger] raw[j]).deep_view(),
                        table.spec_name() == name@,
                        table.blocks().len() == it.index(),
                        forall|j: int|
                            0 <= j < table.blocks().len() ==> pairs_of(#[trigger] table.blocks()[j])
                                == all[j],
                        table.noted(),
                {
                    let block = Block::from_pairs(pairs);
                    table.add_block(block);
                }
                proof {
                    assert(lists_of(table.blocks()) =~= all);
                }
                Ok(table)
            },
            Err(_) => Err(TableError::Corrupt),
        }
    }

    /// The block at place `index`.
    pub fn get_block(&self, index: usize) -> (r: Option<&Block>)
        ensures
            match r {
                Some(block) => index < self.blocks().len() && block@ == self.blocks()[index as int],
                None => index >= self.blocks().len(),
            },
    {
        if index < self.blocks.len() {
            Some(&self.blocks[index])
        } else {
            None
        }
    }
}

} // verus!
