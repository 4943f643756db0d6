//! The record: the unit that the engine stores.

use vstd::prelude::*;
use vstd::std_specs::cmp::PartialEqSpecImpl;

verus! {

/// What a record is: its key and the bytes stored under it.
pub struct RecordView {
    pub id: u64,
    pub data: Seq<u8>,
}

/// A key and an opaque payload. The engine never looks inside the payload.
#[derive(Debug)]
pub struct Record {
    pub id: u64,
    pub data: Vec<u8>,
}

impl View for Record {
    type V = RecordView;

    open spec fn view(&self) -> RecordView {
        RecordView { id: self.id, data: self.data@ }
    }
}

impl Record {
    pub fn new(id: u64, data: Vec<u8>) -> (r: Self)
        ensures
            r.id == id,
            r.data == data,
    {
        Self { id, data }
    }
}

impl Clone for Record {
    fn clone(&self) -> (r: Self)
        ensures
            r@ == self@,
    {
        Record { id: self.id, data: self.data.clone() }
    }
}

/// Whether two byte vectors hold the same bytes.
pub fn same_bytes(a: &Vec<u8>, b: &Vec<u8>) -> (r: bool)
    ensures
        r == (a@ == b@),
{
    if a.len() != b.len() {
        return false;
    }
    let mut i: usize = 0;
    while i < a.len()
        invariant
            a@.len() == b@.len(),
            i <= a@.len(),
            forall|j: int| 0 <= j < i ==> a@[j] == b@[j],
        decreases a@.len() - i,
    {
        if a[i] != b[i] {
            return false;
        }
        i += 1;
    }
    assert(a@ =~= b@);
    true
}

impl PartialEq for Record {
    fn eq(&self, other: &Self) -> (r: bool) {
        self.id == other.id && same_bytes(&self.data, &other.data)
    }
}

impl PartialEqSpecImpl for Record {
    open spec fn obeys_eq_spec() -> bool {
        true
    }

    open spec fn eq_spec(&self, other: &Self) -> bool {
        self@ == other@
    }
}

} // verus!
