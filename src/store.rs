use vstd::prelude::*;

verus! {

/// An append-only store of byte records, addressed by their index.
///
/// Indices are handed out in order from 0 and never reused.
pub struct RecordStore {
    records: Vec<Vec<u8>>,
}

impl View for RecordStore {
    type V = Seq<Seq<u8>>;

    closed spec fn view(&self) -> Seq<Seq<u8>> {
        self.records@.map_values(|r: Vec<u8>| r@)
    }
}

impl RecordStore {
    /// An empty store.
    pub fn new() -> (r: RecordStore)
        ensures
            r@ == Seq::<Seq<u8>>::empty(),
    {
        let r = RecordStore { records: Vec::new() };
        assert(r@ =~= Seq::<Seq<u8>>::empty());
        r
    }

    /// A store that holds `records`, in order.
    pub fn from_records(records: Vec<Vec<u8>>) -> (r: RecordStore)
        ensures
            r@ == records@.map_values(|b: Vec<u8>| b@),
    {
        RecordStore { records }
    }

    /// All records, in index order.
    pub fn records(&self) -> (r: &Vec<Vec<u8>>)
        ensures
            r@.map_values(|b: Vec<u8>| b@) == self@,
    {
        &self.records
    }

    /// The number of records in the store.
    pub fn len(&self) -> (r: usize)
        ensures
            r == self@.len(),
    {
        self.records.len()
    }

    /// Appends a record and returns the index it was given.
    pub fn insert(&mut self, data: Vec<u8>) -> (r: usize)
        ensures
            final(self)@ == old(self)@.push(data@),
            r == old(self)@.len(),
    {
        let id = self.records.len();
        self.records.push(data);
        assert(self@ =~= old(self)@.push(data@));
        id
    }

    /// The record at `index`, or `None` past the end of the store.
    pub fn get(&self, index: usize) -> (r: Option<&Vec<u8>>)
        ensures
            r matches Some(b) ==> index < self@.len() && b@ == self@[index as int],
            r is None ==> index >= self@.len(),
    {
        if index < self.records.len() {
            Some(&self.records[index])
        } else {
            None
        }
    }
}

} // verus!
