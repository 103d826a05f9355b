use vstd::prelude::*;

use std::collections::HashMap;

use crate::document::{Document, DocumentView};

verus! {

broadcast use vstd::std_specs::hash::group_hash_axioms;

/// The records of an index, keyed by internal id. `bound` is one past the
/// largest id ever stored, so that the records can be listed by id.
pub struct RecordStore {
    records: HashMap<usize, Document>,
    bound: usize,
}

impl View for RecordStore {
    type V = Map<usize, DocumentView>;

    closed spec fn view(&self) -> Map<usize, DocumentView> {
        self.records@.map_values(|d: Document| d@)
    }
}

impl RecordStore {
    /// Every stored id is below `bound`.
    pub closed spec fn well_formed(&self) -> bool {
        forall|k: usize| #[trigger] self.records@.contains_key(k) ==> k < self.bound
    }

    /// An empty store.
    pub fn new() -> (r: RecordStore)
        ensures
            r@ == Map::<usize, DocumentView>::empty(),
            r.well_formed(),
    {
        let r = RecordStore { records: HashMap::new(), bound: 0 };
        assert(r@ =~= Map::<usize, DocumentView>::empty());
        r
    }

    /// Stores `doc` under `id`, replacing the record that id held.
    pub fn put(&mut self, id: usize, doc: Document)
        requires
            old(self).well_formed(),
            id < usize::MAX,
        ensures
            final(self).well_formed(),
            final(self)@ == old(self)@.insert(id, doc@),
    {
        let ghost d = doc@;
        let bound = if id < self.bound {
            self.bound
        } else {
            id + 1
        };
        self.bound = bound;
        self.records.insert(id, doc);
        assert(self@ =~= old(self)@.insert(id, d));
    }

    /// The record stored under `id`, if there is one.
    pub fn get(&self, id: usize) -> (r: Option<&Document>)
        ensures
            r.is_some() == self@.contains_key(id),
            r.is_some() ==> r.unwrap()@ == self@[id],
    {
        self.records.get(&id)
    }

    /// Every record with its id: each id of the store once, in ascending
    /// order.
    pub fn get_all(&self) -> (r: Vec<(usize, Document)>)
        requires
            self.well_formed(),
        ensures
            forall|i: int|
                0 <= i < r@.len() ==> self@.contains_key((#[trigger] r@[i]).0) && r@[i].1@ == self@[r@[i].0],
            forall|i: int, j: int| 0 <= i < j < r@.len() ==> (#[trigger] r@[i]).0 < (#[trigger] r@[j]).0,
            forall|k: usize| self@.contains_key(k) ==> exists|i: int| 0 <= i < r@.len() && (#[trigger] r@[i]).0 == k,
    {
        let mut out: Vec<(usize, Document)> = Vec::new();
        let mut n: usize = 0;
        while n < self.bound
            invariant
                n <= self.bound,
                forall|k: usize| #[trigger] self.records@.contains_key(k) ==> k < self.bound,
                forall|i: int|
                    0 <= i < out@.len() ==> (#[trigger] out@[i]).0 < n && self@.contains_key(out@[i].0)
                        && out@[i].1@ == self@[out@[i].0],
                forall|i: int, j: int| 0 <= i < j < out@.len() ==> (#[trigger] out@[i]).0 < (#[trigger] out@[j]).0,
                forall|k: usize|
                    k < n && self@.contains_key(k) ==> exists|i: int| 0 <= i < out@.len() && (#[trigger] out@[i]).0 == k,
            decreases self.bound - n,
        {
            match self.get(n) {
                Some(d) => {
                    let ghost prev = out@;
                    out.push((n, d.duplicate()));
                    assert forall|k: usize| k < n + 1 && self@.contains_key(k) implies exists|i: int|
                        0 <= i < out@.len() && (#[trigger] out@[i]).0 == k by {
                        if k < n {
                            let i = choose|i: int| 0 <= i < prev.len() && (#[trigger] prev[i]).0 == k;
                            assert(out@[i] == prev[i]);
                        } else {
                            assert(out@[prev.len() as int].0 == k);
                        }
                    }
                },
                None => {},
            }
            n += 1;
        }
        proof {
            assert forall|k: usize| self@.contains_key(k) implies exists|i: int|
                0 <= i < out@.len() && (#[trigger] out@[i]).0 == k by {
                assert(self.records@.contains_key(k));
            }
        }
        out
    }
}

} // verus!
