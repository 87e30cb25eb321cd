//! The chaos store: an append-only struct-of-arrays triple of event id,
//! 128-bit sign fingerprint and half-precision vector (held as raw bit
//! patterns), with a consistent id-to-index table.
use vstd::prelude::*;

use crate::store::IdTable;

verus! {

/// Struct-of-arrays storage for the vector recall track.
pub struct ChaosStore {
    pub ids: Vec<i64>,
    pub fingerprints: Vec<u128>,
    pub vectors: Vec<Vec<u16>>,
    pub id_to_index: IdTable<usize>,
}

impl ChaosStore {
    /// Well-formed: the three arrays run in parallel, and the index table
    /// maps the id at each position back to that position.
    pub open spec fn wf(self) -> bool {
        &&& self.fingerprints@.len() == self.ids@.len()
        &&& self.vectors@.len() == self.ids@.len()
        &&& self.id_to_index.wf()
        &&& self.id_to_index.keys@ == self.ids@
        &&& forall|i: int| 0 <= i < self.ids@.len() ==> self.id_to_index.vals@[i] == i
    }

    /// An empty store.
    pub fn new() -> (r: Self)
        ensures
            r.wf(),
            r.ids@.len() == 0,
    {
        let r = ChaosStore {
            ids: Vec::new(),
            fingerprints: Vec::new(),
            vectors: Vec::new(),
            id_to_index: IdTable::new(),
        };
        proof {
            assert(r.id_to_index.keys@ =~= r.ids@);
        }
        r
    }

    /// Appends an entry for a new id; an id already present is left
    /// untouched, so adding is idempotent on the id.
    pub fn add(&mut self, id: i64, fp: u128, vec: Vec<u16>)
        requires
            old(self).wf(),
        ensures
            final (self).wf(),
            old(self).id_to_index.contains_spec(id) ==> final (self).ids@ == old(self).ids@
                && final (self).fingerprints@ == old(self).fingerprints@ && final (
            self).vectors@ == old(self).vectors@,
            !old(self).id_to_index.contains_spec(id) ==> final (self).ids@ == old(
            self).ids@.push(id) && final (self).fingerprints@ == old(self).fingerprints@.push(fp)
                && final (self).vectors@ == old(self).vectors@.push(vec),
    {
        let present = self.id_to_index.find_idx(id);
        match present {
            Some(_) => {
            },
            None => {
                let idx = self.ids.len();
                self.ids.push(id);
                self.fingerprints.push(fp);
                self.vectors.push(vec);
                self.id_to_index.insert_new(id, idx);
            },
        }
    }
}

} // verus!
