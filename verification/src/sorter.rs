//! The insert-only merge sorter that buffers candidate (key, document-id set)
//! rows during the build. Its observable contract is the sequence of rows
//! inserted; what the rows amount to is their delta (`rows_delta`). Spilling,
//! compression and on-disk chunking are the backing implementation's own
//! concern and change neither.

use vstd::prelude::*;
use crate::docids::{strictly_sorted, DocIdSet};

verus! {

/// An insert-only buffer of candidate rows for the prefix database.
pub struct MergeSorter {
    rows: Vec<(Vec<u8>, DocIdSet)>,
}

impl View for MergeSorter {
    type V = Seq<(Seq<u8>, Seq<u32>)>;

    closed spec fn view(&self) -> Seq<(Seq<u8>, Seq<u32>)> {
        self.rows@.map(|i: int, r: (Vec<u8>, DocIdSet)| (r.0@, r.1@))
    }
}

impl MergeSorter {
    /// All buffered values are well-formed document-id sets.
    pub open spec fn wf(self) -> bool {
        forall|i: int| 0 <= i < self@.len() ==> strictly_sorted(self@[i].1)
    }

    /// A fresh, empty sorter.
    pub fn new() -> (r: MergeSorter)
        ensures
            r.wf(),
            r@ == Seq::<(Seq<u8>, Seq<u32>)>::empty(),
    {
        let r = MergeSorter { rows: Vec::new() };
        proof {
            assert(r@ =~= Seq::<(Seq<u8>, Seq<u32>)>::empty());
        }
        r
    }

    /// Buffer one row.
    pub fn insert(&mut self, key: Vec<u8>, value: DocIdSet)
        requires
            old(self).wf(),
            value.wf(),
        ensures
            final(self).wf(),
            final(self)@ == old(self)@.push((key@, value@)),
    {
        let ghost prev = self@;
        self.rows.push((key, value));
        proof {
            assert(self@ =~= prev.push((key@, value@)));
        }
    }

    /// How many rows are buffered.
    pub fn len(&self) -> (r: usize)
        ensures
            r == self@.len(),
    {
        self.rows.len()
    }

    /// The row at an index.
    pub fn row(&self, i: usize) -> (r: &(Vec<u8>, DocIdSet))
        requires
            i < self@.len(),
            self.wf(),
        ensures
            (r.0@, r.1@) == self@[i as int],
            r.1.wf(),
    {
        &self.rows[i]
    }
}

} // verus!
