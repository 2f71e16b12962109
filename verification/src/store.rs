//! The ordered, durable key-value store, modelled by its key-value contract:
//! a finite map from encoded keys to document-id sets, with point insert,
//! merge-on-write insert, bulk merge-load from the sorter, and removal of the
//! rows of deleted prefixes. Durability, locking and on-disk layout are the
//! backing engine's own concern and are invisible at this contract.

use vstd::prelude::*;
use crate::deltas::{join1, merged_with, rows_delta, stored_part};
use crate::docids::{strictly_sorted, union, DocIdSet};
use crate::errors::{Error, Source};
use crate::keys::{bytes_eq, copy_bytes, contains_bytes, spec_decodable, spec_decoded_word};
use crate::sorter::MergeSorter;

verus! {

/// The mathematical reading of a row vector.
pub open spec fn rows_view(rows: Seq<(Vec<u8>, DocIdSet)>) -> Seq<(Seq<u8>, Seq<u32>)> {
    rows.map(|i: int, r: (Vec<u8>, DocIdSet)| (r.0@, r.1@))
}

/// No two rows share a key.
pub open spec fn unique_keys(rows: Seq<(Seq<u8>, Seq<u32>)>) -> bool {
    forall|i: int, j: int| 0 <= i < j < rows.len() ==> rows[i].0 != rows[j].0
}

/// Some row carries this key.
pub open spec fn has_key(rows: Seq<(Seq<u8>, Seq<u32>)>, k: Seq<u8>) -> bool {
    exists|i: int| 0 <= i < rows.len() && rows[i].0 == k
}

/// The map a row vector denotes; a later row with the same key wins, which
/// with unique keys never happens.
pub open spec fn assoc_map(rows: Seq<(Seq<u8>, Seq<u32>)>) -> Map<Seq<u8>, Seq<u32>>
    decreases rows.len(),
{
    if rows.len() == 0 {
        Map::empty()
    } else {
        assoc_map(rows.drop_last()).insert(rows.last().0, rows.last().1)
    }
}

/// The keys of the denoted map are exactly the keys of the rows.
pub proof fn lemma_assoc_map_dom(rows: Seq<(Seq<u8>, Seq<u32>)>)
    ensures
        forall|k: Seq<u8>| #[trigger] assoc_map(rows).contains_key(k) <==> has_key(rows, k),
    decreases rows.len(),
{
    if rows.len() > 0 {
        lemma_assoc_map_dom(rows.drop_last());
        assert forall|k: Seq<u8>| #[trigger] assoc_map(rows).contains_key(k) implies has_key(
            rows,
            k,
        ) by {
            if k == rows.last().0 {
                assert(rows[rows.len() - 1].0 == k);
            } else {
                assert(assoc_map(rows.drop_last()).contains_key(k));
                assert(has_key(rows.drop_last(), k));
                let i = choose|i: int|
                    0 <= i < rows.drop_last().len() && rows.drop_last()[i].0 == k;
                assert(rows[i].0 == k);
            }
        }
        assert forall|k: Seq<u8>| has_key(rows, k) implies assoc_map(rows).contains_key(k) by {
            let i = choose|i: int| 0 <= i < rows.len() && rows[i].0 == k;
            if i < rows.len() - 1 {
                assert(rows.drop_last()[i].0 == k);
                assert(has_key(rows.drop_last(), k));
                assert(assoc_map(rows.drop_last()).contains_key(k));
            }
        }
    }
}

/// A row no later row duplicates denotes its own value in the map.
pub proof fn lemma_assoc_map_index(rows: Seq<(Seq<u8>, Seq<u32>)>, i: int)
    requires
        0 <= i < rows.len(),
        forall|j: int| i < j < rows.len() ==> rows[j].0 != rows[i].0,
    ensures
        assoc_map(rows).contains_key(rows[i].0),
        assoc_map(rows)[rows[i].0] == rows[i].1,
    decreases rows.len(),
{
    if i == rows.len() - 1 {
    } else {
        assert(rows.drop_last()[i] == rows[i]);
        lemma_assoc_map_index(rows.drop_last(), i);
    }
}

/// Replacing the value of a row no later row duplicates updates the map at
/// that one key.
pub proof fn lemma_assoc_map_update(rows: Seq<(Seq<u8>, Seq<u32>)>, i: int, v: Seq<u32>)
    requires
        0 <= i < rows.len(),
        forall|j: int| i < j < rows.len() ==> rows[j].0 != rows[i].0,
    ensures
        assoc_map(rows.update(i, (rows[i].0, v))) == assoc_map(rows).insert(rows[i].0, v),
    decreases rows.len(),
{
    let rows2 = rows.update(i, (rows[i].0, v));
    if i == rows.len() - 1 {
        assert(rows2.drop_last() =~= rows.drop_last());
        assert(rows2.last() == (rows[i].0, v));
        assert(assoc_map(rows2) =~= assoc_map(rows).insert(rows[i].0, v));
    } else {
        assert(rows.drop_last()[i] == rows[i]);
        lemma_assoc_map_update(rows.drop_last(), i, v);
        assert(rows2.drop_last() =~= rows.drop_last().update(i, (rows[i].0, v)));
        assert(rows2.last() == rows.last());
        assert(assoc_map(rows2) =~= assoc_map(rows).insert(rows[i].0, v));
    }
}

/// Appending a fresh row extends the map.
pub proof fn lemma_assoc_map_push(rows: Seq<(Seq<u8>, Seq<u32>)>, r: (Seq<u8>, Seq<u32>))
    ensures
        assoc_map(rows.push(r)) == assoc_map(rows).insert(r.0, r.1),
{
    assert(rows.push(r).drop_last() =~= rows);
    assert(rows.push(r).last() == r);
}

/// The rows that survive deletion: those whose key's word component is not a
/// deleted prefix, in their stored order.
pub open spec fn deleted_filter(rows: Seq<(Seq<u8>, Seq<u32>)>, deleted: Seq<Seq<u8>>) -> Seq<
    (Seq<u8>, Seq<u32>),
>
    decreases rows.len(),
{
    if rows.len() == 0 {
        Seq::empty()
    } else {
        let prev = deleted_filter(rows.drop_last(), deleted);
        if deleted.contains(spec_decoded_word(rows.last().0)) {
            prev
        } else {
            prev.push(rows.last())
        }
    }
}

/// The store map restricted to the keys whose prefix component survives.
pub open spec fn kept_map(m: Map<Seq<u8>, Seq<u32>>, deleted: Seq<Seq<u8>>) -> Map<
    Seq<u8>,
    Seq<u32>,
> {
    Map::new(
        |k: Seq<u8>| m.contains_key(k) && !deleted.contains(spec_decoded_word(k)),
        |k: Seq<u8>| m[k],
    )
}

/// Filtering rows restricts the denoted map, and loses no other row.
pub proof fn lemma_deleted_filter(rows: Seq<(Seq<u8>, Seq<u32>)>, deleted: Seq<Seq<u8>>)
    requires
        unique_keys(rows),
    ensures
        unique_keys(deleted_filter(rows, deleted)),
        forall|k: Seq<u8>|
            #[trigger] has_key(deleted_filter(rows, deleted), k) ==> has_key(rows, k),
        assoc_map(deleted_filter(rows, deleted)) == kept_map(assoc_map(rows), deleted),
    decreases rows.len(),
{
    let filt = deleted_filter(rows, deleted);
    if rows.len() == 0 {
        assert(assoc_map(filt) =~= kept_map(assoc_map(rows), deleted));
    } else {
        let drl = rows.drop_last();
        let r = rows.last();
        lemma_deleted_filter(drl, deleted);
        lemma_assoc_map_dom(drl);
        lemma_assoc_map_dom(rows);
        let pf = deleted_filter(drl, deleted);
        assert(forall|j: int| 0 <= j < drl.len() ==> drl[j] == rows[j]);
        assert(!has_key(drl, r.0));
        assert forall|k: Seq<u8>| #[trigger] has_key(filt, k) implies has_key(rows, k) by {
            if deleted.contains(spec_decoded_word(r.0)) {
                let i = choose|i: int| 0 <= i < pf.len() && pf[i].0 == k;
                assert(has_key(drl, k));
                let j = choose|j: int| 0 <= j < drl.len() && drl[j].0 == k;
                assert(rows[j].0 == k);
            } else {
                let i = choose|i: int| 0 <= i < filt.len() && filt[i].0 == k;
                if i < pf.len() {
                    assert(pf[i].0 == k);
                    assert(has_key(pf, k));
                    let j = choose|j: int| 0 <= j < drl.len() && drl[j].0 == k;
                    assert(rows[j].0 == k);
                } else {
                    assert(filt[i] == r);
                    assert(rows[rows.len() - 1].0 == k);
                }
            }
        }
        if deleted.contains(spec_decoded_word(r.0)) {
            assert(filt == pf);
            assert forall|k: Seq<u8>|
                #![auto]
                assoc_map(filt).contains_key(k) == kept_map(assoc_map(rows), deleted).contains_key(
                    k,
                ) by {
                if k == r.0 {
                    assert(!assoc_map(drl).contains_key(k));
                    assert(!kept_map(assoc_map(rows), deleted).contains_key(k));
                    assert(!has_key(pf, k));
                    lemma_assoc_map_dom(pf);
                }
            }
            assert(assoc_map(filt) =~= kept_map(assoc_map(rows), deleted));
        } else {
            assert(filt == pf.push(r));
            lemma_assoc_map_push(pf, r);
            assert(unique_keys(filt)) by {
                assert forall|i: int, j: int| 0 <= i < j < filt.len() implies filt[i].0
                    != filt[j].0 by {
                    if j == filt.len() - 1 {
                        assert(filt[i] == pf[i]);
                        assert(has_key(pf, pf[i].0));
                    }
                }
            }
            assert forall|k: Seq<u8>|
                #![auto]
                assoc_map(filt).contains_key(k) == kept_map(assoc_map(rows), deleted).contains_key(
                    k,
                ) && (assoc_map(filt).contains_key(k) ==> assoc_map(filt)[k] == kept_map(
                    assoc_map(rows),
                    deleted,
                )[k]) by {
                if k != r.0 {
                    assert(assoc_map(filt).contains_key(k) == assoc_map(pf).contains_key(k));
                    assert(assoc_map(rows).contains_key(k) == assoc_map(drl).contains_key(k));
                }
            }
            assert(assoc_map(filt) =~= kept_map(assoc_map(rows), deleted));
        }
    }
}

/// The rows whose key begins with the byte prefix, in stored order.
pub open spec fn prefix_filter(rows: Seq<(Seq<u8>, Seq<u32>)>, prefix: Seq<u8>) -> Seq<
    (Seq<u8>, Seq<u32>),
>
    decreases rows.len(),
{
    if rows.len() == 0 {
        Seq::empty()
    } else {
        let prev = prefix_filter(rows.drop_last(), prefix);
        if crate::keys::is_prefix_of(prefix, rows.last().0) {
            prev.push(rows.last())
        } else {
            prev
        }
    }
}

/// The postings store: a finite map from encoded keys to document-id sets.
pub struct PostingsStore {
    rows: Vec<(Vec<u8>, DocIdSet)>,
}

impl View for PostingsStore {
    type V = Map<Seq<u8>, Seq<u32>>;

    closed spec fn view(&self) -> Map<Seq<u8>, Seq<u32>> {
        assoc_map(self.rows_v())
    }
}

impl PostingsStore {
    /// The stored rows, as key-value pairs.
    pub closed spec fn rows_v(self) -> Seq<(Seq<u8>, Seq<u32>)> {
        rows_view(self.rows@)
    }

    /// Well-formed: keys are unique and every value is a well-formed
    /// document-id set.
    pub open spec fn wf(self) -> bool {
        &&& unique_keys(self.rows_v())
        &&& forall|i: int| 0 <= i < self.rows_v().len() ==> strictly_sorted(self.rows_v()[i].1)
    }

    /// Every stored value is canonical; stated over the map for callers.
    pub proof fn lemma_values_sorted(self)
        requires
            self.wf(),
        ensures
            forall|k: Seq<u8>| #[trigger] self@.contains_key(k) ==> strictly_sorted(self@[k]),
    {
        lemma_assoc_map_dom(self.rows_v());
        assert forall|k: Seq<u8>| #[trigger] self@.contains_key(k) implies strictly_sorted(
            self@[k],
        ) by {
            let i = choose|i: int| 0 <= i < self.rows_v().len() && self.rows_v()[i].0 == k;
            lemma_assoc_map_index(self.rows_v(), i);
        }
    }

    /// An empty store.
    pub fn new() -> (r: PostingsStore)
        ensures
            r.wf(),
            r@ == Map::<Seq<u8>, Seq<u32>>::empty(),
    {
        let r = PostingsStore { rows: Vec::new() };
        proof {
            assert(r.rows_v() =~= Seq::<(Seq<u8>, Seq<u32>)>::empty());
        }
        r
    }

    /// How many rows the store holds.
    pub fn len(&self) -> (r: usize)
        requires
            self.wf(),
        ensures
            r == self@.dom().len(),
    {
        proof {
            lemma_unique_rows_len(self.rows_v());
        }
        self.rows.len()
    }

    /// How many rows the store holds, counted over the row vector.
    pub fn rows_len(&self) -> (r: usize)
        ensures
            r == self.rows_v().len(),
    {
        self.rows.len()
    }

    /// The row at an index, in stored order.
    pub fn row_at(&self, i: usize) -> (r: &(Vec<u8>, DocIdSet))
        requires
            self.wf(),
            i < self.rows_v().len(),
        ensures
            (r.0@, r.1@) == self.rows_v()[i as int],
            r.1.wf(),
    {
        proof {
            assert(self.rows_v()[i as int] == (self.rows@[i as int].0@, self.rows@[i as int].1@));
        }
        &self.rows[i]
    }

    /// Range scan: every row whose key begins with the byte prefix, in
    /// stored order.
    pub fn range_scan(&self, prefix: &Vec<u8>) -> (r: Vec<(Vec<u8>, DocIdSet)>)
        requires
            self.wf(),
        ensures
            rows_view(r@) == prefix_filter(self.rows_v(), prefix@),
            forall|i: int| 0 <= i < r@.len() ==> strictly_sorted(#[trigger] rows_view(r@)[i].1),
    {
        let ghost rows0 = self.rows_v();
        let mut out: Vec<(Vec<u8>, DocIdSet)> = Vec::new();
        proof {
            assert(rows0.subrange(0, 0) =~= Seq::<(Seq<u8>, Seq<u32>)>::empty());
            assert(rows_view(out@) =~= prefix_filter(rows0.subrange(0, 0), prefix@));
        }
        let mut i: usize = 0;
        while i < self.rows.len()
            invariant
                rows0 == self.rows_v(),
                self.wf(),
                i <= self.rows@.len(),
                rows0.len() == self.rows@.len(),
                rows_view(out@) =~= prefix_filter(rows0.subrange(0, i as int), prefix@),
                forall|j: int| 0 <= j < out@.len() ==> strictly_sorted(
                    #[trigger] rows_view(out@)[j].1,
                ),
            decreases self.rows@.len() - i,
        {
            let ghost pre_out = rows_view(out@);
            assert(rows0[i as int] == (self.rows@[i as int].0@, self.rows@[i as int].1@));
            if crate::keys::starts_with(&self.rows[i].0, prefix) {
                out.push((copy_bytes(&self.rows[i].0), self.rows[i].1.duplicate()));
                proof {
                    assert(rows_view(out@) =~= pre_out.push(rows0[i as int]));
                }
            }
            proof {
                assert(rows0.subrange(0, i + 1).drop_last() =~= rows0.subrange(0, i as int));
                assert(rows0.subrange(0, i + 1).last() == rows0[i as int]);
                assert(rows_view(out@) =~= prefix_filter(rows0.subrange(0, i + 1), prefix@));
            }
            i += 1;
        }
        proof {
            assert(rows0.subrange(0, rows0.len() as int) =~= rows0);
        }
        out
    }

    fn find(&self, key: &Vec<u8>) -> (r: Option<usize>)
        ensures
            match r {
                Some(i) => i < self.rows_v().len() && self.rows_v()[i as int].0 == key@,
                None => forall|j: int| 0 <= j < self.rows_v().len() ==> self.rows_v()[j].0 != key@,
            },
    {
        let mut i: usize = 0;
        while i < self.rows.len()
            invariant
                i <= self.rows.len(),
                self.rows_v().len() == self.rows@.len(),
                forall|j: int| 0 <= j < i ==> self.rows_v()[j].0 != key@,
            decreases self.rows.len() - i,
        {
            assert(self.rows_v()[i as int] == (self.rows@[i as int].0@, self.rows@[i as int].1@));
            if bytes_eq(&self.rows[i].0, key) {
                return Some(i);
            }
            i += 1;
        }
        None
    }

    /// Point lookup.
    pub fn get(&self, key: &Vec<u8>) -> (r: Option<&DocIdSet>)
        requires
            self.wf(),
        ensures
            match r {
                Some(d) => self@.contains_key(key@) && d@ == self@[key@] && d.wf(),
                None => !self@.contains_key(key@),
            },
    {
        proof {
            lemma_assoc_map_dom(self.rows_v());
        }
        match self.find(key) {
            Some(i) => {
                proof {
                    lemma_assoc_map_index(self.rows_v(), i as int);
                }
                Some(&self.rows[i].1)
            },
            None => None,
        }
    }

    /// Point insert: stores the value under the key, replacing any stored one.
    pub fn insert(&mut self, key: Vec<u8>, value: DocIdSet)
        requires
            old(self).wf(),
            value.wf(),
        ensures
            final(self).wf(),
            final(self)@ == old(self)@.insert(key@, value@),
    {
        let ghost pre = self.rows_v();
        match self.find(&key) {
            Some(i) => {
                proof {
                    assert(pre[i as int].0 == key@);
                }
                self.rows.set(i, (key, value));
                proof {
                    assert(self.rows_v() =~= pre.update(i as int, (pre[i as int].0, value@)));
                    lemma_assoc_map_update(pre, i as int, value@);
                }
            },
            None => {
                self.rows.push((key, value));
                proof {
                    assert(self.rows_v() =~= pre.push((key@, value@)));
                    lemma_assoc_map_push(pre, (key@, value@));
                }
            },
        }
    }

    /// Merge-on-write insert: the stored set becomes the union of what was
    /// there and the incoming value; rows of other keys are untouched.
    pub fn merge_insert(&mut self, key: &Vec<u8>, value: &DocIdSet)
        requires
            old(self).wf(),
            value.wf(),
        ensures
            final(self).wf(),
            final(self)@.dom() == old(self)@.dom().insert(key@),
            final(self)@.contains_key(key@),
            strictly_sorted(final(self)@[key@]),
            final(self)@[key@].to_set() == stored_part(old(self)@, key@).union(value@.to_set()),
            forall|k: Seq<u8>|
                #![auto]
                old(self)@.contains_key(k) && k != key@ ==> final(self)@.contains_key(k)
                    && final(self)@[k] == old(self)@[k],
    {
        let ghost pre = self.rows_v();
        proof {
            lemma_assoc_map_dom(pre);
        }
        match self.find(key) {
            Some(i) => {
                proof {
                    assert(pre[i as int].0 == key@);
                    assert(strictly_sorted(pre[i as int].1));
                    lemma_assoc_map_index(pre, i as int);
                }
                let merged = union(&self.rows[i].1, value);
                let k2 = copy_bytes(key);
                self.rows.set(i, (k2, merged));
                proof {
                    assert(self.rows_v() =~= pre.update(i as int, (pre[i as int].0, merged@)));
                    lemma_assoc_map_update(pre, i as int, merged@);
                    assert(final(self)@.dom() =~= old(self)@.dom().insert(key@));
                }
            },
            None => {
                proof {
                    assert(!has_key(pre, key@));
                    assert(!old(self)@.contains_key(key@));
                }
                self.rows.push((copy_bytes(key), value.duplicate()));
                proof {
                    assert(self.rows_v() =~= pre.push((key@, value@)));
                    lemma_assoc_map_push(pre, (key@, value@));
                    assert(final(self)@.dom() =~= old(self)@.dom().insert(key@));
                    assert(final(self)@[key@].to_set() =~= stored_part(old(self)@, key@).union(
                        value@.to_set(),
                    ));
                }
            },
        }
    }

    /// Bulk merge-load: every sorter row is merged into the store, unioning
    /// with any stored value rather than overwriting it.
    pub fn merge_load(&mut self, sorter: MergeSorter)
        requires
            old(self).wf(),
            sorter.wf(),
        ensures
            final(self).wf(),
            merged_with(old(self)@, rows_delta(sorter@), final(self)@),
    {
        let ghost orig = self@;
        proof {
            assert(sorter@.subrange(0, 0) =~= Seq::<(Seq<u8>, Seq<u32>)>::empty());
            assert(orig.dom() =~= orig.dom().union(
                rows_delta(sorter@.subrange(0, 0)).dom(),
            ));
        }
        let n = sorter.len();
        let mut i: usize = 0;
        while i < n
            invariant
                self.wf(),
                sorter.wf(),
                n == sorter@.len(),
                i <= n,
                merged_with(orig, rows_delta(sorter@.subrange(0, i as int)), self@),
            decreases n - i,
        {
            let r = sorter.row(i);
            let ghost pre = self@;
            let ghost d0 = rows_delta(sorter@.subrange(0, i as int));
            let ghost k = sorter@[i as int].0;
            let ghost vs = sorter@[i as int].1.to_set();
            self.merge_insert(&r.0, &r.1);
            proof {
                assert(sorter@.subrange(0, i + 1) =~= sorter@.subrange(0, i as int).push(
                    (k, sorter@[i as int].1),
                ));
                crate::deltas::lemma_rows_delta_push(
                    sorter@.subrange(0, i as int),
                    k,
                    sorter@[i as int].1,
                );
                let d1 = rows_delta(sorter@.subrange(0, i + 1));
                assert(d1 == join1(d0, k, vs));
                assert(self@.dom() =~= orig.dom().union(d1.dom())) by {
                    assert(self@.dom() =~= pre.dom().insert(k));
                }
                assert forall|kk: Seq<u8>|
                    #![auto]
                    orig.contains_key(kk) && !d1.contains_key(kk) implies self@.contains_key(kk)
                    && self@[kk] == orig[kk] by {
                    assert(kk != k);
                    assert(!d0.contains_key(kk));
                    assert(pre.contains_key(kk) && pre[kk] == orig[kk]);
                }
                assert forall|kk: Seq<u8>| #![auto] d1.contains_key(kk) implies self@.contains_key(
                    kk,
                ) && strictly_sorted(self@[kk]) && self@[kk].to_set() == stored_part(
                    orig,
                    kk,
                ).union(d1[kk]) by {
                    if kk == k {
                        if d0.contains_key(k) {
                            assert(pre[k].to_set() == stored_part(orig, k).union(d0[k]));
                            assert(stored_part(pre, k) == pre[k].to_set());
                            assert(self@[k].to_set() =~= stored_part(orig, k).union(d1[k]));
                        } else {
                            if orig.contains_key(k) {
                                assert(pre.contains_key(k) && pre[k] == orig[k]);
                                assert(self@[k].to_set() =~= stored_part(orig, k).union(d1[k]));
                            } else {
                                assert(!pre.contains_key(k)) by {
                                    assert(pre.dom() =~= orig.dom().union(d0.dom()));
                                }
                                assert(self@[k].to_set() =~= stored_part(orig, k).union(d1[k]));
                            }
                        }
                    } else {
                        assert(d1[kk] == d0[kk]);
                        assert(self@[kk] == pre[kk]);
                    }
                }
            }
            i += 1;
        }
        proof {
            assert(sorter@.subrange(0, n as int) =~= sorter@);
        }
    }

    /// Forward pass of the deletion phase: every row whose key decodes to a
    /// deleted prefix is removed; the pass decodes each visited key and fails
    /// on a malformed one, leaving the store unchanged. With no deleted
    /// prefixes the store is not visited at all.
    pub fn remove_deleted_prefixes(&mut self, deleted: &Vec<Vec<u8>>) -> (r: Result<(), Error>)
        requires
            old(self).wf(),
        ensures
            final(self).wf(),
            match r {
                Ok(()) => (deleted@.len() == 0 || forall|k: Seq<u8>|
                    #[trigger] old(self)@.contains_key(k) ==> spec_decodable(k)) && final(self)@
                    == kept_map(old(self)@, deleted.deep_view()),
                Err(e) => *final(self) == *old(self) && e == Error::Decoding(
                    Source::PrefixPostings,
                ) && deleted@.len() > 0 && exists|k: Seq<u8>|
                    #[trigger] old(self)@.contains_key(k) && !spec_decodable(k),
            },
    {
        let ghost rows0 = self.rows_v();
        proof {
            lemma_assoc_map_dom(rows0);
        }
        if deleted.len() == 0 {
            proof {
                assert(self@ =~= kept_map(self@, deleted.deep_view()));
            }
            return Ok(());
        }
        let mut out: Vec<(Vec<u8>, DocIdSet)> = Vec::new();
        let mut i: usize = 0;
        while i < self.rows.len()
            invariant
                rows0 == self.rows_v(),
                old(self).wf(),
                deleted@.len() > 0,
                i <= self.rows@.len(),
                rows0.len() == self.rows@.len(),
                forall|j: int| 0 <= j < i ==> spec_decodable(rows0[j].0),
                rows_view(out@) =~= deleted_filter(rows0.subrange(0, i as int), deleted.deep_view()),
                forall|j: int| 0 <= j < out@.len() ==> strictly_sorted(rows_view(out@)[j].1),
            decreases self.rows@.len() - i,
        {
            let ghost pre_out = rows_view(out@);
            assert(rows0[i as int] == (self.rows@[i as int].0@, self.rows@[i as int].1@));
            match crate::keys::decode_key(&self.rows[i].0) {
                None => {
                    proof {
                        lemma_assoc_map_dom(rows0);
                        let bad = rows0[i as int].0;
                        assert(bad == self.rows@[i as int].0@);
                        assert(!spec_decodable(bad));
                        assert((i as int) < rows0.len() && rows0[i as int].0 == bad);
                        assert(has_key(rows0, bad));
                        assert(assoc_map(rows0).contains_key(bad));
                        assert(old(self)@.contains_key(bad));
                    }
                    return Err(Error::Decoding(Source::PrefixPostings));
                },
                Some(wp) => {
                    proof {
                        assert(wp.0@ == spec_decoded_word(rows0[i as int].0));
                    }
                    if !contains_bytes(deleted, &wp.0) {
                        out.push((copy_bytes(&self.rows[i].0), self.rows[i].1.duplicate()));
                        proof {
                            assert(rows_view(out@) =~= pre_out.push(rows0[i as int]));
                        }
                    }
                    proof {
                        assert(rows0.subrange(0, i + 1).drop_last() =~= rows0.subrange(
                            0,
                            i as int,
                        ));
                        assert(rows0.subrange(0, i + 1).last() == rows0[i as int]);
                        assert(rows_view(out@) =~= deleted_filter(
                            rows0.subrange(0, i + 1),
                            deleted.deep_view(),
                        ));
                    }
                },
            }
            i += 1;
        }
        proof {
            lemma_assoc_map_dom(rows0);
            assert(rows0.subrange(0, rows0.len() as int) =~= rows0);
            lemma_deleted_filter(rows0, deleted.deep_view());
            assert forall|k: Seq<u8>| #[trigger] old(self)@.contains_key(k) implies spec_decodable(
                k,
            ) by {
                assert(assoc_map(rows0).contains_key(k));
                assert(has_key(rows0, k));
                let j = choose|j: int| 0 <= j < rows0.len() && rows0[j].0 == k;
                assert(spec_decodable(rows0[j].0));
            }
        }
        self.rows = out;
        proof {
            assert(self.rows_v() =~= deleted_filter(rows0, deleted.deep_view()));
        }
        Ok(())
    }
}

/// With unique keys, the denoted map has as many keys as there are rows.
pub proof fn lemma_unique_rows_len(rows: Seq<(Seq<u8>, Seq<u32>)>)
    requires
        unique_keys(rows),
    ensures
        assoc_map(rows).dom().len() == rows.len(),
        assoc_map(rows).dom().finite(),
    decreases rows.len(),
{
    if rows.len() == 0 {
        assert(assoc_map(rows).dom() =~= Set::<Seq<u8>>::empty());
    } else {
        lemma_unique_rows_len(rows.drop_last());
        lemma_assoc_map_dom(rows.drop_last());
        assert(!has_key(rows.drop_last(), rows.last().0));
        assert(assoc_map(rows).dom() =~= assoc_map(rows.drop_last()).dom().insert(rows.last().0));
    }
}

} // verus!
