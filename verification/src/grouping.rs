//! The grouping cache of the common-prefix phase: a mapping from an encoded
//! prefix key to the ordered document-id-set fragments accumulated for it and
//! not yet merged. The cache is flushed into the sorter on every group switch,
//! which bounds it to one group's fragments at a time.

use vstd::prelude::*;
use crate::deltas::{join, join1, lemma_join_assoc, lemma_join_empty, lemma_join_join1,
    lemma_join1_join_other, lemma_rows_delta_push, rows_delta};
use crate::docids::{strictly_sorted, DocIdSet};
use crate::keys::{bytes_eq, copy_bytes, spec_valid_key, valid_key};
use crate::sorter::MergeSorter;

verus! {

/// The mathematical reading of a fragment list.
pub open spec fn frags_view(s: Seq<DocIdSet>) -> Seq<Seq<u32>> {
    s.map(|j: int, d: DocIdSet| d@)
}

/// The mathematical reading of one cache entry.
pub open spec fn entry_view(e: (Vec<u8>, Vec<DocIdSet>)) -> (Seq<u8>, Seq<Seq<u32>>) {
    (e.0@, frags_view(e.1@))
}

/// The members contributed by an ordered list of fragments.
pub open spec fn frags_union(frags: Seq<Seq<u32>>) -> Set<u32>
    decreases frags.len(),
{
    if frags.len() == 0 {
        Set::empty()
    } else {
        frags_union(frags.drop_last()).union(frags.last().to_set())
    }
}

/// What one cache entry contributes once flushed: nothing when its key fails
/// the validity guard, else its fragments' members under its key.
pub open spec fn entry_delta(k: Seq<u8>, frags: Seq<Seq<u32>>) -> Map<Seq<u8>, Set<u32>> {
    if spec_valid_key(k) && frags.len() > 0 {
        Map::empty().insert(k, frags_union(frags))
    } else {
        Map::empty()
    }
}

/// What the whole cache contributes once flushed.
pub open spec fn cache_delta(entries: Seq<(Seq<u8>, Seq<Seq<u32>>)>) -> Map<Seq<u8>, Set<u32>>
    decreases entries.len(),
{
    if entries.len() == 0 {
        Map::empty()
    } else {
        join(cache_delta(entries.drop_last()), entry_delta(entries.last().0, entries.last().1))
    }
}

/// Appending a fragment to a valid-key entry list adds its members under the
/// key, relative to any surrounding contribution.
pub proof fn lemma_join_entry_push(
    x: Map<Seq<u8>, Set<u32>>,
    k: Seq<u8>,
    frags: Seq<Seq<u32>>,
    f: Seq<u32>,
)
    ensures
        spec_valid_key(k) ==> join(x, entry_delta(k, frags.push(f))) == join1(
            join(x, entry_delta(k, frags)),
            k,
            f.to_set(),
        ),
        !spec_valid_key(k) ==> entry_delta(k, frags.push(f)) == entry_delta(k, frags),
{
    assert(frags.push(f).drop_last() =~= frags);
    assert(frags.push(f).last() == f);
    if spec_valid_key(k) {
        assert(frags_union(frags.push(f)) == frags_union(frags).union(f.to_set()));
        assert(join(x, entry_delta(k, frags.push(f))) =~~= join1(
            join(x, entry_delta(k, frags)),
            k,
            f.to_set(),
        ));
    }
}

/// The in-memory grouping cache.
pub struct GroupingCache {
    entries: Vec<(Vec<u8>, Vec<DocIdSet>)>,
}

impl View for GroupingCache {
    type V = Seq<(Seq<u8>, Seq<Seq<u32>>)>;

    closed spec fn view(&self) -> Seq<(Seq<u8>, Seq<Seq<u32>>)> {
        self.entries@.map(|i: int, e: (Vec<u8>, Vec<DocIdSet>)| entry_view(e))
    }
}

impl GroupingCache {
    /// Well-formed: keys unique, every entry holds at least one fragment, and
    /// every fragment is a well-formed document-id set.
    pub open spec fn wf(self) -> bool {
        &&& forall|i: int, j: int| 0 <= i < j < self@.len() ==> self@[i].0 != self@[j].0
        &&& forall|i: int| 0 <= i < self@.len() ==> self@[i].1.len() > 0
        &&& forall|i: int, j: int|
            0 <= i < self@.len() && 0 <= j < self@[i].1.len() ==> strictly_sorted(self@[i].1[j])
    }

    /// What the cache contributes once flushed.
    pub open spec fn delta(self) -> Map<Seq<u8>, Set<u32>> {
        cache_delta(self@)
    }

    /// A fresh, empty cache.
    pub fn new() -> (r: GroupingCache)
        ensures
            r.wf(),
            r@.len() == 0,
            r.delta() == Map::<Seq<u8>, Set<u32>>::empty(),
    {
        let r = GroupingCache { entries: Vec::new() };
        proof {
            assert(r@ =~= Seq::<(Seq<u8>, Seq<Seq<u32>>)>::empty());
        }
        r
    }

    fn find(&self, key: &Vec<u8>) -> (r: Option<usize>)
        ensures
            match r {
                Some(i) => i < self@.len() && self@[i as int].0 == key@,
                None => forall|j: int| 0 <= j < self@.len() ==> self@[j].0 != key@,
            },
    {
        let mut i: usize = 0;
        while i < self.entries.len()
            invariant
                i <= self.entries.len(),
                self@.len() == self.entries@.len(),
                forall|j: int| 0 <= j < i ==> self@[j].0 != key@,
            decreases self.entries.len() - i,
        {
            assert(self@[i as int].0 == self.entries@[i as int].0@);
            if bytes_eq(&self.entries[i].0, key) {
                return Some(i);
            }
            i += 1;
        }
        None
    }

    /// Append one fragment under a key, creating the entry if the key is new.
    /// The contribution grows by the fragment's members under the key, or not
    /// at all when the key fails the validity guard.
    pub fn append(&mut self, key: &Vec<u8>, frag: &DocIdSet)
        requires
            old(self).wf(),
            frag.wf(),
        ensures
            final(self).wf(),
            final(self).delta() == (if spec_valid_key(key@) {
                join1(old(self).delta(), key@, frag@.to_set())
            } else {
                old(self).delta()
            }),
    {
        let ghost pre = self@;
        match self.find(key) {
            Some(i) => {
                proof {
                    assert(pre[i as int] == entry_view(self.entries@[i as int]));
                }
                let mut frags: Vec<DocIdSet> = Vec::new();
                let n = self.entries[i].1.len();
                let mut j: usize = 0;
                while j < n
                    invariant
                        j <= n,
                        self@ == pre,
                        (i as int) < pre.len(),
                        pre[i as int] == entry_view(self.entries@[i as int]),
                        n == pre[i as int].1.len(),
                        n == self.entries@[i as int].1@.len(),
                        self.wf(),
                        frags_view(frags@) =~= pre[i as int].1.subrange(0, j as int),
                    decreases n - j,
                {
                    let ghost pf = frags@;
                    assert(pre[i as int].1[j as int] == self.entries@[i as int].1@[j as int]@);
                    frags.push(self.entries[i].1[j].duplicate());
                    proof {
                        assert(frags_view(frags@) =~= frags_view(pf).push(
                            pre[i as int].1[j as int],
                        ));
                        assert(frags_view(frags@) =~= pre[i as int].1.subrange(0, j + 1));
                    }
                    j += 1;
                }
                let ghost pf = frags@;
                frags.push(frag.duplicate());
                proof {
                    assert(pre[i as int].1.subrange(0, pre[i as int].1.len() as int) =~= pre[
                        i as int].1);
                    assert(frags_view(frags@) =~= frags_view(pf).push(frag@));
                    assert(frags_view(frags@) =~= pre[i as int].1.push(frag@));
                }
                let k2 = copy_bytes(&self.entries[i].0);
                self.entries.set(i, (k2, frags));
                proof {
                    assert(self@ =~= pre.update(i as int, (key@, pre[i as int].1.push(frag@))));
                    lemma_cache_delta_update(pre, i as int, frag@);
                }
            },
            None => {
                let mut frags: Vec<DocIdSet> = Vec::new();
                frags.push(frag.duplicate());
                let ghost fv = frags_view(frags@);
                proof {
                    assert(fv =~= seq![frag@]);
                }
                self.entries.push((copy_bytes(key), frags));
                proof {
                    assert(self@ =~= pre.push((key@, seq![frag@])));
                    assert(self@.drop_last() =~= pre);
                    assert(self@.last() == (key@, seq![frag@]));
                    assert(seq![frag@].drop_last() =~= Seq::<Seq<u32>>::empty());
                    assert(frags_union(Seq::<Seq<u32>>::empty()) =~= Set::<u32>::empty());
                    assert(frags_union(seq![frag@]) =~= frag@.to_set());
                    if spec_valid_key(key@) {
                        assert(self.delta() =~~= join1(cache_delta(pre), key@, frag@.to_set()));
                    } else {
                        assert(self.delta() =~~= cache_delta(pre));
                    }
                }
            },
        }
    }

    /// Flush the cache into the sorter and clear it: every fragment of every
    /// valid-key entry becomes one sorter row; invalid keys are silently
    /// dropped. The sorter's delta grows by exactly the cache's contribution.
    pub fn flush_into(&mut self, sorter: &mut MergeSorter)
        requires
            old(self).wf(),
            old(sorter).wf(),
        ensures
            final(self).wf(),
            final(sorter).wf(),
            final(self)@.len() == 0,
            rows_delta(final(sorter)@) == join(rows_delta(old(sorter)@), old(self).delta()),
    {
        let ghost rd0 = rows_delta(sorter@);
        let ghost cache0 = self@;
        let n = self.entries.len();
        proof {
            lemma_join_empty(rd0);
            assert(cache0.subrange(0, 0) =~= Seq::<(Seq<u8>, Seq<Seq<u32>>)>::empty());
        }
        let mut i: usize = 0;
        while i < n
            invariant
                self.wf(),
                sorter.wf(),
                self@ == cache0,
                n == self.entries@.len(),
                cache0.len() == n,
                i <= n,
                rows_delta(sorter@) == join(rd0, cache_delta(cache0.subrange(0, i as int))),
            decreases n - i,
        {
            let ghost x = join(rd0, cache_delta(cache0.subrange(0, i as int)));
            let ghost k = cache0[i as int].0;
            let ghost frags = cache0[i as int].1;
            assert(k == self.entries@[i as int].0@);
            let is_valid = valid_key(&self.entries[i].0);
            let m = self.entries[i].1.len();
            proof {
                assert(frags == frags_view(self.entries@[i as int].1@));
                assert(m == frags.len());
                assert(frags.subrange(0, 0) =~= Seq::<Seq<u32>>::empty());
                lemma_join_empty(x);
                assert(entry_delta(k, frags.subrange(0, 0)) =~= Map::<Seq<u8>, Set<u32>>::empty());
            }
            let mut j: usize = 0;
            while j < m
                invariant
                    self.wf(),
                    sorter.wf(),
                    self@ == cache0,
                    cache0.len() == n,
                    n == self.entries@.len(),
                    (i as int) < n,
                    k == cache0[i as int].0,
                    frags == cache0[i as int].1,
                    k == self.entries@[i as int].0@,
                    is_valid == spec_valid_key(k),
                    m == frags.len(),
                    j <= m,
                    x == join(rd0, cache_delta(cache0.subrange(0, i as int))),
                    rows_delta(sorter@) == join(x, entry_delta(k, frags.subrange(0, j as int))),
                decreases m - j,
            {
                let ghost pre_sorter = sorter@;
                let ghost fj = frags[j as int];
                assert(fj == self.entries@[i as int].1@[j as int]@);
                if is_valid {
                    let kc = copy_bytes(&self.entries[i].0);
                    let d = self.entries[i].1[j].duplicate();
                    proof {
                        assert(strictly_sorted(fj));
                    }
                    sorter.insert(kc, d);
                    proof {
                        lemma_rows_delta_push(pre_sorter, k, fj);
                    }
                }
                proof {
                    assert(frags.subrange(0, j + 1) =~= frags.subrange(0, j as int).push(fj));
                    lemma_join_entry_push(x, k, frags.subrange(0, j as int), fj);
                    if is_valid {
                        lemma_join_join1(x, entry_delta(k, frags.subrange(0, j as int)), k,
                            fj.to_set());
                        assert(rows_delta(sorter@) == join(x, entry_delta(k, frags.subrange(
                            0,
                            j + 1,
                        ))));
                    } else {
                        assert(entry_delta(k, frags.subrange(0, j + 1)) == entry_delta(k,
                            frags.subrange(0, j as int)));
                    }
                }
                j += 1;
            }
            proof {
                assert(frags.subrange(0, m as int) =~= frags);
                assert(cache0.subrange(0, i + 1).drop_last() =~= cache0.subrange(0, i as int));
                assert(cache0.subrange(0, i + 1).last() == cache0[i as int]);
                lemma_join_assoc(rd0, cache_delta(cache0.subrange(0, i as int)), entry_delta(
                    k,
                    frags,
                ));
                assert(rows_delta(sorter@) == join(rd0, cache_delta(cache0.subrange(0, i + 1))));
            }
            i += 1;
        }
        self.entries = Vec::new();
        proof {
            assert(cache0.subrange(0, n as int) =~= cache0);
            assert(self@ =~= Seq::<(Seq<u8>, Seq<Seq<u32>>)>::empty());
        }
    }
}

/// Appending a fragment to the entry of a key no later entry duplicates adds
/// the fragment's members under that key (or nothing, for an invalid key).
pub proof fn lemma_cache_delta_update(entries: Seq<(Seq<u8>, Seq<Seq<u32>>)>, i: int, f: Seq<u32>)
    requires
        0 <= i < entries.len(),
        forall|j: int| i < j < entries.len() ==> entries[j].0 != entries[i].0,
        entries[i].1.len() > 0,
    ensures
        cache_delta(entries.update(i, (entries[i].0, entries[i].1.push(f)))) == (if spec_valid_key(
            entries[i].0,
        ) {
            join1(cache_delta(entries), entries[i].0, f.to_set())
        } else {
            cache_delta(entries)
        }),
    decreases entries.len(),
{
    let k = entries[i].0;
    let upd = entries.update(i, (k, entries[i].1.push(f)));
    if i == entries.len() - 1 {
        assert(upd.drop_last() =~= entries.drop_last());
        assert(upd.last() == (k, entries[i].1.push(f)));
        lemma_join_entry_push(cache_delta(entries.drop_last()), k, entries[i].1, f);
        if !spec_valid_key(k) {
            assert(cache_delta(upd) == cache_delta(entries));
        }
    } else {
        assert(entries.drop_last()[i] == entries[i]);
        lemma_cache_delta_update(entries.drop_last(), i, f);
        assert(upd.drop_last() =~= entries.drop_last().update(i, (k, entries[i].1.push(f))));
        assert(upd.last() == entries.last());
        let ed_last = entry_delta(entries.last().0, entries.last().1);
        if spec_valid_key(k) {
            assert(!ed_last.contains_key(k)) by {
                assert(entries.last().0 != k);
            }
            lemma_join1_join_other(cache_delta(entries.drop_last()), ed_last, k, f.to_set());
        }
    }
}

} // verus!
