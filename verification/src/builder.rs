//! The prefix-postings builder: the three-phase rebuild/merge algorithm that
//! keeps the prefix database consistent with the word database across
//! incremental updates.
//!
//! Phase one streams the change stream once, classifying each word into the
//! common-prefix group whose representative it starts with and accumulating
//! fragments in the grouping cache, which is flushed on every group switch.
//! Phase two rebuilds brand-new prefixes from scratch by scanning the word
//! database. Phase three deletes the rows of prefixes that no longer exist.
//! Finally all candidate rows are merge-loaded into the prefix database,
//! unioning with stored values rather than overwriting them.

use vstd::prelude::*;
use crate::deltas::{join, join1, lemma_join_assoc, lemma_join_empty, lemma_join_join1,
    lemma_rows_delta_push, merged_with, rows_delta};
use crate::docids::{strictly_sorted, DocIdSet};
use crate::errors::{Error, Source};
use crate::grouping::GroupingCache;
use crate::keys::{decode_key, encode_key, is_prefix_of, lemma_prefix_comparable, spec_decodable,
    spec_decoded_pos, spec_decoded_word, spec_encode_key, spec_valid_key, starts_with, valid_key};
use crate::sorter::MergeSorter;
use crate::store::{kept_map, rows_view, PostingsStore};

verus! {

/// Well-formed common-prefix groups: every group is non-empty, and no two
/// group representatives are prefixes of one another, so a word matches the
/// representative of at most one group.
pub open spec fn wf_groups(groups: Seq<Seq<Seq<u8>>>) -> bool {
    &&& forall|i: int| 0 <= i < groups.len() ==> (#[trigger] groups[i]).len() > 0
    &&& forall|i: int, j: int|
        0 <= i < j < groups.len() ==> !is_prefix_of(#[trigger] groups[i][0], #[trigger] groups[j][0])
            && !is_prefix_of(groups[j][0], groups[i][0])
}

/// The first group, from position `i` on, whose representative the word
/// starts with.
pub open spec fn first_match_from(groups: Seq<Seq<Seq<u8>>>, w: Seq<u8>, i: int) -> Option<int>
    decreases groups.len() - i,
    when 0 <= i
{
    if i >= groups.len() {
        None
    } else if groups[i].len() > 0 && is_prefix_of(groups[i][0], w) {
        Some(i)
    } else {
        first_match_from(groups, w, i + 1)
    }
}

/// The group a word is classified into.
pub open spec fn first_match(groups: Seq<Seq<Seq<u8>>>, w: Seq<u8>) -> Option<int> {
    first_match_from(groups, w, 0)
}

proof fn lemma_first_match_from_is(groups: Seq<Seq<Seq<u8>>>, w: Seq<u8>, g: int, i: int)
    requires
        wf_groups(groups),
        0 <= i <= g < groups.len(),
        is_prefix_of(groups[g][0], w),
    ensures
        first_match_from(groups, w, i) == Some(g),
    decreases g - i,
{
    if i == g {
    } else {
        assert(!is_prefix_of(groups[i][0], w)) by {
            if is_prefix_of(groups[i][0], w) {
                if groups[i][0].len() <= groups[g][0].len() {
                    lemma_prefix_comparable(groups[i][0], groups[g][0], w);
                } else {
                    lemma_prefix_comparable(groups[g][0], groups[i][0], w);
                }
            }
        }
        lemma_first_match_from_is(groups, w, g, i + 1);
    }
}

/// With well-formed groups, matching any group's representative pins the
/// classification to that group.
pub proof fn lemma_first_match_is(groups: Seq<Seq<Seq<u8>>>, w: Seq<u8>, g: int)
    requires
        wf_groups(groups),
        0 <= g < groups.len(),
        is_prefix_of(groups[g][0], w),
    ensures
        first_match(groups, w) == Some(g),
{
    lemma_first_match_from_is(groups, w, g, 0);
}

/// What one change-stream entry contributes within its group: one row per
/// prefix of the group that the word starts with, under the prefix's encoded
/// key, dropped by the validity guard where that key is invalid.
pub open spec fn group_delta(w: Seq<u8>, pos: u16, v: Seq<u32>, prefixes: Seq<Seq<u8>>) -> Map<
    Seq<u8>,
    Set<u32>,
>
    decreases prefixes.len(),
{
    if prefixes.len() == 0 {
        Map::empty()
    } else {
        let m = group_delta(w, pos, v, prefixes.drop_last());
        let q = prefixes.last();
        if is_prefix_of(q, w) && spec_valid_key(spec_encode_key(q, pos)) {
            join1(m, spec_encode_key(q, pos), v.to_set())
        } else {
            m
        }
    }
}

/// What one change-stream entry contributes: nothing when its word matches no
/// group, else its contribution within the matched group.
pub open spec fn entry_p1_delta(groups: Seq<Seq<Seq<u8>>>, k: Seq<u8>, v: Seq<u32>) -> Map<
    Seq<u8>,
    Set<u32>,
> {
    if !spec_decodable(k) {
        Map::empty()
    } else {
        match first_match(groups, spec_decoded_word(k)) {
            None => Map::empty(),
            Some(g) => group_delta(spec_decoded_word(k), spec_decoded_pos(k), v, groups[g]),
        }
    }
}

/// What the whole common-prefix phase contributes. With no common-prefix
/// groups the change stream is not read at all.
pub open spec fn p1_delta(changed: Seq<(Seq<u8>, Seq<u32>)>, groups: Seq<Seq<Seq<u8>>>) -> Map<
    Seq<u8>,
    Set<u32>,
>
    decreases changed.len(),
{
    if groups.len() == 0 {
        Map::empty()
    } else if changed.len() == 0 {
        Map::empty()
    } else {
        join(
            p1_delta(changed.drop_last(), groups),
            entry_p1_delta(groups, changed.last().0, changed.last().1),
        )
    }
}

/// What scanning the word database for one new prefix contributes: one row
/// per word-database row inside the prefix's byte range whose word starts
/// with the prefix, under the prefix's encoded key.
pub open spec fn scan_delta(p: Seq<u8>, rows: Seq<(Seq<u8>, Seq<u32>)>) -> Map<Seq<u8>, Set<u32>>
    decreases rows.len(),
{
    if rows.len() == 0 {
        Map::empty()
    } else {
        let m = scan_delta(p, rows.drop_last());
        let k = rows.last().0;
        let v = rows.last().1;
        if is_prefix_of(p, k) && spec_decodable(k) && is_prefix_of(p, spec_decoded_word(k))
            && spec_valid_key(spec_encode_key(p, spec_decoded_pos(k))) {
            join1(m, spec_encode_key(p, spec_decoded_pos(k)), v.to_set())
        } else {
            m
        }
    }
}

/// What the whole new-prefix phase contributes.
pub open spec fn p2_delta(new: Seq<Seq<u8>>, rows: Seq<(Seq<u8>, Seq<u32>)>) -> Map<
    Seq<u8>,
    Set<u32>,
>
    decreases new.len(),
{
    if new.len() == 0 {
        Map::empty()
    } else {
        join(p2_delta(new.drop_last(), rows), scan_delta(new.last(), rows))
    }
}

/// When the build succeeds: every key it must decode is decodable. The
/// change stream is decoded only when common-prefix groups exist, a
/// word-database key only when a new prefix's byte range covers it, and the
/// prefix database only when there are deleted prefixes.
pub open spec fn inputs_ok(
    changed: Seq<(Seq<u8>, Seq<u32>)>,
    groups: Seq<Seq<Seq<u8>>>,
    new: Seq<Seq<u8>>,
    word_rows: Seq<(Seq<u8>, Seq<u32>)>,
    prefix_db: Map<Seq<u8>, Seq<u32>>,
    deleted: Seq<Seq<u8>>,
) -> bool {
    &&& (groups.len() == 0 || forall|i: int|
        0 <= i < changed.len() ==> spec_decodable(#[trigger] changed[i].0))
    &&& (forall|i: int, j: int|
        0 <= i < new.len() && 0 <= j < word_rows.len() && is_prefix_of(
            #[trigger] new[i],
            #[trigger] word_rows[j].0,
        ) ==> spec_decodable(word_rows[j].0))
    &&& (deleted.len() == 0 || forall|k: Seq<u8>|
        #[trigger] prefix_db.contains_key(k) ==> spec_decodable(k))
}

/// The first group whose representative the word starts with, scanning the
/// groups in order.
pub fn find_group(groups: &Vec<Vec<Vec<u8>>>, w: &Vec<u8>) -> (r: Option<usize>)
    requires
        forall|i: int|
            0 <= i < groups.deep_view().len() ==> (#[trigger] groups.deep_view()[i]).len() > 0,
    ensures
        match r {
            Some(g) => g < groups@.len() && first_match(groups.deep_view(), w@) == Some(g as int),
            None => first_match(groups.deep_view(), w@) is None,
        },
{
    let ghost gv = groups.deep_view();
    let mut i: usize = 0;
    while i < groups.len()
        invariant
            i <= groups@.len(),
            gv == groups.deep_view(),
            gv.len() == groups@.len(),
            forall|j: int| 0 <= j < gv.len() ==> (#[trigger] gv[j]).len() > 0,
            first_match(gv, w@) == first_match_from(gv, w@, i as int),
        decreases groups@.len() - i,
    {
        proof {
            assert(gv[i as int] == groups@[i as int].deep_view());
            assert(groups@[i as int].deep_view().len() == groups@[i as int]@.len());
            assert(gv[i as int][0] == groups@[i as int]@[0].deep_view());
            assert(groups@[i as int]@[0].deep_view() =~= groups@[i as int]@[0]@);
        }
        if starts_with(w, &groups[i][0]) {
            return Some(i);
        }
        i += 1;
    }
    None
}

/// The prefix-postings builder: exclusive write access to the prefix
/// database and a read handle on the word database, for one build.
pub struct WordPrefixIntegerDocids {
    /// The prefix-postings database being maintained.
    pub prefix_database: PostingsStore,
    /// The word-postings database, the source of truth.
    pub word_database: PostingsStore,
}

impl WordPrefixIntegerDocids {
    /// A builder over the two databases.
    pub fn new(prefix_database: PostingsStore, word_database: PostingsStore) -> (r:
        WordPrefixIntegerDocids)
        ensures
            r.prefix_database == prefix_database,
            r.word_database == word_database,
    {
        WordPrefixIntegerDocids { prefix_database, word_database }
    }

    /// Run the three-phase build and commit it.
    ///
    /// `changed` is the change stream of word postings, with encoded keys;
    /// `new_prefixes` the prefixes absent before and present now;
    /// `common_prefix_groups` the prefixes present before and now, grouped
    /// under a representative; `deleted_prefixes` the prefixes present before
    /// and absent now. On success the prefix database holds, for every key
    /// the phases touch, the union of what was stored (deleted prefixes
    /// first removed) and the contributions of the phases; on failure it is
    /// exactly as before, and a failure happens if and only if some key that
    /// had to be decoded was malformed.
    pub fn execute(
        &mut self,
        changed: &Vec<(Vec<u8>, DocIdSet)>,
        new_prefixes: &Vec<Vec<u8>>,
        common_prefix_groups: &Vec<Vec<Vec<u8>>>,
        deleted_prefixes: &Vec<Vec<u8>>,
    ) -> (r: Result<(), Error>)
        requires
            old(self).prefix_database.wf(),
            old(self).word_database.wf(),
            wf_groups(common_prefix_groups.deep_view()),
            forall|i: int|
                0 <= i < changed@.len() ==> strictly_sorted(
                    #[trigger] rows_view(changed@)[i].1,
                ),
        ensures
            final(self).word_database == old(self).word_database,
            final(self).prefix_database.wf(),
            match r {
                Ok(()) => inputs_ok(
                    rows_view(changed@),
                    common_prefix_groups.deep_view(),
                    new_prefixes.deep_view(),
                    old(self).word_database.rows_v(),
                    old(self).prefix_database@,
                    deleted_prefixes.deep_view(),
                ) && merged_with(
                    kept_map(old(self).prefix_database@, deleted_prefixes.deep_view()),
                    join(
                        p1_delta(rows_view(changed@), common_prefix_groups.deep_view()),
                        p2_delta(
                            new_prefixes.deep_view(),
                            old(self).word_database.rows_v(),
                        ),
                    ),
                    final(self).prefix_database@,
                ),
                Err(e) => final(self).prefix_database@ == old(self).prefix_database@
                    && !inputs_ok(
                    rows_view(changed@),
                    common_prefix_groups.deep_view(),
                    new_prefixes.deep_view(),
                    old(self).word_database.rows_v(),
                    old(self).prefix_database@,
                    deleted_prefixes.deep_view(),
                ),
            },
    {
        let ghost cv = rows_view(changed@);
        let ghost gv = common_prefix_groups.deep_view();
        let ghost nv = new_prefixes.deep_view();
        let ghost dv = deleted_prefixes.deep_view();
        let ghost wrows = self.word_database.rows_v();
        let ghost db0 = self.prefix_database@;

        let mut sorter = MergeSorter::new();

        // Phase 1: common-prefix delta, streaming the change stream once.
        if common_prefix_groups.len() > 0 {
            let mut cache = GroupingCache::new();
            let mut cur: Option<usize> = None;
            proof {
                assert(gv.len() == common_prefix_groups@.len());
                assert(cv.subrange(0, 0) =~= Seq::<(Seq<u8>, Seq<u32>)>::empty());
                assert(rows_delta(sorter@) =~~= Map::<Seq<u8>, Set<u32>>::empty());
                lemma_join_empty(Map::<Seq<u8>, Set<u32>>::empty());
                assert(join(rows_delta(sorter@), cache.delta()) =~~= p1_delta(
                    cv.subrange(0, 0),
                    gv,
                ));
            }
            let mut i: usize = 0;
            while i < changed.len()
                invariant
                    i <= changed@.len(),
                    cv == rows_view(changed@),
                    cv.len() == changed@.len(),
                    gv == common_prefix_groups.deep_view(),
                    gv.len() == common_prefix_groups@.len(),
                    gv.len() > 0,
                    wf_groups(gv),
                    forall|ii: int| 0 <= ii < cv.len() ==> strictly_sorted(#[trigger] cv[ii].1),
                    sorter.wf(),
                    cache.wf(),
                    self.prefix_database == old(self).prefix_database,
                    self.word_database == old(self).word_database,
                    old(self).prefix_database.wf(),
                    forall|j: int| 0 <= j < i ==> spec_decodable(#[trigger] cv[j].0),
                    join(rows_delta(sorter@), cache.delta()) == p1_delta(
                        cv.subrange(0, i as int),
                        gv,
                    ),
                    match cur {
                        None => cache@.len() == 0,
                        Some(g) => (g as int) < gv.len(),
                    },
                decreases changed@.len() - i,
            {
                proof {
                    assert(cv[i as int] == (changed@[i as int].0@, changed@[i as int].1@));
                }
                match decode_key(&changed[i].0) {
                    None => {
                        proof {
                            assert(!spec_decodable(cv[i as int].0));
                        }
                        return Err(Error::Decoding(Source::ChangedPostings));
                    },
                    Some(wp) => {
                        let (w, pos) = wp;
                        proof {
                            assert(w@ == spec_decoded_word(cv[i as int].0));
                            assert(pos == spec_decoded_pos(cv[i as int].0));
                        }
                        let mut keep: bool = false;
                        match cur {
                            Some(g) => {
                                proof {
                                    assert(gv[g as int] == common_prefix_groups@[
                                        g as int].deep_view());
                                    assert(gv[g as int].len() == common_prefix_groups@[
                                        g as int]@.len());
                                    assert(gv[g as int][0] == common_prefix_groups@[g as int]@[
                                        0].deep_view());
                                    assert(common_prefix_groups@[g as int]@[0].deep_view()
                                        =~= common_prefix_groups@[g as int]@[0]@);
                                }
                                if starts_with(&w, &common_prefix_groups[g][0]) {
                                    keep = true;
                                    proof {
                                        lemma_first_match_is(gv, w@, g as int);
                                    }
                                }
                            },
                            None => {},
                        };
                        if !keep {
                            cache.flush_into(&mut sorter);
                            cur = find_group(common_prefix_groups, &w);
                            proof {
                                lemma_join_empty(rows_delta(sorter@));
                                assert(cache.delta() =~~= Map::<Seq<u8>, Set<u32>>::empty());
                                assert(join(rows_delta(sorter@), cache.delta()) == p1_delta(
                                    cv.subrange(0, i as int),
                                    gv,
                                ));
                            }
                        }
                        proof {
                            assert(match cur {
                                Some(g) => first_match(gv, w@) == Some(g as int),
                                None => first_match(gv, w@) is None,
                            });
                        }
                        match cur {
                            Some(g) => {
                                let ghost x0 = join(rows_delta(sorter@), cache.delta());
                                let ghost prefixes = gv[g as int];
                                proof {
                                    assert(gv[g as int] == common_prefix_groups@[
                                        g as int].deep_view());
                                    assert(prefixes.len() == common_prefix_groups@[
                                        g as int]@.len());
                                    assert(prefixes.subrange(0, 0) =~= Seq::<Seq<u8>>::empty());
                                    lemma_join_empty(x0);
                                    assert(group_delta(w@, pos, cv[i as int].1, prefixes.subrange(
                                        0,
                                        0,
                                    )) =~~= Map::<Seq<u8>, Set<u32>>::empty());
                                }
                                let glen = common_prefix_groups[g].len();
                                let mut q: usize = 0;
                                while q < glen
                                    invariant
                                        q <= glen,
                                        (g as int) < gv.len(),
                                        gv == common_prefix_groups.deep_view(),
                                        gv.len() == common_prefix_groups@.len(),
                                        prefixes == gv[g as int],
                                        glen == prefixes.len(),
                                        glen == common_prefix_groups@[g as int]@.len(),
                                        (i as int) < cv.len(),
                                        cv == rows_view(changed@),
                                        cv.len() == changed@.len(),
                                        w@ == spec_decoded_word(cv[i as int].0),
                                        pos == spec_decoded_pos(cv[i as int].0),
                                        cv[i as int].1 == changed@[i as int].1@,
                                        strictly_sorted(cv[i as int].1),
                                        sorter.wf(),
                                        cache.wf(),
                                        join(rows_delta(sorter@), cache.delta()) == join(
                                            x0,
                                            group_delta(
                                                w@,
                                                pos,
                                                cv[i as int].1,
                                                prefixes.subrange(0, q as int),
                                            ),
                                        ),
                                    decreases glen - q,
                                {
                                    let ghost gd = group_delta(
                                        w@,
                                        pos,
                                        cv[i as int].1,
                                        prefixes.subrange(0, q as int),
                                    );
                                    proof {
                                        assert(prefixes[q as int] == common_prefix_groups@[
                                            g as int]@[q as int].deep_view());
                                        assert(common_prefix_groups@[g as int]@[
                                            q as int].deep_view() =~= common_prefix_groups@[
                                            g as int]@[q as int]@);
                                        assert(prefixes.subrange(0, q + 1).drop_last()
                                            =~= prefixes.subrange(0, q as int));
                                        assert(prefixes.subrange(0, q + 1).last() == prefixes[
                                            q as int]);
                                    }
                                    if starts_with(&w, &common_prefix_groups[g][q]) {
                                        let ek = encode_key(&common_prefix_groups[g][q], pos);
                                        let ghost cd0 = cache.delta();
                                        let ghost vs = cv[i as int].1.to_set();
                                        proof {
                                            assert(ek@ == spec_encode_key(prefixes[q as int],
                                                pos));
                                            assert(is_prefix_of(prefixes[q as int], w@));
                                        }
                                        cache.append(&ek, &changed[i].1);
                                        proof {
                                            assert(changed@[i as int].1@ == cv[i as int].1);
                                            if spec_valid_key(ek@) {
                                                assert(cache.delta() == join1(cd0, ek@, vs));
                                                lemma_join_join1(rows_delta(sorter@), cd0, ek@,
                                                    vs);
                                                assert(join(rows_delta(sorter@), cache.delta())
                                                    == join1(join(rows_delta(sorter@), cd0), ek@,
                                                    vs));
                                                assert(join(rows_delta(sorter@), cd0) == join(
                                                    x0,
                                                    gd,
                                                ));
                                                lemma_join_join1(x0, gd, ek@, vs);
                                                assert(group_delta(
                                                    w@,
                                                    pos,
                                                    cv[i as int].1,
                                                    prefixes.subrange(0, q + 1),
                                                ) == join1(gd, ek@, vs));
                                            } else {
                                                assert(cache.delta() == cd0);
                                                assert(group_delta(
                                                    w@,
                                                    pos,
                                                    cv[i as int].1,
                                                    prefixes.subrange(0, q + 1),
                                                ) == gd);
                                            }
                                            assert(join(rows_delta(sorter@), cache.delta())
                                                == join(x0, group_delta(
                                                w@,
                                                pos,
                                                cv[i as int].1,
                                                prefixes.subrange(0, q + 1),
                                            )));
                                        }
                                    } else {
                                        proof {
                                            assert(!is_prefix_of(prefixes[q as int], w@));
                                            assert(group_delta(
                                                w@,
                                                pos,
                                                cv[i as int].1,
                                                prefixes.subrange(0, q + 1),
                                            ) == gd);
                                        }
                                    }
                                    q += 1;
                                }
                                proof {
                                    assert(prefixes.subrange(0, glen as int) =~= prefixes);
                                    assert(entry_p1_delta(gv, cv[i as int].0, cv[i as int].1)
                                        == group_delta(w@, pos, cv[i as int].1, prefixes));
                                    assert(cv.subrange(0, i + 1).drop_last() =~= cv.subrange(
                                        0,
                                        i as int,
                                    ));
                                    assert(cv.subrange(0, i + 1).last() == cv[i as int]);
                                    assert(join(rows_delta(sorter@), cache.delta()) == p1_delta(
                                        cv.subrange(0, i + 1),
                                        gv,
                                    ));
                                }
                            },
                            None => {
                                proof {
                                    assert(entry_p1_delta(gv, cv[i as int].0, cv[i as int].1)
                                        =~~= Map::<Seq<u8>, Set<u32>>::empty());
                                    lemma_join_empty(p1_delta(cv.subrange(0, i as int), gv));
                                    assert(cv.subrange(0, i + 1).drop_last() =~= cv.subrange(
                                        0,
                                        i as int,
                                    ));
                                    assert(cv.subrange(0, i + 1).last() == cv[i as int]);
                                    assert(join(rows_delta(sorter@), cache.delta()) == p1_delta(
                                        cv.subrange(0, i + 1),
                                        gv,
                                    ));
                                }
                            },
                        }
                    },
                }
                i += 1;
            }
            cache.flush_into(&mut sorter);
            proof {
                assert(cv.subrange(0, cv.len() as int) =~= cv);
                assert(rows_delta(sorter@) == p1_delta(cv, gv));
            }
        } else {
            proof {
                assert(rows_delta(sorter@) =~~= Map::<Seq<u8>, Set<u32>>::empty());
                assert(p1_delta(cv, gv) =~~= Map::<Seq<u8>, Set<u32>>::empty());
            }
        }
        let ghost p1full = p1_delta(cv, gv);
        proof {
            assert(rows_delta(sorter@) == p1full);
            assert(nv.subrange(0, 0) =~= Seq::<Seq<u8>>::empty());
            lemma_join_empty(p1full);
            assert(p2_delta(nv.subrange(0, 0), wrows) =~~= Map::<Seq<u8>, Set<u32>>::empty());
        }

        // Phase 2: brand-new prefixes, rebuilt from the word database.
        let mut pi: usize = 0;
        while pi < new_prefixes.len()
            invariant
                pi <= new_prefixes@.len(),
                nv == new_prefixes.deep_view(),
                nv.len() == new_prefixes@.len(),
                wrows == self.word_database.rows_v(),
                self.word_database.wf(),
                self.prefix_database == old(self).prefix_database,
                self.word_database == old(self).word_database,
                old(self).prefix_database.wf(),
                sorter.wf(),
                rows_delta(sorter@) == join(p1full, p2_delta(nv.subrange(0, pi as int), wrows)),
                forall|a: int, b: int|
                    0 <= a < pi && 0 <= b < wrows.len() && is_prefix_of(
                        #[trigger] nv[a],
                        #[trigger] wrows[b].0,
                    ) ==> spec_decodable(wrows[b].0),
            decreases new_prefixes@.len() - pi,
        {
            let ghost p2cur = p2_delta(nv.subrange(0, pi as int), wrows);
            let ghost x0 = join(p1full, p2cur);
            let ghost p = nv[pi as int];
            proof {
                assert(p == new_prefixes@[pi as int].deep_view());
                assert(new_prefixes@[pi as int].deep_view() =~= new_prefixes@[pi as int]@);
                assert(wrows.subrange(0, 0) =~= Seq::<(Seq<u8>, Seq<u32>)>::empty());
                lemma_join_empty(x0);
                assert(scan_delta(p, wrows.subrange(0, 0)) =~~= Map::<Seq<u8>, Set<u32>>::empty());
            }
            let wlen = self.word_database.rows_len();
            let mut j: usize = 0;
            while j < wlen
                invariant
                    j <= wlen,
                    (pi as int) < nv.len(),
                    nv == new_prefixes.deep_view(),
                    nv.len() == new_prefixes@.len(),
                    p == nv[pi as int],
                    p == new_prefixes@[pi as int]@,
                    wrows == self.word_database.rows_v(),
                    wlen == wrows.len(),
                    self.word_database.wf(),
                    self.prefix_database == old(self).prefix_database,
                    self.word_database == old(self).word_database,
                    old(self).prefix_database.wf(),
                    sorter.wf(),
                    x0 == join(p1full, p2cur),
                    rows_delta(sorter@) == join(x0, scan_delta(p, wrows.subrange(0, j as int))),
                    forall|b: int|
                        0 <= b < j && is_prefix_of(p, #[trigger] wrows[b].0) ==> spec_decodable(
                            wrows[b].0,
                        ),
                decreases wlen - j,
            {
                let ghost sd = scan_delta(p, wrows.subrange(0, j as int));
                let row = self.word_database.row_at(j);
                proof {
                    assert((row.0@, row.1@) == wrows[j as int]);
                    assert(wrows.subrange(0, j + 1).drop_last() =~= wrows.subrange(0, j as int));
                    assert(wrows.subrange(0, j + 1).last() == wrows[j as int]);
                }
                if starts_with(&row.0, &new_prefixes[pi]) {
                    match decode_key(&row.0) {
                        None => {
                            proof {
                                assert(is_prefix_of(nv[pi as int], wrows[j as int].0)
                                    && !spec_decodable(wrows[j as int].0));
                            }
                            return Err(Error::Decoding(Source::WordPostings));
                        },
                        Some(wp2) => {
                            let (w2, pos2) = wp2;
                            proof {
                                assert(w2@ == spec_decoded_word(wrows[j as int].0));
                                assert(pos2 == spec_decoded_pos(wrows[j as int].0));
                            }
                            if starts_with(&w2, &new_prefixes[pi]) {
                                let ek = encode_key(&new_prefixes[pi], pos2);
                                proof {
                                    assert(new_prefixes@[pi as int]@ == p);
                                    assert(ek@ == spec_encode_key(p, pos2));
                                    assert(is_prefix_of(p, wrows[j as int].0));
                                    assert(is_prefix_of(p, spec_decoded_word(wrows[j as int].0)));
                                }
                                if valid_key(&ek) {
                                    let ghost pre_sorter = sorter@;
                                    let d = row.1.duplicate();
                                    sorter.insert(ek, d);
                                    proof {
                                        lemma_rows_delta_push(
                                            pre_sorter,
                                            ek@,
                                            wrows[j as int].1,
                                        );
                                        assert(rows_delta(sorter@) == join1(
                                            rows_delta(pre_sorter),
                                            ek@,
                                            wrows[j as int].1.to_set(),
                                        ));
                                        lemma_join_join1(
                                            x0,
                                            sd,
                                            ek@,
                                            wrows[j as int].1.to_set(),
                                        );
                                        assert(scan_delta(p, wrows.subrange(0, j + 1)) == join1(
                                            sd,
                                            ek@,
                                            wrows[j as int].1.to_set(),
                                        ));
                                        assert(rows_delta(sorter@) == join(x0, scan_delta(
                                            p,
                                            wrows.subrange(0, j + 1),
                                        )));
                                    }
                                } else {
                                    proof {
                                        assert(scan_delta(p, wrows.subrange(0, j + 1)) == sd);
                                    }
                                }
                            } else {
                                proof {
                                    assert(scan_delta(p, wrows.subrange(0, j + 1)) == sd);
                                }
                            }
                        },
                    }
                } else {
                    proof {
                        assert(scan_delta(p, wrows.subrange(0, j + 1)) == sd);
                    }
                }
                j += 1;
            }
            proof {
                assert(wrows.subrange(0, wlen as int) =~= wrows);
                assert(nv.subrange(0, pi + 1).drop_last() =~= nv.subrange(0, pi as int));
                assert(nv.subrange(0, pi + 1).last() == nv[pi as int]);
                lemma_join_assoc(p1full, p2cur, scan_delta(p, wrows));
                assert(rows_delta(sorter@) == join(p1full, p2_delta(
                    nv.subrange(0, pi + 1),
                    wrows,
                )));
            }
            pi += 1;
        }
        proof {
            assert(nv.subrange(0, nv.len() as int) =~= nv);
        }

        // Phase 3: delete the rows of prefixes that no longer exist.
        match self.prefix_database.remove_deleted_prefixes(deleted_prefixes) {
            Err(e) => {
                return Err(e);
            },
            Ok(()) => {},
        }

        // Commit: merge-load every candidate row into the prefix database.
        self.prefix_database.merge_load(sorter);
        Ok(())
    }
}

} // verus!
