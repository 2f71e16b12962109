//! Laws of the build, stated over the same spec functions the contracts use
//! and proved from them.

use vstd::prelude::*;
use crate::builder::{entry_p1_delta, first_match, group_delta, lemma_first_match_is, p1_delta,
    p2_delta, scan_delta, wf_groups};
use crate::deltas::{join, join1, lemma_join_empty, merged_with, rows_delta, stored_part};
use crate::docids::{lemma_strictly_sorted_unique, strictly_sorted};
use crate::keys::{is_prefix_of, lemma_decode_encode, spec_decodable, spec_decoded_pos,
    spec_decoded_word, spec_encode_key, spec_valid_key};
use crate::store::kept_map;

verus! {

/// Merge correctness: two document-id sets inserted under the same key and
/// merge-loaded into an empty store leave exactly their union under that key:
/// no duplicate ids, sort order preserved by canonicity.
pub proof fn lemma_merge_correctness(k: Seq<u8>, a: Seq<u32>, b: Seq<u32>, db: Map<
    Seq<u8>,
    Seq<u32>,
>)
    requires
        merged_with(Map::empty(), rows_delta(seq![(k, a), (k, b)]), db),
    ensures
        db.contains_key(k),
        strictly_sorted(db[k]),
        db[k].to_set() == a.to_set().union(b.to_set()),
{
    let rows = seq![(k, a), (k, b)];
    assert(rows_delta(Seq::<(Seq<u8>, Seq<u32>)>::empty()) == Map::<Seq<u8>, Set<u32>>::empty());
    assert(seq![(k, a)].drop_last() =~= Seq::<(Seq<u8>, Seq<u32>)>::empty());
    assert(seq![(k, a)].last() == (k, a));
    assert(rows_delta(seq![(k, a)]) == join1(Map::<Seq<u8>, Set<u32>>::empty(), k, a.to_set()));
    assert(rows.drop_last() =~= seq![(k, a)]);
    assert(rows.last() == (k, b));
    assert(rows_delta(rows) == join1(rows_delta(seq![(k, a)]), k, b.to_set()));
    assert(rows_delta(rows)[k] =~= a.to_set().union(b.to_set()));
    assert(rows_delta(rows).contains_key(k));
    assert(db[k].to_set() == stored_part(Map::<Seq<u8>, Seq<u32>>::empty(), k).union(
        rows_delta(rows)[k],
    ));
    assert(db[k].to_set() =~= a.to_set().union(b.to_set()));
}

/// Group matching: within a matched group, every prefix of the group that
/// the word starts with (and whose encoded key passes the validity guard)
/// receives the entry's whole document-id set.
pub proof fn lemma_group_delta_matching(
    w: Seq<u8>,
    pos: u16,
    v: Seq<u32>,
    prefixes: Seq<Seq<u8>>,
    t: int,
)
    requires
        0 <= t < prefixes.len(),
        is_prefix_of(prefixes[t], w),
        spec_valid_key(spec_encode_key(prefixes[t], pos)),
    ensures
        group_delta(w, pos, v, prefixes).contains_key(spec_encode_key(prefixes[t], pos)),
        v.to_set().subset_of(group_delta(w, pos, v, prefixes)[spec_encode_key(prefixes[t], pos)]),
    decreases prefixes.len(),
{
    let ek = spec_encode_key(prefixes[t], pos);
    let m = group_delta(w, pos, v, prefixes.drop_last());
    if t == prefixes.len() - 1 {
        assert(group_delta(w, pos, v, prefixes) == join1(m, ek, v.to_set()));
    } else {
        assert(prefixes.drop_last()[t] == prefixes[t]);
        lemma_group_delta_matching(w, pos, v, prefixes.drop_last(), t);
        let q = prefixes.last();
        if is_prefix_of(q, w) && spec_valid_key(spec_encode_key(q, pos)) {
            assert(group_delta(w, pos, v, prefixes) == join1(m, spec_encode_key(q, pos),
                v.to_set()));
        }
    }
}

/// Group matching, at the level of one change-stream entry: a word matching
/// several prefixes of its group contributes its document-id set under each
/// of their keys.
pub proof fn lemma_group_matching(
    groups: Seq<Seq<Seq<u8>>>,
    k: Seq<u8>,
    v: Seq<u32>,
    g: int,
    t: int,
)
    requires
        wf_groups(groups),
        spec_decodable(k),
        0 <= g < groups.len(),
        is_prefix_of(groups[g][0], spec_decoded_word(k)),
        0 <= t < groups[g].len(),
        is_prefix_of(groups[g][t], spec_decoded_word(k)),
        spec_valid_key(spec_encode_key(groups[g][t], spec_decoded_pos(k))),
    ensures
        entry_p1_delta(groups, k, v).contains_key(
            spec_encode_key(groups[g][t], spec_decoded_pos(k)),
        ),
        v.to_set().subset_of(
            entry_p1_delta(groups, k, v)[spec_encode_key(groups[g][t], spec_decoded_pos(k))],
        ),
{
    lemma_first_match_is(groups, spec_decoded_word(k), g);
    lemma_group_delta_matching(spec_decoded_word(k), spec_decoded_pos(k), v, groups[g], t);
}

/// Every key of a group's contribution is the encoded key of one of the
/// group's prefixes.
proof fn lemma_group_delta_keys(w: Seq<u8>, pos: u16, v: Seq<u32>, prefixes: Seq<Seq<u8>>)
    ensures
        forall|k: Seq<u8>|
            #[trigger] group_delta(w, pos, v, prefixes).contains_key(k) ==> exists|t: int|
                0 <= t < prefixes.len() && k == spec_encode_key(#[trigger] prefixes[t], pos),
    decreases prefixes.len(),
{
    if prefixes.len() == 0 {
    } else {
        lemma_group_delta_keys(w, pos, v, prefixes.drop_last());
        assert forall|k: Seq<u8>|
            #[trigger] group_delta(w, pos, v, prefixes).contains_key(k) implies exists|t: int|
            0 <= t < prefixes.len() && k == spec_encode_key(#[trigger] prefixes[t], pos) by {
            let q = prefixes.last();
            if k == spec_encode_key(q, pos) {
                assert(prefixes[prefixes.len() - 1] == q);
            } else {
                assert(group_delta(w, pos, v, prefixes.drop_last()).contains_key(k));
                let t = choose|t: int|
                    0 <= t < prefixes.drop_last().len() && k == spec_encode_key(
                        #[trigger] prefixes.drop_last()[t],
                        pos,
                    );
                assert(prefixes[t] == prefixes.drop_last()[t]);
            }
        }
    }
}

/// A match of the classification is a real group index.
proof fn lemma_first_match_range(groups: Seq<Seq<Seq<u8>>>, w: Seq<u8>, i: int)
    requires
        0 <= i,
    ensures
        match crate::builder::first_match_from(groups, w, i) {
            Some(g) => i <= g < groups.len(),
            None => true,
        },
    decreases groups.len() - i,
{
    if i >= groups.len() {
    } else if groups[i].len() > 0 && is_prefix_of(groups[i][0], w) {
    } else {
        lemma_first_match_range(groups, w, i + 1);
    }
}

/// Every key the common-prefix phase contributes decodes to a prefix of some
/// group.
proof fn lemma_p1_delta_keys(changed: Seq<(Seq<u8>, Seq<u32>)>, groups: Seq<Seq<Seq<u8>>>)
    ensures
        forall|k: Seq<u8>|
            #[trigger] p1_delta(changed, groups).contains_key(k) ==> exists|g: int, t: int|
                0 <= g < groups.len() && 0 <= t < groups[g].len() && spec_decoded_word(k)
                    == #[trigger] groups[g][t],
    decreases changed.len(),
{
    if groups.len() == 0 || changed.len() == 0 {
    } else {
        lemma_p1_delta_keys(changed.drop_last(), groups);
        let ck = changed.last().0;
        let cvv = changed.last().1;
        let ed = entry_p1_delta(groups, ck, cvv);
        assert forall|k: Seq<u8>| #[trigger] ed.contains_key(k) implies exists|g: int, t: int|
            0 <= g < groups.len() && 0 <= t < groups[g].len() && spec_decoded_word(k)
                == #[trigger] groups[g][t] by {
            assert(spec_decodable(ck));
            let w = spec_decoded_word(ck);
            let pos = spec_decoded_pos(ck);
            lemma_first_match_range(groups, w, 0);
            let g = first_match(groups, w)->Some_0;
            lemma_group_delta_keys(w, pos, cvv, groups[g]);
            let t = choose|t: int|
                0 <= t < groups[g].len() && k == spec_encode_key(#[trigger] groups[g][t], pos);
            lemma_decode_encode(groups[g][t], pos);
        }
        assert forall|k: Seq<u8>|
            #[trigger] p1_delta(changed, groups).contains_key(k) implies exists|g: int, t: int|
            0 <= g < groups.len() && 0 <= t < groups[g].len() && spec_decoded_word(k)
                == #[trigger] groups[g][t] by {
            assert(p1_delta(changed.drop_last(), groups).contains_key(k) || ed.contains_key(k));
        }
    }
}

/// Every key one prefix's scan contributes is that prefix's encoded key.
proof fn lemma_scan_delta_keys(p: Seq<u8>, rows: Seq<(Seq<u8>, Seq<u32>)>)
    ensures
        forall|k: Seq<u8>|
            #[trigger] scan_delta(p, rows).contains_key(k) ==> exists|pos: u16| k
                == spec_encode_key(p, pos),
    decreases rows.len(),
{
    if rows.len() == 0 {
    } else {
        lemma_scan_delta_keys(p, rows.drop_last());
        assert forall|k: Seq<u8>|
            #[trigger] scan_delta(p, rows).contains_key(k) implies exists|pos: u16| k
            == spec_encode_key(p, pos) by {
            let lpos = spec_decoded_pos(rows.last().0);
            if k == spec_encode_key(p, lpos) {
            } else {
                assert(scan_delta(p, rows.drop_last()).contains_key(k));
            }
        }
    }
}

/// Every key the new-prefix phase contributes decodes to a new prefix.
proof fn lemma_p2_delta_keys(new: Seq<Seq<u8>>, rows: Seq<(Seq<u8>, Seq<u32>)>)
    ensures
        forall|k: Seq<u8>|
            #[trigger] p2_delta(new, rows).contains_key(k) ==> exists|i: int|
                0 <= i < new.len() && spec_decoded_word(k) == #[trigger] new[i],
    decreases new.len(),
{
    if new.len() == 0 {
    } else {
        lemma_p2_delta_keys(new.drop_last(), rows);
        let p = new.last();
        lemma_scan_delta_keys(p, rows);
        assert forall|k: Seq<u8>|
            #[trigger] p2_delta(new, rows).contains_key(k) implies exists|i: int|
            0 <= i < new.len() && spec_decoded_word(k) == #[trigger] new[i] by {
            if scan_delta(p, rows).contains_key(k) {
                let pos = choose|pos: u16| k == spec_encode_key(p, pos);
                lemma_decode_encode(p, pos);
                assert(new[new.len() - 1] == p);
            } else {
                assert(p2_delta(new.drop_last(), rows).contains_key(k));
                let i = choose|i: int|
                    0 <= i < new.drop_last().len() && spec_decoded_word(k)
                        == #[trigger] new.drop_last()[i];
                assert(new[i] == new.drop_last()[i]);
            }
        }
    }
}

/// Deletion completeness: when the deleted prefixes are disjoint from the
/// common groups and the new prefixes, no key of a deleted prefix remains
/// after the build, whatever existed before.
pub proof fn lemma_deletion_completeness(
    db0: Map<Seq<u8>, Seq<u32>>,
    db1: Map<Seq<u8>, Seq<u32>>,
    changed: Seq<(Seq<u8>, Seq<u32>)>,
    groups: Seq<Seq<Seq<u8>>>,
    new: Seq<Seq<u8>>,
    word_rows: Seq<(Seq<u8>, Seq<u32>)>,
    deleted: Seq<Seq<u8>>,
)
    requires
        merged_with(
            kept_map(db0, deleted),
            join(p1_delta(changed, groups), p2_delta(new, word_rows)),
            db1,
        ),
        forall|g: int, t: int|
            0 <= g < groups.len() && 0 <= t < groups[g].len() ==> !deleted.contains(
                #[trigger] groups[g][t],
            ),
        forall|i: int| 0 <= i < new.len() ==> !deleted.contains(#[trigger] new[i]),
    ensures
        forall|k: Seq<u8>|
            #[trigger] db1.contains_key(k) ==> !deleted.contains(spec_decoded_word(k)),
{
    lemma_p1_delta_keys(changed, groups);
    lemma_p2_delta_keys(new, word_rows);
    let p1 = p1_delta(changed, groups);
    let p2 = p2_delta(new, word_rows);
    assert forall|k: Seq<u8>| #[trigger] db1.contains_key(k) implies !deleted.contains(
        spec_decoded_word(k),
    ) by {
        if kept_map(db0, deleted).contains_key(k) {
        } else {
            assert(db1.dom().contains(k));
            assert(join(p1, p2).contains_key(k));
            if p1.contains_key(k) {
                let (g, t) = choose|g: int, t: int|
                    0 <= g < groups.len() && 0 <= t < groups[g].len() && spec_decoded_word(k)
                        == #[trigger] groups[g][t];
            } else {
                assert(p2.contains_key(k));
                let i = choose|i: int|
                    0 <= i < new.len() && spec_decoded_word(k) == #[trigger] new[i];
            }
        }
    }
}

/// A word-database row that contributes to the scan of prefix `p` at
/// position slot `pos`.
pub open spec fn scan_hits(p: Seq<u8>, row: (Seq<u8>, Seq<u32>), pos: u16) -> bool {
    &&& is_prefix_of(p, row.0)
    &&& spec_decodable(row.0)
    &&& is_prefix_of(p, spec_decoded_word(row.0))
    &&& spec_decoded_pos(row.0) == pos
    &&& spec_valid_key(spec_encode_key(p, pos))
}

/// The members contributed by all the rows hitting `p` at `pos`.
pub open spec fn scan_members(p: Seq<u8>, rows: Seq<(Seq<u8>, Seq<u32>)>, pos: u16) -> Set<u32> {
    Set::new(
        |d: u32|
            exists|j: int|
                0 <= j < rows.len() && scan_hits(p, #[trigger] rows[j], pos)
                    && rows[j].1.to_set().contains(d),
    )
}

/// What one prefix's scan holds under one encoded key: exactly the members
/// of the rows hitting the prefix at that position slot.
proof fn lemma_scan_delta_at(p: Seq<u8>, rows: Seq<(Seq<u8>, Seq<u32>)>, pos: u16)
    ensures
        scan_delta(p, rows).contains_key(spec_encode_key(p, pos)) == exists|j: int|
            0 <= j < rows.len() && scan_hits(p, #[trigger] rows[j], pos),
        scan_delta(p, rows).contains_key(spec_encode_key(p, pos)) ==> scan_delta(p, rows)[
            spec_encode_key(p, pos)] == scan_members(p, rows, pos),
    decreases rows.len(),
{
    let ek = spec_encode_key(p, pos);
    if rows.len() == 0 {
        assert(!scan_delta(p, rows).contains_key(ek));
    } else {
        let drl = rows.drop_last();
        let r = rows.last();
        lemma_scan_delta_at(p, drl, pos);
        let m = scan_delta(p, drl);
        let c = is_prefix_of(p, r.0) && spec_decodable(r.0) && is_prefix_of(
            p,
            spec_decoded_word(r.0),
        ) && spec_valid_key(spec_encode_key(p, spec_decoded_pos(r.0)));
        assert(forall|j: int| 0 <= j < drl.len() ==> drl[j] == rows[j]);
        assert(rows[rows.len() - 1] == r);
        if c && spec_encode_key(p, spec_decoded_pos(r.0)) == ek {
            lemma_encode_injective_pos(p, spec_decoded_pos(r.0), pos);
            assert(scan_hits(p, r, pos));
            assert(scan_delta(p, rows) == join1(m, ek, r.1.to_set()));
            if m.contains_key(ek) {
                assert(scan_delta(p, rows)[ek] =~= scan_members(p, rows, pos)) by {
                    assert forall|d: u32| scan_members(p, rows, pos).contains(d) implies
                        scan_delta(p, rows)[ek].contains(d) by {
                        let j = choose|j: int|
                            0 <= j < rows.len() && scan_hits(p, #[trigger] rows[j], pos)
                                && rows[j].1.to_set().contains(d);
                        if j < rows.len() - 1 {
                            assert(scan_members(p, drl, pos).contains(d));
                        }
                    }
                }
            } else {
                assert(scan_delta(p, rows)[ek] =~= scan_members(p, rows, pos)) by {
                    assert forall|d: u32| scan_members(p, rows, pos).contains(d) implies
                        scan_delta(p, rows)[ek].contains(d) by {
                        let j = choose|j: int|
                            0 <= j < rows.len() && scan_hits(p, #[trigger] rows[j], pos)
                                && rows[j].1.to_set().contains(d);
                        if j < rows.len() - 1 {
                            assert(scan_members(p, drl, pos).contains(d));
                        }
                    }
                }
            }
        } else {
            assert(!scan_hits(p, r, pos));
            assert(scan_delta(p, rows).contains_key(ek) == m.contains_key(ek));
            assert(scan_delta(p, rows).contains_key(ek) ==> scan_delta(p, rows)[ek] == m[ek]);
            assert(scan_members(p, rows, pos) =~= scan_members(p, drl, pos)) by {
                assert forall|d: u32| scan_members(p, rows, pos).contains(d) implies scan_members(
                    p,
                    drl,
                    pos,
                ).contains(d) by {
                    let j = choose|j: int|
                        0 <= j < rows.len() && scan_hits(p, #[trigger] rows[j], pos)
                            && rows[j].1.to_set().contains(d);
                    assert(j < rows.len() - 1);
                }
            }
        }
    }
}

/// Equal encoded keys of one prefix carry the same position.
proof fn lemma_encode_injective_pos(p: Seq<u8>, a: u16, b: u16)
    requires
        spec_encode_key(p, a) == spec_encode_key(p, b),
    ensures
        a == b,
{
    crate::keys::lemma_encode_injective(p, a, p, b);
}

/// What the whole new-prefix phase holds under one new prefix's encoded key.
proof fn lemma_p2_delta_at(
    new: Seq<Seq<u8>>,
    rows: Seq<(Seq<u8>, Seq<u32>)>,
    p: Seq<u8>,
    pos: u16,
)
    ensures
        p2_delta(new, rows).contains_key(spec_encode_key(p, pos)) == (new.contains(p) && exists|
            j: int,
        | 0 <= j < rows.len() && scan_hits(p, #[trigger] rows[j], pos)),
        p2_delta(new, rows).contains_key(spec_encode_key(p, pos)) ==> p2_delta(new, rows)[
            spec_encode_key(p, pos)] == scan_members(p, rows, pos),
    decreases new.len(),
{
    let ek = spec_encode_key(p, pos);
    if new.len() == 0 {
        assert(!new.contains(p));
    } else {
        let drl = new.drop_last();
        let q = new.last();
        lemma_p2_delta_at(drl, rows, p, pos);
        lemma_scan_delta_at(p, rows, pos);
        let dl = p2_delta(drl, rows);
        let sd = scan_delta(q, rows);
        assert(p2_delta(new, rows) == join(dl, sd));
        assert(forall|i: int| 0 <= i < drl.len() ==> drl[i] == new[i]);
        assert(new[new.len() - 1] == q);
        if q == p {
            assert(new.contains(p));
            if dl.contains_key(ek) {
                assert(p2_delta(new, rows).contains_key(ek));
                if sd.contains_key(ek) {
                    assert(p2_delta(new, rows)[ek] =~= scan_members(p, rows, pos));
                } else {
                    assert(p2_delta(new, rows)[ek] == dl[ek]);
                }
            } else {
                assert(drl.contains(p) ==> dl.contains_key(ek) || !(exists|j: int|
                    0 <= j < rows.len() && scan_hits(p, #[trigger] rows[j], pos)));
                if sd.contains_key(ek) {
                    assert(p2_delta(new, rows)[ek] == sd[ek]);
                } else {
                    assert(!p2_delta(new, rows).contains_key(ek));
                }
            }
        } else {
            lemma_scan_delta_keys(q, rows);
            assert(!sd.contains_key(ek)) by {
                if sd.contains_key(ek) {
                    let pos2 = choose|pos2: u16| ek == spec_encode_key(q, pos2);
                    crate::keys::lemma_encode_injective(q, pos2, p, pos);
                }
            }
            assert(p2_delta(new, rows).contains_key(ek) == dl.contains_key(ek));
            assert(p2_delta(new, rows).contains_key(ek) ==> p2_delta(new, rows)[ek] == dl[ek]);
            assert(new.contains(p) == drl.contains(p)) by {
                if new.contains(p) {
                    let i = choose|i: int| 0 <= i < new.len() && new[i] == p;
                    assert(i < new.len() - 1);
                    assert(drl[i] == p);
                }
                if drl.contains(p) {
                    let i = choose|i: int| 0 <= i < drl.len() && drl[i] == p;
                    assert(new[i] == p);
                }
            }
        }
    }
}

/// A change-stream entry that contributes to prefix `q` at slot `pos`: it
/// decodes to that slot, its word is classified into a group holding `q` and
/// starts with `q`, and the row's key passes the validity guard.
pub open spec fn stream_hits(
    groups: Seq<Seq<Seq<u8>>>,
    q: Seq<u8>,
    entry: (Seq<u8>, Seq<u32>),
    pos: u16,
) -> bool {
    &&& spec_decodable(entry.0)
    &&& spec_decoded_pos(entry.0) == pos
    &&& spec_valid_key(spec_encode_key(q, pos))
    &&& is_prefix_of(q, spec_decoded_word(entry.0))
    &&& match first_match(groups, spec_decoded_word(entry.0)) {
        Some(g) => groups[g].contains(q),
        None => false,
    }
}

/// The members contributed to `q` at `pos` by the whole change stream.
pub open spec fn stream_members(
    groups: Seq<Seq<Seq<u8>>>,
    q: Seq<u8>,
    changed: Seq<(Seq<u8>, Seq<u32>)>,
    pos: u16,
) -> Set<u32> {
    Set::new(
        |d: u32|
            exists|i: int|
                0 <= i < changed.len() && stream_hits(groups, q, #[trigger] changed[i], pos)
                    && changed[i].1.to_set().contains(d),
    )
}

/// What one entry's group contribution holds under one encoded key.
proof fn lemma_group_delta_at(
    w: Seq<u8>,
    pos0: u16,
    v: Seq<u32>,
    prefixes: Seq<Seq<u8>>,
    q: Seq<u8>,
    pos: u16,
)
    ensures
        group_delta(w, pos0, v, prefixes).contains_key(spec_encode_key(q, pos)) == (pos0 == pos
            && prefixes.contains(q) && is_prefix_of(q, w) && spec_valid_key(
            spec_encode_key(q, pos),
        )),
        group_delta(w, pos0, v, prefixes).contains_key(spec_encode_key(q, pos)) ==> group_delta(
            w,
            pos0,
            v,
            prefixes,
        )[spec_encode_key(q, pos)] == v.to_set(),
    decreases prefixes.len(),
{
    let ek = spec_encode_key(q, pos);
    if prefixes.len() == 0 {
        assert(!prefixes.contains(q));
    } else {
        let drl = prefixes.drop_last();
        let q2 = prefixes.last();
        lemma_group_delta_at(w, pos0, v, drl, q, pos);
        let m = group_delta(w, pos0, v, drl);
        assert(forall|t: int| 0 <= t < drl.len() ==> drl[t] == prefixes[t]);
        assert(prefixes[prefixes.len() - 1] == q2);
        assert(prefixes.contains(q) == (drl.contains(q) || q2 == q)) by {
            if prefixes.contains(q) {
                let t = choose|t: int| 0 <= t < prefixes.len() && prefixes[t] == q;
                if t < prefixes.len() - 1 {
                    assert(drl[t] == q);
                }
            }
            if drl.contains(q) {
                let t = choose|t: int| 0 <= t < drl.len() && drl[t] == q;
                assert(prefixes[t] == q);
            }
        }
        if is_prefix_of(q2, w) && spec_valid_key(spec_encode_key(q2, pos0)) {
            if spec_encode_key(q2, pos0) == ek {
                crate::keys::lemma_encode_injective(q2, pos0, q, pos);
                assert(group_delta(w, pos0, v, prefixes)[ek] =~= v.to_set());
            } else {
                assert(group_delta(w, pos0, v, prefixes).contains_key(ek) == m.contains_key(ek));
                if q2 == q && pos0 == pos {
                    assert(false);
                }
            }
        } else {
            if q2 == q && pos0 == pos && is_prefix_of(q, w) && spec_valid_key(ek) {
                assert(false);
            }
        }
    }
}

/// What the whole common-prefix phase holds under one encoded key: exactly
/// the members contributed to that prefix and slot by the change stream.
proof fn lemma_p1_delta_at(
    changed: Seq<(Seq<u8>, Seq<u32>)>,
    groups: Seq<Seq<Seq<u8>>>,
    q: Seq<u8>,
    pos: u16,
)
    ensures
        p1_delta(changed, groups).contains_key(spec_encode_key(q, pos)) == exists|i: int|
            0 <= i < changed.len() && stream_hits(groups, q, #[trigger] changed[i], pos),
        p1_delta(changed, groups).contains_key(spec_encode_key(q, pos)) ==> p1_delta(
            changed,
            groups,
        )[spec_encode_key(q, pos)] == stream_members(groups, q, changed, pos),
    decreases changed.len(),
{
    let ek = spec_encode_key(q, pos);
    if groups.len() == 0 {
        assert(forall|i: int|
            0 <= i < changed.len() ==> !stream_hits(groups, q, #[trigger] changed[i], pos));
    } else if changed.len() == 0 {
    } else {
        let drl = changed.drop_last();
        let e = changed.last();
        lemma_p1_delta_at(drl, groups, q, pos);
        let dl = p1_delta(drl, groups);
        let ed = entry_p1_delta(groups, e.0, e.1);
        assert(p1_delta(changed, groups) == join(dl, ed));
        assert(forall|i: int| 0 <= i < drl.len() ==> drl[i] == changed[i]);
        assert(changed[changed.len() - 1] == e);
        let ed_has = spec_decodable(e.0) && (match first_match(groups, spec_decoded_word(e.0)) {
            Some(g) => groups[g].contains(q) && spec_decoded_pos(e.0) == pos && is_prefix_of(
                q,
                spec_decoded_word(e.0),
            ) && spec_valid_key(ek),
            None => false,
        });
        assert(ed.contains_key(ek) == ed_has && (ed.contains_key(ek) ==> ed[ek]
            == e.1.to_set())) by {
            if spec_decodable(e.0) {
                match first_match(groups, spec_decoded_word(e.0)) {
                    Some(g) => {
                        lemma_first_match_range(groups, spec_decoded_word(e.0), 0);
                        lemma_group_delta_at(
                            spec_decoded_word(e.0),
                            spec_decoded_pos(e.0),
                            e.1,
                            groups[g],
                            q,
                            pos,
                        );
                    },
                    None => {},
                }
            }
        }
        assert(ed_has == stream_hits(groups, q, e, pos));
        if ed.contains_key(ek) {
            if dl.contains_key(ek) {
                assert(p1_delta(changed, groups)[ek] =~= stream_members(groups, q, changed, pos))
                    by {
                    assert forall|d: u32| stream_members(groups, q, changed, pos).contains(d)
                        implies p1_delta(changed, groups)[ek].contains(d) by {
                        let i = choose|i: int|
                            0 <= i < changed.len() && stream_hits(
                                groups,
                                q,
                                #[trigger] changed[i],
                                pos,
                            ) && changed[i].1.to_set().contains(d);
                        if i < changed.len() - 1 {
                            assert(stream_members(groups, q, drl, pos).contains(d));
                        }
                    }
                }
            } else {
                assert(p1_delta(changed, groups)[ek] == ed[ek]);
                assert(p1_delta(changed, groups)[ek] =~= stream_members(groups, q, changed, pos))
                    by {
                    assert forall|d: u32| stream_members(groups, q, changed, pos).contains(d)
                        implies p1_delta(changed, groups)[ek].contains(d) by {
                        let i = choose|i: int|
                            0 <= i < changed.len() && stream_hits(
                                groups,
                                q,
                                #[trigger] changed[i],
                                pos,
                            ) && changed[i].1.to_set().contains(d);
                        if i < changed.len() - 1 {
                            assert(stream_members(groups, q, drl, pos).contains(d));
                        }
                    }
                }
            }
        } else {
            assert(p1_delta(changed, groups).contains_key(ek) == dl.contains_key(ek));
            assert(p1_delta(changed, groups).contains_key(ek) ==> p1_delta(changed, groups)[ek]
                == dl[ek]);
            assert(stream_members(groups, q, changed, pos) =~= stream_members(
                groups,
                q,
                drl,
                pos,
            )) by {
                assert forall|d: u32| stream_members(groups, q, changed, pos).contains(d) implies
                    stream_members(groups, q, drl, pos).contains(d) by {
                    let i = choose|i: int|
                        0 <= i < changed.len() && stream_hits(groups, q, #[trigger] changed[i], pos)
                            && changed[i].1.to_set().contains(d);
                    assert(i < changed.len() - 1);
                }
            }
        }
    }
}

/// Consistency, member by member: what the store holds under a prefix's key
/// at a position slot after a build is the union of what survived deletion
/// with what the change stream contributed to it and what the new-prefix
/// scans contributed to it — and a row exists only where one of the three
/// sources put it there.
pub proof fn lemma_consistency_members(
    db0: Map<Seq<u8>, Seq<u32>>,
    db1: Map<Seq<u8>, Seq<u32>>,
    changed: Seq<(Seq<u8>, Seq<u32>)>,
    groups: Seq<Seq<Seq<u8>>>,
    new: Seq<Seq<u8>>,
    word_rows: Seq<(Seq<u8>, Seq<u32>)>,
    deleted: Seq<Seq<u8>>,
    q: Seq<u8>,
    pos: u16,
)
    requires
        merged_with(
            kept_map(db0, deleted),
            join(p1_delta(changed, groups), p2_delta(new, word_rows)),
            db1,
        ),
    ensures
        db1.contains_key(spec_encode_key(q, pos)) == (kept_map(db0, deleted).contains_key(
            spec_encode_key(q, pos),
        ) || (exists|i: int|
            0 <= i < changed.len() && stream_hits(groups, q, #[trigger] changed[i], pos)) || (
        new.contains(q) && exists|j: int|
            0 <= j < word_rows.len() && scan_hits(q, #[trigger] word_rows[j], pos))),
        db1.contains_key(spec_encode_key(q, pos)) ==> db1[spec_encode_key(q, pos)].to_set()
            == stored_part(kept_map(db0, deleted), spec_encode_key(q, pos)).union(
            stream_members(groups, q, changed, pos),
        ).union(
            (if new.contains(q) {
                scan_members(q, word_rows, pos)
            } else {
                Set::empty()
            }),
        ),
{
    let ek = spec_encode_key(q, pos);
    lemma_p1_delta_at(changed, groups, q, pos);
    lemma_p2_delta_at(new, word_rows, q, pos);
    let p1 = p1_delta(changed, groups);
    let p2 = p2_delta(new, word_rows);
    let delta = join(p1, p2);
    assert(db1.contains_key(ek) == (kept_map(db0, deleted).contains_key(ek)
        || delta.contains_key(ek))) by {
        assert(db1.dom() =~= kept_map(db0, deleted).dom().union(delta.dom()));
    }
    let scan_part = if new.contains(q) {
        scan_members(q, word_rows, pos)
    } else {
        Set::<u32>::empty()
    };
    assert(!p1.contains_key(ek) ==> stream_members(groups, q, changed, pos) =~= Set::<
        u32,
    >::empty());
    assert(!p2.contains_key(ek) ==> scan_part =~= Set::<u32>::empty());
    if db1.contains_key(ek) {
        if delta.contains_key(ek) {
            assert(db1[ek].to_set() == stored_part(kept_map(db0, deleted), ek).union(delta[ek]));
            assert(db1[ek].to_set() =~= stored_part(kept_map(db0, deleted), ek).union(
                stream_members(groups, q, changed, pos),
            ).union(scan_part));
        } else {
            assert(db1[ek] == kept_map(db0, deleted)[ek]);
            assert(db1[ek].to_set() =~= stored_part(kept_map(db0, deleted), ek).union(
                stream_members(groups, q, changed, pos),
            ).union(scan_part));
        }
    }
}

/// Consistency for a rebuilt prefix: starting from an empty prior state with
/// no common-prefix groups, the store afterwards holds, under a new prefix's
/// key at a position slot, exactly the union of the word database's
/// document-id sets over all words starting with that prefix at that slot —
/// and no row at all where no word matches.
pub proof fn lemma_consistency_rebuild(
    db1: Map<Seq<u8>, Seq<u32>>,
    changed: Seq<(Seq<u8>, Seq<u32>)>,
    groups: Seq<Seq<Seq<u8>>>,
    new: Seq<Seq<u8>>,
    word_rows: Seq<(Seq<u8>, Seq<u32>)>,
    deleted: Seq<Seq<u8>>,
    p: Seq<u8>,
    pos: u16,
)
    requires
        merged_with(
            kept_map(Map::empty(), deleted),
            join(p1_delta(changed, groups), p2_delta(new, word_rows)),
            db1,
        ),
        groups.len() == 0,
        new.contains(p),
        spec_valid_key(spec_encode_key(p, pos)),
        forall|j: int| 0 <= j < word_rows.len() ==> spec_decodable(#[trigger] word_rows[j].0),
    ensures
        db1.contains_key(spec_encode_key(p, pos)) == exists|j: int|
            0 <= j < word_rows.len() && is_prefix_of(
                p,
                spec_decoded_word(#[trigger] word_rows[j].0),
            ) && spec_decoded_pos(word_rows[j].0) == pos,
        db1.contains_key(spec_encode_key(p, pos)) ==> db1[spec_encode_key(p, pos)].to_set()
            == Set::new(
            |d: u32|
                exists|j: int|
                    0 <= j < word_rows.len() && is_prefix_of(
                        p,
                        spec_decoded_word(#[trigger] word_rows[j].0),
                    ) && spec_decoded_pos(word_rows[j].0) == pos && word_rows[j].1.to_set().contains(
                        d,
                    ),
        ),
{
    let ek = spec_encode_key(p, pos);
    let p2 = p2_delta(new, word_rows);
    assert(p1_delta(changed, groups) == Map::<Seq<u8>, Set<u32>>::empty());
    lemma_join_empty(p2);
    let delta = join(p1_delta(changed, groups), p2);
    assert(delta == p2);
    assert forall|j: int| 0 <= j < word_rows.len() implies (scan_hits(p, #[trigger] word_rows[j],
        pos) == (is_prefix_of(p, spec_decoded_word(word_rows[j].0)) && spec_decoded_pos(
        word_rows[j].0,
    ) == pos)) by {
        if is_prefix_of(p, spec_decoded_word(word_rows[j].0)) {
            crate::keys::lemma_decoded_word_prefix(word_rows[j].0);
            crate::keys::lemma_prefix_transitive(p, spec_decoded_word(word_rows[j].0),
                word_rows[j].0);
        }
    }
    lemma_p2_delta_at(new, word_rows, p, pos);
    assert(!kept_map(Map::<Seq<u8>, Seq<u32>>::empty(), deleted).contains_key(ek));
    assert(db1.contains_key(ek) == delta.contains_key(ek)) by {
        assert(db1.dom() =~= kept_map(Map::<Seq<u8>, Seq<u32>>::empty(), deleted).dom().union(
            delta.dom(),
        ));
    }
    if db1.contains_key(ek) {
        assert(db1[ek].to_set() == stored_part(
            kept_map(Map::<Seq<u8>, Seq<u32>>::empty(), deleted),
            ek,
        ).union(delta[ek]));
        assert(db1[ek].to_set() =~= scan_members(p, word_rows, pos));
        assert(db1[ek].to_set() =~= Set::new(
            |d: u32|
                exists|j: int|
                    0 <= j < word_rows.len() && is_prefix_of(
                        p,
                        spec_decoded_word(#[trigger] word_rows[j].0),
                    ) && spec_decoded_pos(word_rows[j].0) == pos && word_rows[j].1.to_set().contains(
                        d,
                    ),
        ));
    }
}

/// A key of one side of a join keeps at least its own members.
proof fn lemma_join_superset(a: Map<Seq<u8>, Set<u32>>, b: Map<Seq<u8>, Set<u32>>, k: Seq<u8>)
    requires
        a.contains_key(k),
    ensures
        join(a, b).contains_key(k),
        a[k].subset_of(join(a, b)[k]),
{
}

/// Idempotence: a second build over the same change stream and groups, with
/// no new and no deleted prefixes, leaves the store byte-identical. The
/// hypotheses are the first and second build's postconditions; the store
/// values of the prior state are canonical.
pub proof fn lemma_idempotence(
    db0: Map<Seq<u8>, Seq<u32>>,
    db1: Map<Seq<u8>, Seq<u32>>,
    db2: Map<Seq<u8>, Seq<u32>>,
    changed: Seq<(Seq<u8>, Seq<u32>)>,
    groups: Seq<Seq<Seq<u8>>>,
    new: Seq<Seq<u8>>,
    word_rows: Seq<(Seq<u8>, Seq<u32>)>,
    deleted: Seq<Seq<u8>>,
)
    requires
        forall|k: Seq<u8>| #[trigger] db0.contains_key(k) ==> strictly_sorted(db0[k]),
        merged_with(
            kept_map(db0, deleted),
            join(p1_delta(changed, groups), p2_delta(new, word_rows)),
            db1,
        ),
        merged_with(
            kept_map(db1, Seq::empty()),
            join(p1_delta(changed, groups), p2_delta(Seq::empty(), word_rows)),
            db2,
        ),
    ensures
        db2 == db1,
{
    let p1 = p1_delta(changed, groups);
    let d1 = join(p1, p2_delta(new, word_rows));
    assert(p2_delta(Seq::empty(), word_rows) == Map::<Seq<u8>, Set<u32>>::empty());
    lemma_join_empty(p1);
    let kept1 = kept_map(db1, Seq::empty());
    assert(kept1 =~= db1);
    assert(merged_with(db1, p1, db2));
    assert forall|k: Seq<u8>| #[trigger] db1.contains_key(k) implies strictly_sorted(db1[k]) by {
        if d1.contains_key(k) {
        } else {
            assert(kept_map(db0, deleted).contains_key(k));
            assert(db1[k] == db0[k]);
        }
    }
    assert(db2.dom() =~= db1.dom()) by {
        assert forall|k: Seq<u8>| #[trigger] p1.contains_key(k) implies db1.contains_key(k) by {
            lemma_join_superset(p1, p2_delta(new, word_rows), k);
            assert(d1.contains_key(k));
        }
    }
    assert forall|k: Seq<u8>| #[trigger] db2.contains_key(k) implies db2[k] == db1[k] by {
        if p1.contains_key(k) {
            lemma_join_superset(p1, p2_delta(new, word_rows), k);
            assert(db1[k].to_set() == stored_part(kept_map(db0, deleted), k).union(d1[k]));
            assert(p1[k].subset_of(db1[k].to_set()));
            assert(db2[k].to_set() == stored_part(db1, k).union(p1[k]));
            assert(db2[k].to_set() =~= db1[k].to_set());
            lemma_strictly_sorted_unique(db2[k], db1[k]);
        } else {
            assert(db1.contains_key(k) && !p1.contains_key(k));
        }
    }
    assert(db2 =~= db1);
}

} // verus!
