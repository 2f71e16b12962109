//! Delta maps: the mathematical model of what a batch of candidate rows
//! contributes to the prefix database. A delta maps an encoded key to the set
//! of document ids accumulated for it; deltas of two row batches combine by
//! pointwise union.

use vstd::prelude::*;
use crate::docids::strictly_sorted;

verus! {

/// Pointwise union of two deltas; a key of one side alone keeps its set.
pub open spec fn join(a: Map<Seq<u8>, Set<u32>>, b: Map<Seq<u8>, Set<u32>>) -> Map<
    Seq<u8>,
    Set<u32>,
> {
    Map::new(
        |k: Seq<u8>| a.contains_key(k) || b.contains_key(k),
        |k: Seq<u8>|
            if a.contains_key(k) && b.contains_key(k) {
                a[k].union(b[k])
            } else if a.contains_key(k) {
                a[k]
            } else {
                b[k]
            },
    )
}

/// Add one contribution `s` under key `k` to a delta.
pub open spec fn join1(m: Map<Seq<u8>, Set<u32>>, k: Seq<u8>, s: Set<u32>) -> Map<
    Seq<u8>,
    Set<u32>,
> {
    m.insert(
        k,
        if m.contains_key(k) {
            m[k].union(s)
        } else {
            s
        },
    )
}

/// The delta of a sequence of (key, value) rows: under each key, the union of
/// the values inserted for it.
pub open spec fn rows_delta(rows: Seq<(Seq<u8>, Seq<u32>)>) -> Map<Seq<u8>, Set<u32>>
    decreases rows.len(),
{
    if rows.len() == 0 {
        Map::empty()
    } else {
        join1(rows_delta(rows.drop_last()), rows.last().0, rows.last().1.to_set())
    }
}

pub proof fn lemma_join_empty(a: Map<Seq<u8>, Set<u32>>)
    ensures
        join(a, Map::empty()) == a,
        join(Map::empty(), a) == a,
{
    assert(join(a, Map::empty()) =~= a);
    assert(join(Map::empty(), a) =~= a);
}

/// Folding one contribution into the right side of a join folds it into the
/// whole join.
pub proof fn lemma_join_join1(
    a: Map<Seq<u8>, Set<u32>>,
    b: Map<Seq<u8>, Set<u32>>,
    k: Seq<u8>,
    s: Set<u32>,
)
    ensures
        join(a, join1(b, k, s)) == join1(join(a, b), k, s),
{
    assert forall|k2: Seq<u8>| #![auto] join(a, join1(b, k, s)).contains_key(k2) implies join(
        a,
        join1(b, k, s),
    )[k2] == join1(join(a, b), k, s)[k2] by {
        if k2 == k {
            assert(join(a, join1(b, k, s))[k2] =~= join1(join(a, b), k, s)[k2]);
        }
    }
    assert(join(a, join1(b, k, s)) =~= join1(join(a, b), k, s));
}

/// A contribution at one key commutes past a join whose right side has a
/// different key.
pub proof fn lemma_join1_join_other(
    a: Map<Seq<u8>, Set<u32>>,
    b: Map<Seq<u8>, Set<u32>>,
    k: Seq<u8>,
    s: Set<u32>,
)
    requires
        !b.contains_key(k),
    ensures
        join(join1(a, k, s), b) == join1(join(a, b), k, s),
{
    assert forall|k2: Seq<u8>| #![auto] join(join1(a, k, s), b).contains_key(k2) implies join(
        join1(a, k, s),
        b,
    )[k2] == join1(join(a, b), k, s)[k2] by {}
    assert(join(join1(a, k, s), b) =~= join1(join(a, b), k, s));
}

pub proof fn lemma_join_assoc(
    a: Map<Seq<u8>, Set<u32>>,
    b: Map<Seq<u8>, Set<u32>>,
    c: Map<Seq<u8>, Set<u32>>,
)
    ensures
        join(join(a, b), c) == join(a, join(b, c)),
{
    assert forall|k: Seq<u8>| #![auto] join(join(a, b), c).contains_key(k) implies join(
        join(a, b),
        c,
    )[k] == join(a, join(b, c))[k] by {
        assert(join(join(a, b), c)[k] =~= join(a, join(b, c))[k]);
    }
    assert(join(join(a, b), c) =~= join(a, join(b, c)));
}

/// Appending a row to a batch extends its delta by that row's contribution.
pub proof fn lemma_rows_delta_push(rows: Seq<(Seq<u8>, Seq<u32>)>, k: Seq<u8>, v: Seq<u32>)
    ensures
        rows_delta(rows.push((k, v))) == join1(rows_delta(rows), k, v.to_set()),
{
    assert(rows.push((k, v)).drop_last() =~= rows);
    assert(rows.push((k, v)).last() == (k, v));
}

/// The delta of concatenated batches is the join of their deltas.
pub proof fn lemma_rows_delta_concat(a: Seq<(Seq<u8>, Seq<u32>)>, b: Seq<(Seq<u8>, Seq<u32>)>)
    ensures
        rows_delta(a + b) == join(rows_delta(a), rows_delta(b)),
    decreases b.len(),
{
    if b.len() == 0 {
        assert(a + b =~= a);
        lemma_join_empty(rows_delta(a));
    } else {
        lemma_rows_delta_concat(a, b.drop_last());
        assert((a + b).drop_last() =~= a + b.drop_last());
        assert((a + b).last() == b.last());
        lemma_join_join1(rows_delta(a), rows_delta(b.drop_last()), b.last().0, b.last().1.to_set());
    }
}

/// What the store looks like after merge-loading a delta into it: every
/// incoming key holds the union of what was stored and what came in, rows of
/// keys the delta does not touch are identical, and nothing else exists.
pub open spec fn merged_with(
    db: Map<Seq<u8>, Seq<u32>>,
    delta: Map<Seq<u8>, Set<u32>>,
    out: Map<Seq<u8>, Seq<u32>>,
) -> bool {
    &&& out.dom() == db.dom().union(delta.dom())
    &&& forall|k: Seq<u8>|
        #![auto]
        db.contains_key(k) && !delta.contains_key(k) ==> out.contains_key(k) && out[k] == db[k]
    &&& forall|k: Seq<u8>|
        #![auto]
        delta.contains_key(k) ==> out.contains_key(k) && strictly_sorted(out[k]) && out[k].to_set()
            == stored_part(db, k).union(delta[k])
}

/// The members a key already holds in a store map, empty when absent.
pub open spec fn stored_part(db: Map<Seq<u8>, Seq<u32>>, k: Seq<u8>) -> Set<u32> {
    if db.contains_key(k) {
        db[k].to_set()
    } else {
        Set::empty()
    }
}

} // verus!
