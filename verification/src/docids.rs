//! Document-id sets: sorted sets of 32-bit document identifiers supporting
//! union merge. The canonical representation is a strictly increasing vector,
//! so two sets with the same members have identical representations.

use vstd::prelude::*;

verus! {

/// Strictly increasing: sorted with no duplicates.
pub open spec fn strictly_sorted(s: Seq<u32>) -> bool {
    forall|i: int, j: int| 0 <= i < j < s.len() ==> s[i] < s[j]
}

/// A set of document identifiers, stored as a strictly increasing vector.
pub struct DocIdSet {
    ids: Vec<u32>,
}

impl View for DocIdSet {
    type V = Seq<u32>;

    closed spec fn view(&self) -> Seq<u32> {
        self.ids@
    }
}

impl DocIdSet {
    /// Well-formed: the representation is strictly increasing.
    pub open spec fn wf(self) -> bool {
        strictly_sorted(self@)
    }

    /// The empty set.
    pub fn empty() -> (r: DocIdSet)
        ensures
            r.wf(),
            r@ == Seq::<u32>::empty(),
    {
        DocIdSet { ids: Vec::new() }
    }

    /// Build a set from a vector of ids; `None` when the vector is not
    /// strictly increasing.
    pub fn try_from_vec(ids: Vec<u32>) -> (r: Option<DocIdSet>)
        ensures
            match r {
                Some(d) => d.wf() && d@ == ids@,
                None => !strictly_sorted(ids@),
            },
    {
        let mut i: usize = 1;
        while i < ids.len()
            invariant
                1 <= i || ids.len() == 0,
                i <= ids.len() || ids.len() == 0,
                forall|a: int, b: int| 0 <= a < b < i && b < ids@.len() ==> ids@[a] < ids@[b],
            decreases ids.len() - i,
        {
            if ids[i - 1] >= ids[i] {
                return None;
            }
            assert forall|a: int, b: int| 0 <= a < b < i + 1 && b < ids@.len() implies ids@[a]
                < ids@[b] by {
                if b == i {
                    assert(ids@[i - 1] < ids@[i as int]);
                    if a < i - 1 {
                        assert(ids@[a] < ids@[i - 1]);
                    }
                }
            }
            i += 1;
        }
        Some(DocIdSet { ids })
    }

    /// The ids, in increasing order.
    pub fn ids(&self) -> (r: &Vec<u32>)
        ensures
            r@ == self@,
    {
        &self.ids
    }

    /// An identical copy.
    pub fn duplicate(&self) -> (r: DocIdSet)
        ensures
            r@ == self@,
    {
        let mut out: Vec<u32> = Vec::new();
        let mut i: usize = 0;
        while i < self.ids.len()
            invariant
                i <= self.ids.len(),
                out@ =~= self.ids@.subrange(0, i as int),
            decreases self.ids.len() - i,
        {
            out.push(self.ids[i]);
            i += 1;
        }
        assert(out@ =~= self.ids@);
        DocIdSet { ids: out }
    }
}

/// Pushing an element extends the member set by that element.
pub proof fn lemma_to_set_push(s: Seq<u32>, x: u32)
    ensures
        s.push(x).to_set() =~= s.to_set().insert(x),
{
    assert forall|y: u32| s.push(x).to_set().contains(y) implies s.to_set().insert(x).contains(
        y,
    ) by {
        let i = choose|i: int| 0 <= i < s.push(x).len() && s.push(x)[i] == y;
        if i < s.len() {
            assert(s[i] == y);
        }
    }
    assert forall|y: u32| s.to_set().insert(x).contains(y) implies s.push(x).to_set().contains(
        y,
    ) by {
        if y == x {
            assert(s.push(x)[s.len() as int] == y);
        } else {
            let i = choose|i: int| 0 <= i < s.len() && s[i] == y;
            assert(s.push(x)[i] == y);
        }
    }
}

/// Two strictly increasing sequences with the same member set are equal.
pub proof fn lemma_strictly_sorted_unique(a: Seq<u32>, b: Seq<u32>)
    requires
        strictly_sorted(a),
        strictly_sorted(b),
        a.to_set() == b.to_set(),
    ensures
        a == b,
    decreases a.len(),
{
    if a.len() == 0 {
        if b.len() > 0 {
            assert(b.to_set().contains(b[0]));
            assert(a.contains(b[0]));
        }
        assert(a =~= b);
    } else {
        assert(a.to_set().contains(a[0]));
        assert(b.to_set().contains(a[0]));
        assert(b.contains(a[0]));
        assert(b.len() > 0);
        assert(b.to_set().contains(b[0]));
        assert(a.contains(b[0]));
        let i = choose|i: int| 0 <= i < b.len() && b[i] == a[0];
        let j = choose|j: int| 0 <= j < a.len() && a[j] == b[0];
        assert(b[0] <= b[i]);
        assert(a[0] <= a[j]);
        assert(a[0] == b[0]);
        let at = a.drop_first();
        let bt = b.drop_first();
        assert forall|y: u32| at.to_set().contains(y) implies bt.to_set().contains(y) by {
            let k = choose|k: int| 0 <= k < at.len() && at[k] == y;
            assert(a[k + 1] == y);
            assert(a[0] < y);
            assert(a.to_set().contains(y));
            assert(b.to_set().contains(y));
            assert(b.contains(y));
            let m = choose|m: int| 0 <= m < b.len() && b[m] == y;
            assert(m != 0);
            assert(bt[m - 1] == y);
        }
        assert forall|y: u32| bt.to_set().contains(y) implies at.to_set().contains(y) by {
            let k = choose|k: int| 0 <= k < bt.len() && bt[k] == y;
            assert(b[k + 1] == y);
            assert(b[0] < y);
            assert(b.to_set().contains(y));
            assert(a.to_set().contains(y));
            assert(a.contains(y));
            let m = choose|m: int| 0 <= m < a.len() && a[m] == y;
            assert(m != 0);
            assert(at[m - 1] == y);
        }
        assert(at.to_set() =~= bt.to_set());
        lemma_strictly_sorted_unique(at, bt);
        assert(a =~= b) by {
            assert(a[0] == b[0]);
            assert(forall|k: int| 1 <= k < a.len() ==> a[k] == at[k - 1] && at[k - 1] == bt[k - 1]
                && bt[k - 1] == b[k]);
        }
    }
}

/// Union merge of two document-id sets: the result holds exactly the members
/// of both, again strictly increasing.
pub fn union(a: &DocIdSet, b: &DocIdSet) -> (r: DocIdSet)
    requires
        a.wf(),
        b.wf(),
    ensures
        r.wf(),
        r@.to_set() == a@.to_set().union(b@.to_set()),
{
    let av = &a.ids;
    let bv = &b.ids;
    let mut out: Vec<u32> = Vec::new();
    let mut i: usize = 0;
    let mut j: usize = 0;
    while i < av.len() || j < bv.len()
        invariant
            a.wf(),
            b.wf(),
            av@ == a@,
            bv@ == b@,
            i <= av.len(),
            j <= bv.len(),
            strictly_sorted(out@),
            out@.to_set() =~= av@.subrange(0, i as int).to_set().union(
                bv@.subrange(0, j as int).to_set(),
            ),
            forall|k: int| i <= k < av.len() && out@.len() > 0 ==> out@.last() < av@[k],
            forall|k: int| j <= k < bv.len() && out@.len() > 0 ==> out@.last() < bv@[k],
        decreases av.len() - i + bv.len() - j,
    {
        let ghost prev = out@;
        let ghost pa = av@.subrange(0, i as int);
        let ghost pb = bv@.subrange(0, j as int);
        if j >= bv.len() || (i < av.len() && av[i] <= bv[j]) {
            let x = av[i];
            let ghost took_both = j < bv.len() && bv@[j as int] == x;
            out.push(x);
            proof {
                lemma_to_set_push(prev, x);
                assert(av@.subrange(0, i + 1) =~= pa.push(x));
                lemma_to_set_push(pa, x);
            }
            i += 1;
            if j < bv.len() && bv[j] == x {
                proof {
                    assert(bv@.subrange(0, j + 1) =~= pb.push(x));
                    lemma_to_set_push(pb, x);
                }
                j += 1;
            }
            assert(out@.to_set() =~= av@.subrange(0, i as int).to_set().union(
                bv@.subrange(0, j as int).to_set(),
            ));
        } else {
            let x = bv[j];
            out.push(x);
            proof {
                lemma_to_set_push(prev, x);
                assert(bv@.subrange(0, j + 1) =~= pb.push(x));
                lemma_to_set_push(pb, x);
            }
            j += 1;
            assert(out@.to_set() =~= av@.subrange(0, i as int).to_set().union(
                bv@.subrange(0, j as int).to_set(),
            ));
        }
    }
    proof {
        assert(av@.subrange(0, i as int) =~= av@);
        assert(bv@.subrange(0, j as int) =~= bv@);
    }
    DocIdSet { ids: out }
}

} // verus!
