use vstd::prelude::*;

verus! {

/// A contiguous sub-range `[lo, hi]` (both ends inclusive) of a managed
/// region; the unit in which the allocators reason about free and live
/// space.
pub struct Extent {
    pub lo: int,
    pub hi: int,
}

/// A well-formed free-extent list: every extent is non-empty, and the
/// extents stand in ascending address order with a gap of at least one
/// address between consecutive ones (fully coalesced).
pub open spec fn extents_wf(s: Seq<Extent>) -> bool {
    &&& forall|i: int| 0 <= i < s.len() ==> (#[trigger] s[i]).lo <= s[i].hi
    &&& forall|i: int| 0 <= i && i + 1 < s.len() ==> (#[trigger] s[i]).hi + 2 <= s[i + 1].lo
}

/// Whether address `x` lies in one of the extents of `s`.
pub open spec fn covered(s: Seq<Extent>, x: int) -> bool {
    exists|i: int| 0 <= i < s.len() && (#[trigger] s[i]).lo <= x <= s[i].hi
}

/// In a well-formed list the extents are ordered pairwise, not only between
/// neighbours.
pub proof fn lemma_extents_ordered(s: Seq<Extent>, i: int, j: int)
    requires
        extents_wf(s),
        0 <= i <= j < s.len(),
    ensures
        s[i].lo <= s[j].lo,
        s[i].hi <= s[j].hi,
        i < j ==> s[i].hi + 2 <= s[j].lo,
    decreases j - i,
{
    if i < j {
        lemma_extents_ordered(s, i, j - 1);
        assert(s[j - 1].hi + 2 <= s[j].lo);
    }
}

/// Two well-formed extent lists that cover the same addresses are the same
/// list: the decomposition of a set of addresses into maximal sorted
/// extents is unique.  This is what makes "the free list is restored" mean
/// the same thing as "the free addresses are restored".
#[verifier::rlimit(100)]
pub proof fn lemma_unique_decomposition(s1: Seq<Extent>, s2: Seq<Extent>)
    requires
        extents_wf(s1),
        extents_wf(s2),
        forall|x: int| covered(s1, x) <==> covered(s2, x),
    ensures
        s1 =~= s2,
    decreases s1.len(),
{
    if s1.len() == 0 {
        if s2.len() > 0 {
            assert(0 <= 0 < s2.len() && s2[0].lo <= s2[0].lo <= s2[0].hi);
            assert(covered(s2, s2[0].lo));
            assert(false);
        }
    } else if s2.len() == 0 {
        assert(0 <= 0 < s1.len() && s1[0].lo <= s1[0].lo <= s1[0].hi);
        assert(covered(s1, s1[0].lo));
        assert(false);
    } else {
        let e1 = s1[0];
        let e2 = s2[0];
        // The least covered address is the first extent's start, on both
        // sides, so the two starts agree.
        assert(covered(s1, e1.lo));
        assert(covered(s2, e2.lo));
        let j1 = choose|j: int| 0 <= j < s2.len() && (#[trigger] s2[j]).lo <= e1.lo <= s2[j].hi;
        let j2 = choose|j: int| 0 <= j < s1.len() && (#[trigger] s1[j]).lo <= e2.lo <= s1[j].hi;
        lemma_extents_ordered(s2, 0, j1);
        lemma_extents_ordered(s1, 0, j2);
        assert(e2.lo <= s2[j1].lo <= e1.lo);
        assert(e1.lo <= s1[j2].lo <= e2.lo);
        assert(e1.lo == e2.lo);
        // The address just past the shorter first extent would be covered on
        // one side only, so the two ends agree as well.
        if e1.hi < e2.hi {
            let x = e1.hi + 1;
            assert(e2.lo <= x <= e2.hi);
            assert(covered(s2, x));
            let i = choose|i: int| 0 <= i < s1.len() && (#[trigger] s1[i]).lo <= x <= s1[i].hi;
            assert(i != 0);
            lemma_extents_ordered(s1, 0, i);
            assert(false);
        }
        if e2.hi < e1.hi {
            let x = e2.hi + 1;
            assert(e1.lo <= x <= e1.hi);
            assert(covered(s1, x));
            let i = choose|i: int| 0 <= i < s2.len() && (#[trigger] s2[i]).lo <= x <= s2[i].hi;
            assert(i != 0);
            lemma_extents_ordered(s2, 0, i);
            assert(false);
        }
        assert(e1.hi == e2.hi);
        // Strip the equal first extents and recurse on the tails.
        let t1 = s1.subrange(1, s1.len() as int);
        let t2 = s2.subrange(1, s2.len() as int);
        assert forall|x: int| covered(t1, x) implies covered(t2, x) by {
            let i = choose|i: int| 0 <= i < t1.len() && (#[trigger] t1[i]).lo <= x <= t1[i].hi;
            assert(s1[i + 1] == t1[i]);
            lemma_extents_ordered(s1, 0, i + 1);
            assert(covered(s1, x));
            assert(covered(s2, x));
            let j = choose|j: int| 0 <= j < s2.len() && (#[trigger] s2[j]).lo <= x <= s2[j].hi;
            assert(x > e2.hi);
            assert(j != 0);
            assert(t2[j - 1] == s2[j]);
            assert(0 <= j - 1 < t2.len() && t2[j - 1].lo <= x <= t2[j - 1].hi);
            assert(covered(t2, x));
        }
        assert forall|x: int| covered(t2, x) implies covered(t1, x) by {
            let i = choose|i: int| 0 <= i < t2.len() && (#[trigger] t2[i]).lo <= x <= t2[i].hi;
            assert(s2[i + 1] == t2[i]);
            lemma_extents_ordered(s2, 0, i + 1);
            assert(covered(s2, x));
            assert(covered(s1, x));
            let j = choose|j: int| 0 <= j < s1.len() && (#[trigger] s1[j]).lo <= x <= s1[j].hi;
            assert(x > e1.hi);
            assert(j != 0);
            assert(t1[j - 1] == s1[j]);
            assert(0 <= j - 1 < t1.len() && t1[j - 1].lo <= x <= t1[j - 1].hi);
            assert(covered(t1, x));
        }
        assert(extents_wf(t1)) by {
            assert forall|i: int| 0 <= i < t1.len() implies (#[trigger] t1[i]).lo <= t1[i].hi by {
                assert(t1[i] == s1[i + 1]);
            }
            assert forall|i: int| 0 <= i && i + 1 < t1.len() implies (#[trigger] t1[i]).hi + 2
                <= t1[i + 1].lo by {
                assert(t1[i] == s1[i + 1]);
                assert(t1[i + 1] == s1[i + 2]);
            }
        }
        assert(extents_wf(t2)) by {
            assert forall|i: int| 0 <= i < t2.len() implies (#[trigger] t2[i]).lo <= t2[i].hi by {
                assert(t2[i] == s2[i + 1]);
            }
            assert forall|i: int| 0 <= i && i + 1 < t2.len() implies (#[trigger] t2[i]).hi + 2
                <= t2[i + 1].lo by {
                assert(t2[i] == s2[i + 1]);
                assert(t2[i + 1] == s2[i + 2]);
            }
        }
        lemma_unique_decomposition(t1, t2);
        assert forall|k: int| 0 <= k < s1.len() implies s1[k] == s2[k] by {
            if k > 0 {
                assert(t1[k - 1] == s1[k]);
                assert(t2[k - 1] == s2[k]);
                assert(t1[k - 1] == t2[k - 1]);
            }
        }
    }
}

} // verus!
