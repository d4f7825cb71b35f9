//! In-place two-pointer partition of a range of the index permutation.
use vstd::prelude::*;
use crate::geometry::BuildPrimitive;
use crate::node::{holds_value, is_permutation};
use crate::split::SplitPlane;

verus! {

/// Exchanges the elements at `i0` and `i1`.
pub fn swap<T: Copy>(data: &mut Vec<T>, i0: usize, i1: usize)
    requires
        i0 < old(data).len(),
        i1 < old(data).len(),
    ensures
        final(data)@ == old(data)@.update(i0 as int, old(data)@[i1 as int]).update(
            i1 as int,
            old(data)@[i0 as int],
        ),
{
    let v0 = data[i0];
    let v1 = data[i1];
    data.set(i0, v1);
    data.set(i1, v0);
}

/// Positions `lo .. hi` of `new` hold what positions `lo .. hi` of `old` held,
/// every element taken from there and every element found again there.
pub open spec fn rearranged(old: Seq<u32>, new: Seq<u32>, lo: int, hi: int) -> bool {
    &&& forall|j: int| lo <= j < hi ==> #[trigger] taken_from(old, new[j], lo, hi)
    &&& forall|j: int| lo <= j < hi ==> #[trigger] taken_from(new, old[j], lo, hi)
}

/// Some position in `lo .. hi` of `s` holds `v`.
pub open spec fn taken_from(s: Seq<u32>, v: u32, lo: int, hi: int) -> bool {
    exists|k: int| lo <= k < hi && s[k] == v
}

/// Exchanging two positions of a permutation keeps it a permutation.
pub proof fn lemma_swap_permutation(s: Seq<u32>, i: int, j: int, n: nat)
    requires
        is_permutation(s, n),
        0 <= i < n,
        0 <= j < n,
    ensures
        is_permutation(s.update(i, s[j]).update(j, s[i]), n),
{
    let t = s.update(i, s[j]).update(j, s[i]);
    assert forall|v: int| 0 <= v < n implies #[trigger] holds_value(t, v) by {
        assert(holds_value(s, v));
        let w = choose|w: int| 0 <= w < s.len() && s[w] == v;
        let w2 = if w == i {
            j
        } else if w == j {
            i
        } else {
            w
        };
        assert(t[w2] == v);
    }
    assert forall|a: int, b: int| 0 <= a < n && 0 <= b < n && a != b implies (#[trigger] t[a])
        != (#[trigger] t[b]) by {
        let a2 = if a == i {
            j
        } else if a == j {
            i
        } else {
            a
        };
        let b2 = if b == i {
            j
        } else if b == j {
            i
        } else {
            b
        };
        assert(t[a] == s[a2]);
        assert(t[b] == s[b2]);
    }
}

/// Exchanging two positions inside `lo .. hi` keeps what the range holds.
proof fn lemma_swap_rearranged(orig: Seq<u32>, s: Seq<u32>, i: int, j: int, lo: int, hi: int)
    requires
        rearranged(orig, s, lo, hi),
        lo <= i < hi,
        lo <= j < hi,
        s.len() == orig.len(),
        0 <= lo <= hi <= s.len(),
    ensures
        rearranged(orig, s.update(i, s[j]).update(j, s[i]), lo, hi),
{
    let t = s.update(i, s[j]).update(j, s[i]);
    assert forall|p: int| lo <= p < hi implies #[trigger] taken_from(orig, t[p], lo, hi) by {
        let q = if p == i {
            j
        } else if p == j {
            i
        } else {
            p
        };
        assert(t[p] == s[q]);
        assert(taken_from(orig, s[q], lo, hi));
    }
    assert forall|p: int| lo <= p < hi implies #[trigger] taken_from(t, orig[p], lo, hi) by {
        assert(taken_from(s, orig[p], lo, hi));
        let w = choose|w: int| lo <= w < hi && s[w] == orig[p];
        let w2 = if w == i {
            j
        } else if w == j {
            i
        } else {
            w
        };
        assert(t[w2] == orig[p]);
    }
}

/// What the two-pointer scheme makes of positions `i .. j` of `idx`, with the
/// positions before `i` already before the plane and those from `j` on already
/// past it: it scans from the front, and exchanges a primitive found past the
/// plane with the last unscanned one. Returns the reordered indices and where the
/// primitives past the plane begin.
pub open spec fn partition_spec(
    idx: Seq<u32>,
    prims: Seq<BuildPrimitive>,
    plane: SplitPlane,
    i: int,
    j: int,
) -> (Seq<u32>, int)
    decreases j - i,
{
    if i >= j {
        (idx, i)
    } else if plane.goes_left_spec(prims[idx[i] as int].centroid) {
        partition_spec(idx, prims, plane, i + 1, j)
    } else {
        partition_spec(idx.update(i, idx[j - 1]).update(j - 1, idx[i]), prims, plane, i, j - 1)
    }
}

/// Reorders positions `first .. end` of `idx` so that the primitives whose
/// centroids lie before `plane` come first, and returns where the others begin.
pub fn partition(
    idx: &mut Vec<u32>,
    prims: &Vec<BuildPrimitive>,
    first: usize,
    end: usize,
    plane: &SplitPlane,
) -> (mid: usize)
    requires
        first <= end <= old(idx).len(),
        plane.wf(),
        forall|j: int| 0 <= j < old(idx).len() ==> (#[trigger] old(idx)@[j]) < prims.len(),
        forall|i: int| 0 <= i < prims.len() ==> (#[trigger] prims@[i]).centroid.in_range(),
    ensures
        first <= mid <= end,
        final(idx).len() == old(idx).len(),
        forall|j: int|
            first <= j < mid ==> plane.goes_left_spec(
                prims@[(#[trigger] final(idx)@[j]) as int].centroid,
            ),
        forall|j: int|
            mid <= j < end ==> !plane.goes_left_spec(
                prims@[(#[trigger] final(idx)@[j]) as int].centroid,
            ),
        forall|j: int|
            0 <= j < old(idx).len() && !(first <= j < end) ==> (#[trigger] final(idx)@[j])
                == old(idx)@[j],
        forall|j: int| 0 <= j < final(idx).len() ==> (#[trigger] final(idx)@[j]) < prims.len(),
        rearranged(old(idx)@, final(idx)@, first as int, end as int),
        is_permutation(old(idx)@, old(idx)@.len()) ==> is_permutation(
            final(idx)@,
            old(idx)@.len(),
        ),
        (final(idx)@, mid as int) == partition_spec(old(idx)@, prims@, *plane, first as int, end as int),
{
    let ghost orig = idx@;
    let mut i = first;
    let mut j = end;
    assert forall|p: int| first <= p < end implies #[trigger] taken_from(orig, idx@[p], first as int, end as int) by {
        assert(orig[p] == idx@[p]);
    }
    assert forall|p: int| first <= p < end implies #[trigger] taken_from(idx@, orig[p], first as int, end as int) by {
        assert(orig[p] == idx@[p]);
    }
    while i < j
        invariant
            first <= i <= j <= end,
            end <= orig.len(),
            idx.len() == orig.len(),
            plane.wf(),
            forall|i: int| 0 <= i < prims.len() ==> (#[trigger] prims@[i]).centroid.in_range(),
            forall|q: int| 0 <= q < idx.len() ==> (#[trigger] idx@[q]) < prims.len(),
            forall|q: int|
                first <= q < i ==> plane.goes_left_spec(prims@[(#[trigger] idx@[q]) as int].centroid),
            forall|q: int|
                j <= q < end ==> !plane.goes_left_spec(
                    prims@[(#[trigger] idx@[q]) as int].centroid,
                ),
            forall|q: int|
                0 <= q < orig.len() && !(first <= q < end) ==> (#[trigger] idx@[q]) == orig[q],
            rearranged(orig, idx@, first as int, end as int),
            is_permutation(orig, orig.len()) ==> is_permutation(idx@, orig.len()),
            partition_spec(idx@, prims@, *plane, i as int, j as int) == partition_spec(
                orig,
                prims@,
                *plane,
                first as int,
                end as int,
            ),
        decreases j - i,
    {
        let c = prims[idx[i] as usize].centroid;
        if plane.goes_left(&c) {
            i += 1;
        } else {
            j -= 1;
            proof {
                lemma_swap_rearranged(orig, idx@, i as int, j as int, first as int, end as int);
                if is_permutation(orig, orig.len()) {
                    lemma_swap_permutation(idx@, i as int, j as int, orig.len());
                }
            }
            swap(idx, i, j);
        }
    }
    i
}


/// Every range is a rearrangement of itself.
pub proof fn lemma_rearranged_refl(s: Seq<u32>, lo: int, hi: int)
    ensures
        rearranged(s, s, lo, hi),
{
    assert forall|j: int| lo <= j < hi implies #[trigger] taken_from(s, s[j], lo, hi) by {}
}

/// Rearranging twice is rearranging.
pub proof fn lemma_rearranged_trans(s1: Seq<u32>, s2: Seq<u32>, s3: Seq<u32>, lo: int, hi: int)
    requires
        rearranged(s1, s2, lo, hi),
        rearranged(s2, s3, lo, hi),
    ensures
        rearranged(s1, s3, lo, hi),
{
    assert forall|j: int| lo <= j < hi implies #[trigger] taken_from(s1, s3[j], lo, hi) by {
        assert(taken_from(s2, s3[j], lo, hi));
        let k = choose|k: int| lo <= k < hi && s2[k] == s3[j];
        assert(taken_from(s1, s2[k], lo, hi));
    }
    assert forall|j: int| lo <= j < hi implies #[trigger] taken_from(s3, s1[j], lo, hi) by {
        assert(taken_from(s2, s1[j], lo, hi));
        let k = choose|k: int| lo <= k < hi && s2[k] == s1[j];
        assert(taken_from(s3, s2[k], lo, hi));
    }
}

/// Rearranging a part of a range, and nothing else in it, rearranges the range.
pub proof fn lemma_rearranged_widen(
    old: Seq<u32>,
    new: Seq<u32>,
    lo: int,
    hi: int,
    outer_lo: int,
    outer_hi: int,
)
    requires
        rearranged(old, new, lo, hi),
        outer_lo <= lo <= hi <= outer_hi,
        forall|j: int| outer_lo <= j < outer_hi && !(lo <= j < hi) ==> (#[trigger] new[j]) == old[j],
    ensures
        rearranged(old, new, outer_lo, outer_hi),
{
    assert forall|j: int| outer_lo <= j < outer_hi implies #[trigger] taken_from(old, new[j], outer_lo, outer_hi) by {
        if lo <= j < hi {
            assert(taken_from(old, new[j], lo, hi));
        } else {
            assert(new[j] == old[j]);
        }
    }
    assert forall|j: int| outer_lo <= j < outer_hi implies #[trigger] taken_from(new, old[j], outer_lo, outer_hi) by {
        if lo <= j < hi {
            assert(taken_from(new, old[j], lo, hi));
        } else {
            assert(new[j] == old[j]);
        }
    }
}

} // verus!
