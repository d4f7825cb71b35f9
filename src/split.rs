//! Split planes and the binned surface-area-heuristic search for the best one.
use vstd::prelude::*;
use crate::geometry::{AABB, AREA_LIMIT, BuildPrimitive, CENTROID_LIMIT, Centroid};
use crate::node::degenerate_range;

verus! {

/// The largest number of bins that a split search may use.
pub const MAX_BINS: usize = 1024;

/// A candidate plane: along `axis`, the centroid range `origin .. origin + extent`
/// cut into `bin_count` equal bins, split after bin `boundary`. The plane stands
/// at `origin + extent * (boundary + 1) / bin_count`; `cost` is its
/// surface-area-heuristic cost.
#[derive(Clone, Copy, Debug, PartialEq, Eq, Structural)]
pub struct SplitPlane {
    pub axis: usize,
    pub origin: i64,
    pub extent: i64,
    pub bin_count: usize,
    pub boundary: usize,
    pub cost: u128,
}

impl SplitPlane {
    pub open spec fn wf(self) -> bool {
        &&& self.axis < 3
        &&& 2 <= self.bin_count <= MAX_BINS
        &&& self.boundary + 1 < self.bin_count
        &&& -CENTROID_LIMIT <= self.origin <= CENTROID_LIMIT
        &&& 0 < self.extent <= 2 * CENTROID_LIMIT
    }

    /// The centroid lies before the plane, on the side of the first child.
    pub open spec fn goes_left_spec(self, c: Centroid) -> bool {
        (c.coord(self.axis as int) - self.origin) * self.bin_count < self.extent * (self.boundary
            + 1)
    }

    pub fn goes_left(&self, c: &Centroid) -> (r: bool)
        requires
            self.wf(),
            c.in_range(),
        ensures
            r == self.goes_left_spec(*c),
    {
        let d = c.axis(self.axis) - self.origin;
        let b = self.bin_count as i64;
        let k = (self.boundary + 1) as i64;
        assert(-0x8_0000_0000_0000 <= d * b <= 0x8_0000_0000_0000) by (nonlinear_arith)
            requires
                -0x200_0000_0000 <= d <= 0x200_0000_0000,
                0 <= b <= 1024,
        ;
        assert(0 <= self.extent * k <= 0x8_0000_0000_0000) by (nonlinear_arith)
            requires
                0 <= self.extent <= 0x200_0000_0000,
                0 <= k <= 1024,
        ;
        d * b < self.extent * k
    }
}


/// The centroid coordinate along `axis` of the primitive at position `j` of `idx`.
pub open spec fn key(prims: Seq<BuildPrimitive>, idx: Seq<u32>, j: int, axis: int) -> int {
    prims[idx[j] as int].centroid.coord(axis)
}

/// What a split search may read: a non-empty range of `idx` naming well-formed primitives.
pub open spec fn search_input(
    prims: Seq<BuildPrimitive>,
    idx: Seq<u32>,
    first: int,
    count: int,
) -> bool {
    &&& 1 <= count
    &&& 0 <= first
    &&& first + count <= idx.len()
    &&& count <= u32::MAX
    &&& forall|j: int| 0 <= j < idx.len() ==> (#[trigger] idx[j]) < prims.len()
    &&& forall|i: int| 0 <= i < prims.len() ==> (#[trigger] prims[i]).wf()
}

/// Some position in `first .. first + count` has key `v` along `axis`.
pub open spec fn key_attained(
    prims: Seq<BuildPrimitive>,
    idx: Seq<u32>,
    first: int,
    count: int,
    axis: int,
    v: int,
) -> bool {
    exists|j: int| first <= j < first + count && key(prims, idx, j, axis) == v
}

/// `lo` and `hi` are the least and the greatest key along `axis` in the range.
pub open spec fn key_bounds(
    prims: Seq<BuildPrimitive>,
    idx: Seq<u32>,
    first: int,
    count: int,
    axis: int,
    lo: int,
    hi: int,
) -> bool {
    &&& forall|j: int| first <= j < first + count ==> lo <= #[trigger] key(prims, idx, j, axis) <= hi
    &&& key_attained(prims, idx, first, count, axis, lo)
    &&& key_attained(prims, idx, first, count, axis, hi)
}

/// The least key along `axis` over the first `i` positions of the range.
pub open spec fn key_min(prims: Seq<BuildPrimitive>, idx: Seq<u32>, first: int, i: int, axis: int) -> int
    decreases i,
{
    if i <= 1 {
        key(prims, idx, first, axis)
    } else {
        let m = key_min(prims, idx, first, i - 1, axis);
        let c = key(prims, idx, first + i - 1, axis);
        if c < m {
            c
        } else {
            m
        }
    }
}

/// The greatest key along `axis` over the first `i` positions of the range.
pub open spec fn key_max(prims: Seq<BuildPrimitive>, idx: Seq<u32>, first: int, i: int, axis: int) -> int
    decreases i,
{
    if i <= 1 {
        key(prims, idx, first, axis)
    } else {
        let m = key_max(prims, idx, first, i - 1, axis);
        let c = key(prims, idx, first + i - 1, axis);
        if c > m {
            c
        } else {
            m
        }
    }
}

/// The least and the greatest centroid coordinate along `axis` in the range.
fn centroid_bounds(
    prims: &Vec<BuildPrimitive>,
    idx: &Vec<u32>,
    first: usize,
    count: usize,
    axis: usize,
) -> (r: (i64, i64))
    requires
        search_input(prims@, idx@, first as int, count as int),
        axis < 3,
    ensures
        key_bounds(prims@, idx@, first as int, count as int, axis as int, r.0 as int, r.1 as int),
        r.0 == key_min(prims@, idx@, first as int, count as int, axis as int),
        r.1 == key_max(prims@, idx@, first as int, count as int, axis as int),
        -CENTROID_LIMIT <= r.0 <= r.1 <= CENTROID_LIMIT,
{
    let n = idx.len();
    let c0 = prims[idx[first] as usize].centroid.axis(axis);
    let mut lo = c0;
    let mut hi = c0;
    let mut i: usize = 1;
    assert(key(prims@, idx@, first as int, axis as int) == c0);
    assert(prims@[idx@[first as int] as int].wf());
    while i < count
        invariant
            search_input(prims@, idx@, first as int, count as int),
            axis < 3,
            n == idx.len(),
            1 <= i <= count,
            forall|j: int| first <= j < first + i ==> lo <= #[trigger] key(prims@, idx@, j, axis as int) <= hi,
            key_attained(prims@, idx@, first as int, i as int, axis as int, lo as int),
            key_attained(prims@, idx@, first as int, i as int, axis as int, hi as int),
            lo == key_min(prims@, idx@, first as int, i as int, axis as int),
            hi == key_max(prims@, idx@, first as int, i as int, axis as int),
            -CENTROID_LIMIT <= lo <= hi <= CENTROID_LIMIT,
        decreases count - i,
    {
        let c = prims[idx[first + i] as usize].centroid.axis(axis);
        assert(key(prims@, idx@, first + i, axis as int) == c);
        assert(prims@[idx@[first + i] as int].wf());
        if c < lo {
            lo = c;
        }
        if c > hi {
            hi = c;
        }
        i += 1;
    }
    (lo, hi)
}

#[derive(Clone, Copy)]
struct Bin {
    bounds: AABB,
    count: u32,
}

/// The bin, among `bin_count` equal bins over `lo .. lo + extent`, that key `c` falls in.
pub open spec fn bin_of(c: int, lo: int, extent: int, bin_count: int) -> int {
    let b = (c - lo) * bin_count / extent;
    if b < bin_count - 1 {
        b
    } else {
        bin_count - 1
    }
}

/// The bin of the primitive at position `j`.
pub open spec fn item_bin(
    prims: Seq<BuildPrimitive>,
    idx: Seq<u32>,
    j: int,
    axis: int,
    lo: int,
    extent: int,
    bin_count: int,
) -> int {
    bin_of(key(prims, idx, j, axis), lo, extent, bin_count)
}

/// How many of the first `i` primitives of the range fall in bin `b`.
pub open spec fn bin_size(
    prims: Seq<BuildPrimitive>,
    idx: Seq<u32>,
    first: int,
    i: int,
    axis: int,
    lo: int,
    extent: int,
    bin_count: int,
    b: int,
) -> int
    decreases i,
{
    if i <= 0 {
        0
    } else {
        bin_size(prims, idx, first, i - 1, axis, lo, extent, bin_count, b) + if item_bin(
            prims,
            idx,
            first + i - 1,
            axis,
            lo,
            extent,
            bin_count,
        ) == b {
            1int
        } else {
            0int
        }
    }
}

/// The bounds of those of the first `i` primitives of the range that fall in bin `b`.
pub open spec fn bin_bounds(
    prims: Seq<BuildPrimitive>,
    idx: Seq<u32>,
    first: int,
    i: int,
    axis: int,
    lo: int,
    extent: int,
    bin_count: int,
    b: int,
) -> AABB
    decreases i,
{
    if i <= 0 {
        AABB::empty_spec()
    } else {
        let prev = bin_bounds(prims, idx, first, i - 1, axis, lo, extent, bin_count, b);
        if item_bin(prims, idx, first + i - 1, axis, lo, extent, bin_count) == b {
            prev.union(prims[idx[first + i - 1] as int].bounds)
        } else {
            prev
        }
    }
}

/// The primitive count of bins `0 ..= k` over the `count` primitives of the range.
pub open spec fn count_upto(
    prims: Seq<BuildPrimitive>,
    idx: Seq<u32>,
    first: int,
    count: int,
    axis: int,
    lo: int,
    extent: int,
    bin_count: int,
    k: int,
) -> int
    decreases k + 1,
{
    if k < 0 {
        0
    } else {
        count_upto(prims, idx, first, count, axis, lo, extent, bin_count, k - 1) + bin_size(
            prims,
            idx,
            first,
            count,
            axis,
            lo,
            extent,
            bin_count,
            k,
        )
    }
}

/// The bounds of bins `0 ..= k`.
pub open spec fn box_upto(
    prims: Seq<BuildPrimitive>,
    idx: Seq<u32>,
    first: int,
    count: int,
    axis: int,
    lo: int,
    extent: int,
    bin_count: int,
    k: int,
) -> AABB
    decreases k + 1,
{
    if k < 0 {
        AABB::empty_spec()
    } else {
        box_upto(prims, idx, first, count, axis, lo, extent, bin_count, k - 1).union(
            bin_bounds(prims, idx, first, count, axis, lo, extent, bin_count, k),
        )
    }
}

/// The primitive count of bins `b .. bin_count`.
pub open spec fn count_from(
    prims: Seq<BuildPrimitive>,
    idx: Seq<u32>,
    first: int,
    count: int,
    axis: int,
    lo: int,
    extent: int,
    bin_count: int,
    b: int,
) -> int
    decreases bin_count - b,
{
    if b >= bin_count {
        0
    } else {
        count_from(prims, idx, first, count, axis, lo, extent, bin_count, b + 1) + bin_size(
            prims,
            idx,
            first,
            count,
            axis,
            lo,
            extent,
            bin_count,
            b,
        )
    }
}

/// The bounds of bins `b .. bin_count`.
pub open spec fn box_from(
    prims: Seq<BuildPrimitive>,
    idx: Seq<u32>,
    first: int,
    count: int,
    axis: int,
    lo: int,
    extent: int,
    bin_count: int,
    b: int,
) -> AABB
    decreases bin_count - b,
{
    if b >= bin_count {
        AABB::empty_spec()
    } else {
        box_from(prims, idx, first, count, axis, lo, extent, bin_count, b + 1).union(
            bin_bounds(prims, idx, first, count, axis, lo, extent, bin_count, b),
        )
    }
}

/// The surface-area-heuristic cost of splitting after bin `k`: for each side,
/// its primitive count times the area of its bounds.
pub open spec fn boundary_cost(
    prims: Seq<BuildPrimitive>,
    idx: Seq<u32>,
    first: int,
    count: int,
    axis: int,
    lo: int,
    extent: int,
    bin_count: int,
    k: int,
) -> int {
    count_upto(prims, idx, first, count, axis, lo, extent, bin_count, k) * box_upto(
        prims,
        idx,
        first,
        count,
        axis,
        lo,
        extent,
        bin_count,
        k,
    ).area_spec() + count_from(prims, idx, first, count, axis, lo, extent, bin_count, k + 1)
        * box_from(prims, idx, first, count, axis, lo, extent, bin_count, k + 1).area_spec()
}

/// The cost of splitting the range after bin `k` of `bin_count` bins spread over
/// its centroid range along `axis`.
pub open spec fn plane_cost(
    prims: Seq<BuildPrimitive>,
    idx: Seq<u32>,
    first: int,
    count: int,
    axis: int,
    bin_count: int,
    k: int,
) -> int {
    let lo = key_min(prims, idx, first, count, axis);
    let hi = key_max(prims, idx, first, count, axis);
    boundary_cost(prims, idx, first, count, axis, lo, hi - lo, bin_count, k)
}

/// The bins are filled from the first `i` primitives of the range.
spec fn bins_filled(
    bins: Seq<Bin>,
    prims: Seq<BuildPrimitive>,
    idx: Seq<u32>,
    first: int,
    i: int,
    axis: int,
    lo: int,
    extent: int,
) -> bool {
    forall|b: int|
        0 <= b < bins.len() ==> (#[trigger] bins[b]).count == bin_size(
            prims,
            idx,
            first,
            i,
            axis,
            lo,
            extent,
            bins.len() as int,
            b,
        ) && bins[b].bounds == bin_bounds(prims, idx, first, i, axis, lo, extent, bins.len() as int, b)
            && bins[b].bounds.wf() && bins[b].count <= i
}

/// The best boundary along one axis whose keys span `lo .. hi`, and its cost:
/// the first boundary of least cost.
fn best_boundary_on_axis(
    prims: &Vec<BuildPrimitive>,
    idx: &Vec<u32>,
    first: usize,
    count: usize,
    axis: usize,
    lo: i64,
    hi: i64,
    bin_count: usize,
) -> (r: (usize, u128))
    requires
        search_input(prims@, idx@, first as int, count as int),
        axis < 3,
        2 <= bin_count <= MAX_BINS,
        key_bounds(prims@, idx@, first as int, count as int, axis as int, lo as int, hi as int),
        -CENTROID_LIMIT <= lo < hi <= CENTROID_LIMIT,
    ensures
        r.0 + 1 < bin_count,
        r.1 == boundary_cost(
            prims@,
            idx@,
            first as int,
            count as int,
            axis as int,
            lo as int,
            hi - lo,
            bin_count as int,
            r.0 as int,
        ),
        forall|k: int|
            0 <= k < bin_count - 1 ==> #[trigger] boundary_cost(
                prims@,
                idx@,
                first as int,
                count as int,
                axis as int,
                lo as int,
                hi - lo,
                bin_count as int,
                k,
            ) >= r.1,
        forall|k: int|
            0 <= k < r.0 ==> #[trigger] boundary_cost(
                prims@,
                idx@,
                first as int,
                count as int,
                axis as int,
                lo as int,
                hi - lo,
                bin_count as int,
                k,
            ) > r.1,
{
    let n = idx.len();
    let extent = (hi - lo) as u64;
    let ghost f = first as int;
    let ghost c = count as int;
    let ghost a = axis as int;
    let ghost l = lo as int;
    let ghost e = hi - lo;
    let ghost bc = bin_count as int;
    let mut bins: Vec<Bin> = Vec::new();
    let mut b: usize = 0;
    while b < bin_count
        invariant
            b <= bin_count,
            bins.len() == b,
            forall|q: int| 0 <= q < b ==> (#[trigger] bins@[q]) == (Bin { bounds: AABB::empty_spec(), count: 0 }),
        decreases bin_count - b,
    {
        bins.push(Bin { bounds: AABB::empty(), count: 0 });
        b += 1;
    }
    let mut i: usize = 0;
    while i < count
        invariant
            f == first,
            c == count,
            a == axis,
            l == lo,
            e == hi - lo,
            bc == bin_count,
            search_input(prims@, idx@, f, c),
            axis < 3,
            2 <= bin_count <= MAX_BINS,
            key_bounds(prims@, idx@, f, c, a, l, hi as int),
            extent == hi - lo,
            0 < extent <= 2 * CENTROID_LIMIT,
            n == idx.len(),
            i <= count,
            bins.len() == bin_count,
            bins_filled(bins@, prims@, idx@, f, i as int, a, l, e),
        decreases count - i,
    {
        let pos = first + i;
        let prim = prims[idx[pos] as usize];
        let key_c = prim.centroid.axis(axis);
        assert(key(prims@, idx@, pos as int, a) == key_c);
        let d = (key_c - lo) as u64;
        assert(d * (bin_count as u64) <= 0x8_0000_0000_0000) by (nonlinear_arith)
            requires
                d <= 0x200_0000_0000,
                bin_count <= 1024,
        ;
        let raw = d * (bin_count as u64) / extent;
        let bi: usize = if raw < (bin_count - 1) as u64 {
            raw as usize
        } else {
            bin_count - 1
        };
        assert(bi == item_bin(prims@, idx@, pos as int, a, l, e, bc));
        let mut bin = bins[bi];
        bin.count = bin.count + 1;
        proof {
            assert(prims@[idx@[pos as int] as int].wf());
            crate::geometry::lemma_union_contains(bin.bounds, prim.bounds);
        }
        bin.bounds.grow_aabb(prim.bounds);
        bins.set(bi, bin);
        i += 1;
    }
    // Prefix sums over the bins up to each boundary.
    let mut count_a: Vec<u64> = Vec::new();
    let mut area_a: Vec<u128> = Vec::new();
    let mut box_a = AABB::empty();
    let mut sum_a: u64 = 0;
    let mut k: usize = 0;
    while k + 1 < bin_count
        invariant
            f == first,
            c == count,
            a == axis,
            l == lo,
            e == hi - lo,
            bc == bin_count,
            2 <= bin_count <= MAX_BINS,
            bins.len() == bin_count,
            count <= u32::MAX,
            bins_filled(bins@, prims@, idx@, f, c, a, l, e),
            k + 1 <= bin_count,
            count_a.len() == k,
            area_a.len() == k,
            sum_a <= k * 0xffff_ffff,
            box_a.wf(),
            k > 0 ==> sum_a == count_upto(prims@, idx@, f, c, a, l, e, bc, k - 1),
            k > 0 ==> box_a == box_upto(prims@, idx@, f, c, a, l, e, bc, k - 1),
            k == 0 ==> sum_a == 0 && box_a == AABB::empty_spec(),
            forall|q: int| 0 <= q < k ==> (#[trigger] count_a@[q]) == count_upto(prims@, idx@, f, c, a, l, e, bc, q),
            forall|q: int| 0 <= q < k ==> (#[trigger] area_a@[q]) == box_upto(prims@, idx@, f, c, a, l, e, bc, q).area_spec(),
            forall|q: int| 0 <= q < k ==> (#[trigger] count_a@[q]) <= 1024 * 0xffff_ffff,
            forall|q: int| 0 <= q < k ==> (#[trigger] area_a@[q]) <= AREA_LIMIT,
        decreases bin_count - k,
    {
        proof {
            crate::geometry::lemma_union_contains(box_a, bins@[k as int].bounds);
            assert(bins@[k as int].count == bin_size(prims@, idx@, f, c, a, l, e, bc, k as int));
            assert(bins@[k as int].bounds == bin_bounds(prims@, idx@, f, c, a, l, e, bc, k as int));
            assert(count_upto(prims@, idx@, f, c, a, l, e, bc, k as int) == count_upto(prims@, idx@, f, c, a, l, e, bc, k - 1)
                + bin_size(prims@, idx@, f, c, a, l, e, bc, k as int));
            assert(box_upto(prims@, idx@, f, c, a, l, e, bc, k as int) == box_upto(prims@, idx@, f, c, a, l, e, bc, k - 1).union(
                bin_bounds(prims@, idx@, f, c, a, l, e, bc, k as int)));
            if k == 0 {
                assert(count_upto(prims@, idx@, f, c, a, l, e, bc, -1) == 0);
                assert(box_upto(prims@, idx@, f, c, a, l, e, bc, -1) == AABB::empty_spec());
            }
        }
        sum_a = sum_a + bins[k].count as u64;
        box_a.grow_aabb(bins[k].bounds);
        count_a.push(sum_a);
        area_a.push(box_a.area());
        k += 1;
    }
    // Suffix sums over the bins after each boundary.
    let mut count_b: Vec<u64> = count_a.clone();
    let mut area_b: Vec<u128> = area_a.clone();
    let mut box_b = AABB::empty();
    let mut sum_b: u64 = 0;
    let mut k: usize = 0;
    while k + 1 < bin_count
        invariant
            f == first,
            c == count,
            a == axis,
            l == lo,
            e == hi - lo,
            bc == bin_count,
            2 <= bin_count <= MAX_BINS,
            bins.len() == bin_count,
            count <= u32::MAX,
            bins_filled(bins@, prims@, idx@, f, c, a, l, e),
            k + 1 <= bin_count,
            count_b.len() == bin_count - 1,
            area_b.len() == bin_count - 1,
            sum_b <= k * 0xffff_ffff,
            box_b.wf(),
            sum_b == count_from(prims@, idx@, f, c, a, l, e, bc, bc - k),
            box_b == box_from(prims@, idx@, f, c, a, l, e, bc, bc - k),
            forall|q: int| bc - 1 - k <= q < bc - 1 ==> (#[trigger] count_b@[q]) == count_from(prims@, idx@, f, c, a, l, e, bc, q + 1),
            forall|q: int| bc - 1 - k <= q < bc - 1 ==> (#[trigger] area_b@[q]) == box_from(prims@, idx@, f, c, a, l, e, bc, q + 1).area_spec(),
            forall|q: int| 0 <= q < bc - 1 ==> (#[trigger] count_b@[q]) <= 1024 * 0xffff_ffff,
            forall|q: int| 0 <= q < bc - 1 ==> (#[trigger] area_b@[q]) <= AREA_LIMIT,
        decreases bin_count - k,
    {
        let src = bin_count - 1 - k;
        sum_b = sum_b + bins[src].count as u64;
        proof {
            crate::geometry::lemma_union_contains(box_b, bins@[src as int].bounds);
        }
        box_b.grow_aabb(bins[src].bounds);
        count_b.set(src - 1, sum_b);
        area_b.set(src - 1, box_b.area());
        k += 1;
    }
    let mut best_boundary: usize = 0;
    let mut best_cost: u128 = 0;
    let mut k: usize = 0;
    while k + 1 < bin_count
        invariant
            f == first,
            c == count,
            a == axis,
            l == lo,
            e == hi - lo,
            bc == bin_count,
            2 <= bin_count <= MAX_BINS,
            k + 1 <= bin_count,
            count_a.len() == bin_count - 1,
            area_a.len() == bin_count - 1,
            count_b.len() == bin_count - 1,
            area_b.len() == bin_count - 1,
            forall|q: int| 0 <= q < bc - 1 ==> (#[trigger] count_a@[q]) == count_upto(prims@, idx@, f, c, a, l, e, bc, q),
            forall|q: int| 0 <= q < bc - 1 ==> (#[trigger] area_a@[q]) == box_upto(prims@, idx@, f, c, a, l, e, bc, q).area_spec(),
            forall|q: int| 0 <= q < bc - 1 ==> (#[trigger] count_b@[q]) == count_from(prims@, idx@, f, c, a, l, e, bc, q + 1),
            forall|q: int| 0 <= q < bc - 1 ==> (#[trigger] area_b@[q]) == box_from(prims@, idx@, f, c, a, l, e, bc, q + 1).area_spec(),
            forall|q: int| 0 <= q < bc - 1 ==> (#[trigger] count_a@[q]) <= 1024 * 0xffff_ffff,
            forall|q: int| 0 <= q < bc - 1 ==> (#[trigger] area_a@[q]) <= AREA_LIMIT,
            forall|q: int| 0 <= q < bc - 1 ==> (#[trigger] count_b@[q]) <= 1024 * 0xffff_ffff,
            forall|q: int| 0 <= q < bc - 1 ==> (#[trigger] area_b@[q]) <= AREA_LIMIT,
            best_boundary + 1 < bin_count,
            k > 0 ==> best_boundary < k,
            k > 0 ==> best_cost == boundary_cost(prims@, idx@, f, c, a, l, e, bc, best_boundary as int),
            forall|q: int| 0 <= q < k ==> #[trigger] boundary_cost(prims@, idx@, f, c, a, l, e, bc, q) >= best_cost,
            forall|q: int| 0 <= q < best_boundary ==> #[trigger] boundary_cost(prims@, idx@, f, c, a, l, e, bc, q) > best_cost,
        decreases bin_count - k,
    {
        let (ca, aa, cb, ab) = (count_a[k] as u128, area_a[k], count_b[k] as u128, area_b[k]);
        assert(ca * aa <= 0x1000_0000_0000_0000_0000_0000_0000 && cb * ab
            <= 0x1000_0000_0000_0000_0000_0000_0000) by (nonlinear_arith)
            requires
                ca <= 1024 * 0xffff_ffff,
                aa <= 0x3_0000_0000_0000_0000,
                cb <= 1024 * 0xffff_ffff,
                ab <= 0x3_0000_0000_0000_0000,
        ;
        let cost = ca * aa + cb * ab;
        assert(cost == boundary_cost(prims@, idx@, f, c, a, l, e, bc, k as int));
        if k == 0 || cost < best_cost {
            best_boundary = k;
            best_cost = cost;
        }
        k += 1;
    }
    (best_boundary, best_cost)
}

/// All keys along `axis` in the range are equal.
pub open spec fn axis_flat(
    prims: Seq<BuildPrimitive>,
    idx: Seq<u32>,
    first: int,
    count: int,
    axis: int,
) -> bool {
    forall|j: int| first <= j < first + count ==> #[trigger] key(prims, idx, j, axis) == key(prims, idx, first, axis)
}

/// `p` is the plane that the search returns: on an axis where the centroids
/// differ, with bins spread over their range there, and of least cost over all
/// such axes and boundaries, the first in order of axis then boundary on ties.
#[verifier::opaque]
pub open spec fn best_plane(
    p: SplitPlane,
    prims: Seq<BuildPrimitive>,
    idx: Seq<u32>,
    first: int,
    count: int,
    bin_count: int,
    axes: int,
) -> bool {
    &&& p.wf()
    &&& p.axis < axes
    &&& p.bin_count == bin_count
    &&& key_bounds(prims, idx, first, count, p.axis as int, p.origin as int, p.origin + p.extent)
    &&& p.origin == key_min(prims, idx, first, count, p.axis as int)
    &&& p.origin + p.extent == key_max(prims, idx, first, count, p.axis as int)
    &&& p.cost == plane_cost(prims, idx, first, count, p.axis as int, bin_count, p.boundary as int)
    &&& forall|a: int, k: int|
        0 <= a < axes && 0 <= k < bin_count - 1 && !axis_flat(prims, idx, first, count, a)
            ==> #[trigger] plane_cost(prims, idx, first, count, a, bin_count, k) >= p.cost
    &&& forall|a: int, k: int|
        0 <= a < axes && 0 <= k < bin_count - 1 && !axis_flat(prims, idx, first, count, a) && (a
            < p.axis || (a == p.axis && k < p.boundary)) ==> #[trigger] plane_cost(
            prims,
            idx,
            first,
            count,
            a,
            bin_count,
            k,
        ) > p.cost
}

/// The plane of least surface-area-heuristic cost over positions
/// `first .. first + count` of `idx`, searched with `bin_count` bins per axis;
/// none when all centroids there coincide.
pub fn find_best_split_plane(
    prims: &Vec<BuildPrimitive>,
    idx: &Vec<u32>,
    first: usize,
    count: usize,
    bin_count: usize,
) -> (r: Option<SplitPlane>)
    requires
        search_input(prims@, idx@, first as int, count as int),
        2 <= bin_count <= MAX_BINS,
    ensures
        r is None <==> degenerate_range(prims@, idx@, first as int, count as int),
        r matches Some(p) ==> {
            &&& p.wf()
            &&& p.bin_count == bin_count
            &&& key_bounds(prims@, idx@, first as int, count as int, p.axis as int, p.origin as int, p.origin + p.extent)
            &&& best_plane(p, prims@, idx@, first as int, count as int, bin_count as int, 3)
        },
{
    reveal(best_plane);
    let ghost f = first as int;
    let ghost c = count as int;
    let ghost bc = bin_count as int;
    let mut best: Option<SplitPlane> = None;
    let mut axis: usize = 0;
    while axis < 3
        invariant
            f == first,
            c == count,
            bc == bin_count,
            search_input(prims@, idx@, f, c),
            2 <= bin_count <= MAX_BINS,
            axis <= 3,
            best is None <==> forall|a: int| 0 <= a < axis ==> #[trigger] axis_flat(prims@, idx@, f, c, a),
            best matches Some(p) ==> best_plane(p, prims@, idx@, f, c, bc, axis as int),
        decreases 3 - axis,
    {
        proof {
            reveal(best_plane);
        }
        let (lo, hi) = centroid_bounds(prims, idx, first, count, axis);
        if lo < hi {
            let (boundary, cost) = best_boundary_on_axis(
                prims,
                idx,
                first,
                count,
                axis,
                lo,
                hi,
                bin_count,
            );
            let better = match best {
                None => true,
                Some(p) => cost < p.cost,
            };
            proof {
                let jl = choose|j: int| f <= j < f + c && key(prims@, idx@, j, axis as int) == lo;
                let jh = choose|j: int| f <= j < f + c && key(prims@, idx@, j, axis as int) == hi;
                if axis_flat(prims@, idx@, f, c, axis as int) {
                    assert(key(prims@, idx@, jl, axis as int) == key(prims@, idx@, f, axis as int));
                    assert(key(prims@, idx@, jh, axis as int) == key(prims@, idx@, f, axis as int));
                }
                assert forall|k: int| 0 <= k < bc - 1 implies #[trigger] plane_cost(prims@, idx@, f, c, axis as int, bc, k)
                    == boundary_cost(prims@, idx@, f, c, axis as int, lo as int, hi - lo, bc, k) by {}
            }
            if better {
                best = Some(SplitPlane {
                    axis,
                    origin: lo,
                    extent: hi - lo,
                    bin_count,
                    boundary,
                    cost,
                });
            }
        } else {
            proof {
                assert forall|j: int| f <= j < f + c implies #[trigger] key(prims@, idx@, j, axis as int)
                    == key(prims@, idx@, f, axis as int) by {
                    assert(lo <= key(prims@, idx@, f, axis as int) <= hi);
                }
            }
        }
        axis += 1;
    }
    proof {
        if best is None {
            assert(axis_flat(prims@, idx@, f, c, 0));
            assert(axis_flat(prims@, idx@, f, c, 1));
            assert(axis_flat(prims@, idx@, f, c, 2));
            assert forall|j: int| f <= j < f + c implies (#[trigger] prims@[idx@[j] as int]).centroid
                == prims@[idx@[f] as int].centroid by {
                assert(key(prims@, idx@, j, 0) == key(prims@, idx@, f, 0));
                assert(key(prims@, idx@, j, 1) == key(prims@, idx@, f, 1));
                assert(key(prims@, idx@, j, 2) == key(prims@, idx@, f, 2));
            }
        } else if degenerate_range(prims@, idx@, f, c) {
            let p = best.unwrap();
            assert forall|j: int| f <= j < f + c implies #[trigger] key(prims@, idx@, j, p.axis as int)
                == key(prims@, idx@, f, p.axis as int) by {
                assert(prims@[idx@[j] as int].centroid == prims@[idx@[f] as int].centroid);
            }
            let jh = choose|j: int| f <= j < f + c && key(prims@, idx@, j, p.axis as int) == p.origin + p.extent;
            let jl = choose|j: int| f <= j < f + c && key(prims@, idx@, j, p.axis as int) == p.origin;
            assert(key(prims@, idx@, jl, p.axis as int) == key(prims@, idx@, f, p.axis as int));
            assert(key(prims@, idx@, jh, p.axis as int) == key(prims@, idx@, f, p.axis as int));
        }
    }
    best
}


/// The split search's result is determined by its input: two planes that are
/// both the best over the same range with the same bins are the same plane.
pub proof fn lemma_best_plane_unique(
    p: SplitPlane,
    q: SplitPlane,
    prims: Seq<BuildPrimitive>,
    idx: Seq<u32>,
    first: int,
    count: int,
    bin_count: int,
)
    requires
        best_plane(p, prims, idx, first, count, bin_count, 3),
        best_plane(q, prims, idx, first, count, bin_count, 3),
    ensures
        p == q,
{
    reveal(best_plane);
    lemma_spread_axis_not_flat(p, prims, idx, first, count);
    lemma_spread_axis_not_flat(q, prims, idx, first, count);
    let (pa, pb, qa, qb) = (p.axis as int, p.boundary as int, q.axis as int, q.boundary as int);
    assert(plane_cost(prims, idx, first, count, qa, bin_count, qb) >= p.cost);
    assert(plane_cost(prims, idx, first, count, pa, bin_count, pb) >= q.cost);
    if pa < qa || (pa == qa && pb < qb) {
        assert(plane_cost(prims, idx, first, count, pa, bin_count, pb) > q.cost);
    } else if qa < pa || (qa == pa && qb < pb) {
        assert(plane_cost(prims, idx, first, count, qa, bin_count, qb) > p.cost);
    }
}

/// An axis along which a plane's keys span a positive extent is not flat.
proof fn lemma_spread_axis_not_flat(
    p: SplitPlane,
    prims: Seq<BuildPrimitive>,
    idx: Seq<u32>,
    first: int,
    count: int,
)
    requires
        p.extent > 0,
        key_bounds(prims, idx, first, count, p.axis as int, p.origin as int, p.origin + p.extent),
    ensures
        !axis_flat(prims, idx, first, count, p.axis as int),
{
    let a = p.axis as int;
    let jl = choose|j: int| first <= j < first + count && key(prims, idx, j, a) == p.origin;
    let jh = choose|j: int| first <= j < first + count && key(prims, idx, j, a) == p.origin + p.extent;
    if axis_flat(prims, idx, first, count, a) {
        assert(key(prims, idx, jl, a) == key(prims, idx, first, a));
        assert(key(prims, idx, jh, a) == key(prims, idx, first, a));
    }
}

} // verus!
