//! Top-down construction of a hierarchy by recursive binary splitting.
use vstd::prelude::*;
use crate::geometry::{AABB, BuildPrimitive, bounds_of, lemma_bounds_of};
use crate::node::{
    BVHNode, covered, covers, degenerate_range, holds_value, is_permutation, leaf_size_ok,
    leaves_partition, node_ok, prims_wf, range_bounds, tree_inv,
};
use crate::partition::{
    lemma_rearranged_refl, lemma_rearranged_trans, lemma_rearranged_widen, partition,
    partition_spec, rearranged, taken_from,
};
use crate::split::{
    MAX_BINS, SplitPlane, best_plane, find_best_split_plane, key, lemma_best_plane_unique,
};

verus! {

/// The most primitives a build takes: every node index of the result fits in `u32`.
pub const MAX_PRIMITIVES: usize = 0x7fff_ffff;

/// The choices a build is made with.
#[derive(Clone, Copy, Debug, PartialEq, Eq, Structural)]
pub struct BuildParams {
    /// Bins per axis in the split search.
    pub bin_count: usize,
    /// A node with at most this many primitives stays a leaf.
    pub leaf_threshold: u32,
    /// Keep a node as a leaf when no split costs less than the node itself
    /// (its primitive count times its area).
    pub keep_leaf_when_cheaper: bool,
}

impl BuildParams {
    pub open spec fn wf(self) -> bool {
        2 <= self.bin_count <= MAX_BINS && self.leaf_threshold >= 1
    }
}

/// A finished hierarchy: the nodes, with the root at 0, and the index permutation
/// whose ranges the leaves name.
#[derive(Debug)]
pub struct BVH {
    pub nodes: Vec<BVHNode>,
    pub indices: Vec<u32>,
}

/// The root that a build over no primitives returns: a node with no primitives
/// and the empty box, which traversal takes as a miss.
pub open spec fn empty_root() -> BVHNode {
    BVHNode {
        aabb_min: AABB::empty_spec().min,
        a_or_first: 0,
        aabb_max: AABB::empty_spec().max,
        count: 0,
    }
}

/// Every leaf's box holds the box of every primitive in its range.
pub open spec fn leaves_hold_primitives(
    nodes: Seq<BVHNode>,
    idx: Seq<u32>,
    prims: Seq<BuildPrimitive>,
) -> bool {
    forall|k: int, j: int|
        0 <= k < nodes.len() && (#[trigger] nodes[k]).count > 0 && nodes[k].a_or_first <= j
            < nodes[k].a_or_first + nodes[k].count ==> nodes[k].bounds().contains(
            prims[(#[trigger] idx[j]) as int].bounds,
        )
}

/// What a hierarchy built over `prims` with leaf threshold `threshold` satisfies.
/// Over no primitives it is the empty root alone. Otherwise: the indices are a
/// permutation of the primitives; the leaves' ranges partition them; each leaf's
/// box is exactly the bounds of its primitives; each internal node's two children
/// follow it in the array, exist, and lie in its box; the root's box holds every
/// primitive; and, where `size_checked`, a leaf over `threshold` primitives holds
/// primitives that share one centroid.
pub open spec fn bvh_valid(
    nodes: Seq<BVHNode>,
    idx: Seq<u32>,
    prims: Seq<BuildPrimitive>,
    threshold: int,
    size_checked: bool,
) -> bool {
    if prims.len() == 0 {
        nodes == seq![empty_root()] && idx.len() == 0
    } else {
        &&& 1 <= nodes.len()
        &&& tree_inv(nodes, idx, prims)
        &&& leaves_hold_primitives(nodes, idx, prims)
        &&& forall|i: int| 0 <= i < prims.len() ==> nodes[0].bounds().contains(#[trigger] prims[i].bounds)
        &&& size_checked ==> forall|k: int|
            0 <= k < nodes.len() ==> #[trigger] leaf_size_ok(nodes[k], idx, prims, threshold)
    }
}

/// The index permutation a build starts from: `0 .. n` in order.
pub open spec fn identity_indices(n: nat) -> Seq<u32> {
    Seq::new(n, |i: int| i as u32)
}

/// The node a build starts from: one leaf over all primitives, with their bounds.
pub open spec fn initial_root(prims: Seq<BuildPrimitive>) -> BVHNode {
    let b = bounds_of(range_bounds(prims, identity_indices(prims.len()), 0, prims.len() as int));
    BVHNode { aabb_min: b.min, a_or_first: 0, aabb_max: b.max, count: prims.len() as u32 }
}

/// The root was split, or kept as a leaf, as `subdivide` decides over the
/// primitives in their given order.
pub open spec fn root_decided(
    nodes: Seq<BVHNode>,
    idx: Seq<u32>,
    prims: Seq<BuildPrimitive>,
    params: BuildParams,
) -> bool {
    prims.len() > 0 ==> {
        &&& nodes[0].count > 0 <==> stays_leaf(
            initial_root(prims),
            prims,
            identity_indices(prims.len()),
            params,
        )
        &&& nodes[0].count == 0 ==> split_by_best_plane(
            initial_root(prims),
            prims,
            identity_indices(prims.len()),
            idx,
            params,
        )
    }
}

/// The bounds of the primitives named by positions `first .. first + count` of `idx`.
pub fn calculate_node_aabb(
    prims: &Vec<BuildPrimitive>,
    idx: &Vec<u32>,
    first: usize,
    count: usize,
) -> (r: AABB)
    requires
        first + count <= idx.len(),
        forall|j: int| 0 <= j < idx.len() ==> (#[trigger] idx@[j]) < prims.len(),
        prims_wf(prims@),
    ensures
        r == bounds_of(range_bounds(prims@, idx@, first as int, count as int)),
        r.wf(),
{
    let mut b = AABB::empty();
    let mut i: usize = 0;
    assert(range_bounds(prims@, idx@, first as int, 0) =~= Seq::empty());
    while i < count
        invariant
            first + count <= idx.len(),
            forall|j: int| 0 <= j < idx.len() ==> (#[trigger] idx@[j]) < prims.len(),
            prims_wf(prims@),
            i <= count,
            b == bounds_of(range_bounds(prims@, idx@, first as int, i as int)),
        decreases count - i,
    {
        let p = idx[first + i] as usize;
        b.grow_aabb(prims[p].bounds);
        proof {
            let s = range_bounds(prims@, idx@, first as int, i + 1);
            assert(s.drop_last() =~= range_bounds(prims@, idx@, first as int, i as int));
        }
        i += 1;
    }
    proof {
        let s = range_bounds(prims@, idx@, first as int, count as int);
        assert forall|j: int| 0 <= j < s.len() implies (#[trigger] s[j]).wf() by {
            assert(prims@[idx@[first + j] as int].wf());
        }
        lemma_bounds_of(s, b);
    }
    b
}

/// The cost of keeping `node` as a leaf: its primitive count times its area.
pub fn calculate_node_cost(node: &BVHNode) -> (r: u128)
    ensures
        r == node.count * node.bounds().area_spec(),
{
    let area = node.aabb().area();
    let c = node.count as u128;
    assert(c * area <= 0xffff_ffff * 0x3_0000_0000_0000_0000) by (nonlinear_arith)
        requires
            c <= 0xffff_ffff,
            area <= 0x3_0000_0000_0000_0000,
    ;
    c * area
}

/// A box that holds every primitive of a range holds the bounds of any range
/// whose primitives were all taken from it.
proof fn lemma_child_inside(
    prims: Seq<BuildPrimitive>,
    old_idx: Seq<u32>,
    new_idx: Seq<u32>,
    first: int,
    count: int,
    sub_first: int,
    sub_count: int,
)
    requires
        prims_wf(prims),
        0 <= first,
        first + count <= old_idx.len(),
        old_idx.len() == new_idx.len(),
        forall|j: int| 0 <= j < old_idx.len() ==> (#[trigger] old_idx[j]) < prims.len(),
        forall|j: int| 0 <= j < new_idx.len() ==> (#[trigger] new_idx[j]) < prims.len(),
        first <= sub_first,
        0 <= sub_count,
        sub_first + sub_count <= first + count,
        forall|j: int| first <= j < first + count ==> #[trigger] taken_from(old_idx, new_idx[j], first, first + count),
    ensures
        bounds_of(range_bounds(prims, old_idx, first, count)).contains(
            bounds_of(range_bounds(prims, new_idx, sub_first, sub_count)),
        ),
{
    let outer = range_bounds(prims, old_idx, first, count);
    let inner = range_bounds(prims, new_idx, sub_first, sub_count);
    let c = bounds_of(outer);
    assert forall|j: int| 0 <= j < outer.len() implies (#[trigger] outer[j]).wf() by {
        assert(prims[old_idx[first + j] as int].wf());
    }
    lemma_bounds_of(outer, c);
    assert forall|j: int| 0 <= j < inner.len() implies (#[trigger] inner[j]).wf() && c.contains(
        inner[j],
    ) by {
        assert(taken_from(old_idx, new_idx[sub_first + j], first, first + count));
        let w = choose|w: int| first <= w < first + count && old_idx[w] == new_idx[sub_first + j];
        assert(outer[w - first] == inner[j]);
        assert(prims[new_idx[sub_first + j] as int].wf());
    }
    lemma_bounds_of(inner, c);
}

/// Positions `first .. mid` of `idx` name primitives whose centroids lie before
/// plane `p`, and positions `mid .. end` primitives whose centroids do not; both
/// sides are non-empty.
pub open spec fn sides_at(
    p: SplitPlane,
    prims: Seq<BuildPrimitive>,
    idx: Seq<u32>,
    first: int,
    mid: int,
    end: int,
) -> bool {
    &&& first < mid < end
    &&& forall|j: int| first <= j < mid ==> p.goes_left_spec(prims[(#[trigger] idx[j]) as int].centroid)
    &&& forall|j: int| mid <= j < end ==> !p.goes_left_spec(prims[(#[trigger] idx[j]) as int].centroid)
}

/// The leaf `nd` is not split: it holds at most the threshold, its primitives
/// share one centroid, or (where the policy asks) the best split costs no less
/// than the leaf.
pub open spec fn stays_leaf(
    nd: BVHNode,
    prims: Seq<BuildPrimitive>,
    idx: Seq<u32>,
    params: BuildParams,
) -> bool {
    ||| nd.count <= params.leaf_threshold
    ||| degenerate_range(prims, idx, nd.a_or_first as int, nd.count as int)
    ||| params.keep_leaf_when_cheaper && forall|p: SplitPlane|
        #[trigger] best_plane(
            p,
            prims,
            idx,
            nd.a_or_first as int,
            nd.count as int,
            params.bin_count as int,
            3,
        ) ==> p.cost >= nd.count * nd.bounds().area_spec()
}

/// The range of leaf `nd`, as it stood in `old_idx`, was split by its best plane:
/// in `new_idx` the primitives before the plane come first, then the others.
pub open spec fn split_by_best_plane(
    nd: BVHNode,
    prims: Seq<BuildPrimitive>,
    old_idx: Seq<u32>,
    new_idx: Seq<u32>,
    params: BuildParams,
) -> bool {
    exists|p: SplitPlane, mid: int|
        #[trigger] sides_at(
            p,
            prims,
            new_idx,
            nd.a_or_first as int,
            mid,
            nd.a_or_first + nd.count,
        ) && best_plane(
            p,
            prims,
            old_idx,
            nd.a_or_first as int,
            nd.count as int,
            params.bin_count as int,
            3,
        )
}

/// The nodes and indices that subdividing leaf `k`, over positions
/// `first .. first + count` of `idx`, yields. A leaf that `stays_leaf` is kept;
/// otherwise its range is partitioned at its best plane, two leaves over the two
/// sides are appended (with the bounds of their primitives), the node becomes
/// internal with the first of them as child, and both are subdivided in turn.
pub open spec fn subdivide_spec(
    nodes: Seq<BVHNode>,
    idx: Seq<u32>,
    k: int,
    first: int,
    count: int,
    prims: Seq<BuildPrimitive>,
    params: BuildParams,
) -> (Seq<BVHNode>, Seq<u32>)
    decreases count,
{
    let nd = nodes[k];
    if count <= params.leaf_threshold || degenerate_range(prims, idx, first, count) {
        (nodes, idx)
    } else {
        let p = choose|p: SplitPlane|
            best_plane(p, prims, idx, first, count, params.bin_count as int, 3);
        if params.keep_leaf_when_cheaper && p.cost >= count * nd.bounds().area_spec() {
            (nodes, idx)
        } else {
            let (idx1, mid) = partition_spec(idx, prims, p, first, first + count);
            if mid <= first || first + count <= mid {
                (nodes, idx)
            } else {
                let a = nodes.len() as int;
                let box_a = bounds_of(range_bounds(prims, idx1, first, mid - first));
                let box_b = bounds_of(range_bounds(prims, idx1, mid, first + count - mid));
                let nodes1 = nodes.push(
                    BVHNode {
                        aabb_min: box_a.min,
                        a_or_first: first as u32,
                        aabb_max: box_a.max,
                        count: (mid - first) as u32,
                    },
                ).push(
                    BVHNode {
                        aabb_min: box_b.min,
                        a_or_first: mid as u32,
                        aabb_max: box_b.max,
                        count: (first + count - mid) as u32,
                    },
                ).update(
                    k,
                    BVHNode {
                        aabb_min: nd.aabb_min,
                        a_or_first: a as u32,
                        aabb_max: nd.aabb_max,
                        count: 0,
                    },
                );
                let (nodes2, idx2) = subdivide_spec(
                    nodes1,
                    idx1,
                    a,
                    first,
                    mid - first,
                    prims,
                    params,
                );
                subdivide_spec(nodes2, idx2, a + 1, mid, first + count - mid, prims, params)
            }
        }
    }
}

/// Turning leaf `k` over `first .. first + count` into an internal node whose two
/// new leaf children split that range at `mid`, after the range was rearranged,
/// keeps the construction invariant.
proof fn lemma_split_keeps_invariant(
    nodes0: Seq<BVHNode>,
    idx0: Seq<u32>,
    nodes1: Seq<BVHNode>,
    idx1: Seq<u32>,
    prims: Seq<BuildPrimitive>,
    k: int,
    first: int,
    count: int,
    mid: int,
)
    requires
        prims_wf(prims),
        tree_inv(nodes0, idx0, prims),
        0 <= k < nodes0.len(),
        nodes0.len() + 2 <= u32::MAX,
        nodes0[k].a_or_first == first,
        nodes0[k].count == count,
        first < mid < first + count,
        is_permutation(idx1, prims.len()),
        forall|j: int|
            0 <= j < idx0.len() && !(first <= j < first + count) ==> (#[trigger] idx1[j]) == idx0[j],
        rearranged(idx0, idx1, first, first + count),
        nodes1 == nodes0.push(
            BVHNode {
                aabb_min: bounds_of(range_bounds(prims, idx1, first, mid - first)).min,
                a_or_first: first as u32,
                aabb_max: bounds_of(range_bounds(prims, idx1, first, mid - first)).max,
                count: (mid - first) as u32,
            },
        ).push(
            BVHNode {
                aabb_min: bounds_of(range_bounds(prims, idx1, mid, first + count - mid)).min,
                a_or_first: mid as u32,
                aabb_max: bounds_of(range_bounds(prims, idx1, mid, first + count - mid)).max,
                count: (first + count - mid) as u32,
            },
        ).update(
            k,
            BVHNode {
                aabb_min: nodes0[k].aabb_min,
                a_or_first: nodes0.len() as u32,
                aabb_max: nodes0[k].aabb_max,
                count: 0,
            },
        ),
    ensures
        tree_inv(nodes1, idx1, prims),
{
    let n = prims.len();
    let len0 = nodes0.len();
    let node_idx = k;
    let end = first + count;
    let a_count = mid - first;
    let node = nodes0[k];
    assert(node.a_or_first + node.count <= n);
    assert forall|j: int| 0 <= j < idx1.len() implies (#[trigger] idx1[j]) < prims.len() by {}
    assert forall|j: int| 0 <= j < idx0.len() implies (#[trigger] idx0[j]) < prims.len() by {}
    let a = len0 as int;
    let b = a + 1;
    // The permutation.
    assert(is_permutation(idx1, n));
    // The leaves still partition the positions.
    assert forall|p: int| 0 <= p < n implies #[trigger] covered(nodes1, p) by {
        assert(covered(nodes0, p));
        let k = choose|k: int| 0 <= k < nodes0.len() && covers(nodes0[k], p);
        if k == node_idx {
            if p < mid {
                assert(covers(nodes1[a], p));
            } else {
                assert(covers(nodes1[b], p));
            }
        } else {
            assert(nodes1[k] == nodes0[k]);
        }
    }
    assert forall|k1: int, k2: int|
        0 <= k1 < nodes1.len() && 0 <= k2 < nodes1.len() && k1 != k2 && (
        #[trigger] nodes1[k1]).count > 0 && (#[trigger] nodes1[k2]).count > 0 implies nodes1[k1].a_or_first
        + nodes1[k1].count <= nodes1[k2].a_or_first || nodes1[k2].a_or_first + nodes1[k2].count
        <= nodes1[k1].a_or_first by {
        if k1 < len0 {
            assert(nodes1[k1] == nodes0[k1]);
            assert(nodes0[k1].count > 0);
        }
        if k2 < len0 {
            assert(nodes1[k2] == nodes0[k2]);
            assert(nodes0[k2].count > 0);
        }
    }
    assert forall|k: int|
        0 <= k < nodes1.len() && (#[trigger] nodes1[k]).count > 0 implies nodes1[k].a_or_first
        + nodes1[k].count <= n by {
        if k < len0 {
            assert(nodes1[k] == nodes0[k]);
        }
    }
    assert(leaves_partition(nodes1, n));
    // Every node is sound.
    assert forall|k: int| 0 <= k < nodes1.len() implies #[trigger] node_ok(nodes1, idx1, prims, k) by {
        if k == node_idx {
            assert(node_ok(nodes0, idx0, prims, k));
            lemma_child_inside(prims, idx0, idx1, first as int, count as int, first as int, a_count as int);
            lemma_child_inside(prims, idx0, idx1, first as int, count as int, mid as int, (count - a_count) as int);
            let s = range_bounds(prims, idx0, first as int, count as int);
            assert forall|j: int| 0 <= j < s.len() implies (#[trigger] s[j]).wf() by {
                assert(prims[idx0[first + j] as int].wf());
            }
            lemma_bounds_of(s, node.bounds());
        } else if k < len0 {
            assert(nodes1[k] == nodes0[k]);
            assert(node_ok(nodes0, idx0, prims, k));
            if nodes0[k].count > 0 {
                assert(nodes0[k].a_or_first + nodes0[k].count <= first || end <= nodes0[k].a_or_first);
                assert(range_bounds(prims, idx1, nodes0[k].a_or_first as int, nodes0[k].count as int)
                    =~= range_bounds(prims, idx0, nodes0[k].a_or_first as int, nodes0[k].count as int));
            } else {
                let c = nodes0[k].a_or_first as int;
                assert(nodes1[c].bounds() == nodes0[c].bounds());
                assert(nodes1[c + 1].bounds() == nodes0[c + 1].bounds());
            }
        }
    }
    assert(tree_inv(nodes1, idx1, prims));
}

/// After the first child's subtree was built over `first .. mid` and the
/// second's over `mid .. end`, each only rearranging its own range, the range
/// is a rearrangement of what the partition left, and the sides of the plane
/// are still apart.
proof fn lemma_children_kept_sides(
    plane: SplitPlane,
    prims: Seq<BuildPrimitive>,
    idx1: Seq<u32>,
    idx2: Seq<u32>,
    idx3: Seq<u32>,
    first: int,
    mid: int,
    end: int,
)
    requires
        0 <= first < mid < end <= idx1.len(),
        idx2.len() == idx1.len(),
        idx3.len() == idx1.len(),
        rearranged(idx1, idx2, first, mid),
        rearranged(idx2, idx3, mid, end),
        forall|j: int| 0 <= j < idx1.len() && !(first <= j < mid) ==> (#[trigger] idx2[j]) == idx1[j],
        forall|j: int| 0 <= j < idx2.len() && !(mid <= j < end) ==> (#[trigger] idx3[j]) == idx2[j],
        forall|j: int| first <= j < mid ==> plane.goes_left_spec(prims[(#[trigger] idx1[j]) as int].centroid),
        forall|j: int| mid <= j < end ==> !plane.goes_left_spec(prims[(#[trigger] idx1[j]) as int].centroid),
    ensures
        rearranged(idx1, idx3, first, end),
        sides_at(plane, prims, idx3, first, mid, end),
{
    lemma_rearranged_widen(idx1, idx2, first, mid, first, end);
    lemma_rearranged_widen(idx2, idx3, mid, end, first, end);
    lemma_rearranged_trans(idx1, idx2, idx3, first, end);
    assert forall|j: int| first <= j < mid implies plane.goes_left_spec(
        prims[(#[trigger] idx3[j]) as int].centroid,
    ) by {
        assert(idx3[j] == idx2[j]);
        assert(taken_from(idx1, idx2[j], first, mid));
    }
    assert forall|j: int| mid <= j < end implies !plane.goes_left_spec(
        prims[(#[trigger] idx3[j]) as int].centroid,
    ) by {
        assert(taken_from(idx2, idx3[j], mid, end));
        let k = choose|k: int| mid <= k < end && idx2[k] == idx3[j];
        assert(idx2[k] == idx1[k]);
    }
}

/// Building the subtree of leaf `b` changes no other node and no index outside
/// `b`'s range, so the other leaves of `lo .. hi` keep their size bound.
proof fn lemma_leaf_sizes_survive(
    nodes2: Seq<BVHNode>,
    idx2: Seq<u32>,
    nodes3: Seq<BVHNode>,
    idx3: Seq<u32>,
    prims: Seq<BuildPrimitive>,
    b: int,
    lo: int,
    hi: int,
    threshold: int,
)
    requires
        leaves_partition(nodes2, prims.len()),
        0 <= b < nodes2.len(),
        nodes2[b].count > 0,
        0 <= lo,
        hi <= nodes2.len() <= nodes3.len(),
        !(lo <= b < hi),
        threshold >= 0,
        idx2.len() == prims.len(),
        idx3.len() == idx2.len(),
        forall|k: int| 0 <= k < nodes2.len() && k != b ==> (#[trigger] nodes3[k]) == nodes2[k],
        forall|j: int|
            0 <= j < idx2.len() && !(nodes2[b].a_or_first <= j < nodes2[b].a_or_first
                + nodes2[b].count) ==> (#[trigger] idx3[j]) == idx2[j],
        forall|k: int| lo <= k < hi ==> #[trigger] leaf_size_ok(nodes2[k], idx2, prims, threshold),
    ensures
        forall|k: int| lo <= k < hi ==> #[trigger] leaf_size_ok(nodes3[k], idx3, prims, threshold),
{
    assert forall|k: int| lo <= k < hi implies #[trigger] leaf_size_ok(nodes3[k], idx3, prims, threshold) by {
        assert(leaf_size_ok(nodes2[k], idx2, prims, threshold));
        assert(nodes3[k] == nodes2[k]);
        let nd = nodes2[k];
        if nd.count > threshold {
            assert(nd.a_or_first + nd.count <= nodes2[b].a_or_first || nodes2[b].a_or_first
                + nodes2[b].count <= nd.a_or_first);
            assert forall|j: int| nd.a_or_first <= j < nd.a_or_first + nd.count implies
                (#[trigger] prims[idx3[j] as int]).centroid == prims[idx3[nd.a_or_first as int] as int].centroid by {
                assert(idx3[j] == idx2[j]);
                assert(idx3[nd.a_or_first as int] == idx2[nd.a_or_first as int]);
                assert(prims[idx2[j] as int].centroid == prims[idx2[nd.a_or_first as int] as int].centroid);
            }
        }
    }
}

/// Splits the leaf `node_idx` and, recursively, its children until each leaf is
/// small enough or cannot be split. New nodes are appended, children in pairs;
/// only the leaf's own range of `idx` is reordered.
#[verifier::rlimit(20)]
pub fn subdivide(
    node_idx: usize,
    nodes: &mut Vec<BVHNode>,
    prims: &Vec<BuildPrimitive>,
    idx: &mut Vec<u32>,
    params: BuildParams,
)
    requires
        params.wf(),
        prims_wf(prims@),
        tree_inv(old(nodes)@, old(idx)@, prims@),
        node_idx < old(nodes).len(),
        old(nodes)@[node_idx as int].count > 0,
        old(nodes).len() + 2 * (old(nodes)@[node_idx as int].count - 1) <= u32::MAX,
    ensures
        tree_inv(final(nodes)@, final(idx)@, prims@),
        old(nodes).len() <= final(nodes).len() <= old(nodes).len() + 2 * (
        old(nodes)@[node_idx as int].count - 1),
        forall|k: int|
            0 <= k < old(nodes).len() && k != node_idx ==> (#[trigger] final(nodes)@[k]) == old(
                nodes,
            )@[k],
        final(nodes)@[node_idx as int].bounds() == old(nodes)@[node_idx as int].bounds(),
        forall|j: int|
            0 <= j < old(idx).len() && !(old(nodes)@[node_idx as int].a_or_first <= j < old(
                nodes,
            )@[node_idx as int].a_or_first + old(nodes)@[node_idx as int].count) ==> (
            #[trigger] final(idx)@[j]) == old(idx)@[j],
        !params.keep_leaf_when_cheaper ==> forall|k: int|
            (k == node_idx || old(nodes).len() <= k < final(nodes).len()) ==> #[trigger] leaf_size_ok(
                final(nodes)@[k],
                final(idx)@,
                prims@,
                params.leaf_threshold as int,
            ),
        rearranged(
            old(idx)@,
            final(idx)@,
            old(nodes)@[node_idx as int].a_or_first as int,
            old(nodes)@[node_idx as int].a_or_first + old(nodes)@[node_idx as int].count,
        ),
        final(nodes)@[node_idx as int].count > 0 <==> stays_leaf(
            old(nodes)@[node_idx as int],
            prims@,
            old(idx)@,
            params,
        ),
        final(nodes)@[node_idx as int].count > 0 ==> final(nodes)@ == old(nodes)@ && final(idx)@
            == old(idx)@,
        final(nodes)@[node_idx as int].count == 0 ==> split_by_best_plane(
            old(nodes)@[node_idx as int],
            prims@,
            old(idx)@,
            final(idx)@,
            params,
        ),
        (final(nodes)@, final(idx)@) == subdivide_spec(
            old(nodes)@,
            old(idx)@,
            node_idx as int,
            old(nodes)@[node_idx as int].a_or_first as int,
            old(nodes)@[node_idx as int].count as int,
            prims@,
            params,
        ),
    decreases old(nodes)@[node_idx as int].count,
{
    let node = nodes[node_idx];
    let first = node.a_or_first as usize;
    let count = node.count as usize;
    let ghost nodes0 = nodes@;
    let ghost idx0 = idx@;
    let ghost n = prims@.len();
    let ghost len0 = nodes0.len();
    assert(node.a_or_first + node.count <= n);
    proof {
        lemma_rearranged_refl(idx0, first as int, first + count);
    }
    if node.count <= params.leaf_threshold {
        return;
    }
    let plane = match find_best_split_plane(prims, idx, first, count, params.bin_count) {
        None => {
            return;
        },
        Some(p) => p,
    };
    proof {
        let p = choose|p: SplitPlane|
            best_plane(p, prims@, idx0, first as int, count as int, params.bin_count as int, 3);
        lemma_best_plane_unique(p, plane, prims@, idx0, first as int, count as int, params.bin_count as int);
    }
    let keep = params.keep_leaf_when_cheaper && plane.cost >= calculate_node_cost(&node);
    if keep {
        proof {
            assert forall|p: SplitPlane|
                #[trigger] best_plane(p, prims@, idx0, first as int, count as int, params.bin_count as int, 3)
                implies p.cost >= node.count * node.bounds().area_spec() by {
                lemma_best_plane_unique(p, plane, prims@, idx0, first as int, count as int, params.bin_count as int);
            }
        }
        return;
    }
    assert(!stays_leaf(node, prims@, idx0, params)) by {
        assert(node.count > params.leaf_threshold);
        assert(!degenerate_range(prims@, idx0, first as int, count as int));
        assert(!degenerate_range(prims@, idx0, node.a_or_first as int, node.count as int));
        if params.keep_leaf_when_cheaper {
            assert(plane.cost < node.count * node.bounds().area_spec());
            assert(best_plane(plane, prims@, idx0, node.a_or_first as int, node.count as int, params.bin_count as int, 3));
        }
    }
    let end = first + count;
    let mid = partition(idx, prims, first, end, &plane);
    let ghost idx1 = idx@;
    proof {
        // The primitives with the least and the greatest key lie on opposite sides.
        let ax = plane.axis as int;
        let jl = choose|j: int|
            first <= j < first + count && key(prims@, idx0, j, ax) == plane.origin;
        let jh = choose|j: int|
            first <= j < first + count && key(prims@, idx0, j, ax) == plane.origin + plane.extent;
        let cl = prims@[idx0[jl] as int].centroid.coord(ax);
        let ch = prims@[idx0[jh] as int].centroid.coord(ax);
        let (o, e, bc, k1) = (plane.origin as int, plane.extent as int, plane.bin_count as int, plane.boundary + 1);
        assert((cl - o) * bc < e * k1) by (nonlinear_arith)
            requires
                cl == o,
                e > 0,
                k1 >= 1,
        ;
        assert(!((ch - o) * bc < e * k1)) by (nonlinear_arith)
            requires
                ch == o + e,
                e > 0,
                k1 < bc,
        ;
        assert(plane.goes_left_spec(prims@[idx0[jl] as int].centroid));
        assert(!plane.goes_left_spec(prims@[idx0[jh] as int].centroid));
        assert(taken_from(idx1, idx0[jl], first as int, end as int));
        assert(taken_from(idx1, idx0[jh], first as int, end as int));
    }
    let a_count = mid - first;
    if a_count == 0 || a_count == count {
        // Unreachable: both sides of the chosen plane hold a primitive.
        proof {
            assert(false);
        }
        return;
    }
    let box_a = calculate_node_aabb(prims, idx, first, a_count);
    let box_b = calculate_node_aabb(prims, idx, mid, count - a_count);
    let child_a_index = nodes.len() as u32;
    nodes.push(BVHNode::leaf(box_a, first as u32, a_count as u32));
    nodes.push(BVHNode::leaf(box_b, mid as u32, (count - a_count) as u32));
    let mut parent = node;
    parent.a_or_first = child_a_index;
    parent.count = 0;
    nodes.set(node_idx, parent);
    let ghost nodes1 = nodes@;
    assert(nodes1 =~= nodes0.push(BVHNode {
        aabb_min: box_a.min,
        a_or_first: first as u32,
        aabb_max: box_a.max,
        count: a_count as u32,
    }).push(BVHNode {
        aabb_min: box_b.min,
        a_or_first: mid as u32,
        aabb_max: box_b.max,
        count: (count - a_count) as u32,
    }).update(node_idx as int, BVHNode {
        aabb_min: node.aabb_min,
        a_or_first: len0 as u32,
        aabb_max: node.aabb_max,
        count: 0,
    }));
    proof {
        lemma_split_keeps_invariant(
            nodes0,
            idx0,
            nodes1,
            idx1,
            prims@,
            node_idx as int,
            first as int,
            count as int,
            mid as int,
        );
    }
    let ca = child_a_index as usize;
    subdivide(ca, nodes, prims, idx, params);
    let ghost nodes2 = nodes@;
    let ghost idx2 = idx@;
    assert(nodes2[ca + 1] == nodes1[ca + 1]);
    subdivide(ca + 1, nodes, prims, idx, params);
    proof {
        let nodes3 = nodes@;
        let idx3 = idx@;
        let b = ca + 1;
        lemma_children_kept_sides(plane, prims@, idx1, idx2, idx3, first as int, mid as int, end as int);
        lemma_rearranged_trans(idx0, idx1, idx3, first as int, end as int);
        assert(nodes3[node_idx as int] == nodes1[node_idx as int]);
        assert forall|j: int|
            0 <= j < idx0.len() && !(first <= j < end) implies (#[trigger] idx3[j]) == idx0[j] by {
            assert(idx2[j] == idx1[j]);
        }
        if !params.keep_leaf_when_cheaper {
            let t = params.leaf_threshold as int;
            lemma_leaf_sizes_survive(nodes2, idx2, nodes3, idx3, prims@, b, ca as int, ca + 1, t);
            lemma_leaf_sizes_survive(nodes2, idx2, nodes3, idx3, prims@, b, len0 + 2int, nodes2.len() as int, t);
            assert forall|k: int|
                (k == node_idx || len0 <= k < nodes3.len()) implies #[trigger] leaf_size_ok(
                    nodes3[k],
                    idx3,
                    prims@,
                    t,
                ) by {
                if k == node_idx {
                    assert(nodes3[k] == nodes1[k]);
                } else if k == ca {
                    assert(leaf_size_ok(nodes3[ca as int], idx3, prims@, t));
                } else if len0 + 2 <= k < nodes2.len() {
                    assert(leaf_size_ok(nodes3[k], idx3, prims@, t));
                }
            }
        }
    }
}

/// The nodes and index permutation that a build over `prims` yields: over no
/// primitives the empty root alone; otherwise one leaf over all of them, in
/// their given order, subdivided.
pub open spec fn build_spec(prims: Seq<BuildPrimitive>, params: BuildParams) -> (
    Seq<BVHNode>,
    Seq<u32>,
) {
    if prims.len() == 0 {
        (seq![empty_root()], Seq::empty())
    } else {
        subdivide_spec(
            seq![initial_root(prims)],
            identity_indices(prims.len()),
            0,
            0,
            prims.len() as int,
            prims,
            params,
        )
    }
}

/// Building is deterministic: from the same primitives, in the same order, with
/// the same choices, two builds give the same nodes and the same index permutation.
pub proof fn lemma_build_deterministic(
    prims_a: Seq<BuildPrimitive>,
    prims_b: Seq<BuildPrimitive>,
    params: BuildParams,
    built_a: (Seq<BVHNode>, Seq<u32>),
    built_b: (Seq<BVHNode>, Seq<u32>),
)
    requires
        prims_a == prims_b,
        built_a == build_spec(prims_a, params),
        built_b == build_spec(prims_b, params),
    ensures
        built_a.0 == built_b.0,
        built_a.1 == built_b.1,
{
}

/// Builds the hierarchy over `prims`: a root over all of them, split recursively.
/// Over no primitives it is the empty root alone.
pub fn build_bvh(prims: &Vec<BuildPrimitive>, params: BuildParams) -> (r: BVH)
    requires
        params.wf(),
        prims_wf(prims@),
        prims.len() <= MAX_PRIMITIVES,
    ensures
        bvh_valid(
            r.nodes@,
            r.indices@,
            prims@,
            params.leaf_threshold as int,
            !params.keep_leaf_when_cheaper,
        ),
        root_decided(r.nodes@, r.indices@, prims@, params),
        (r.nodes@, r.indices@) == build_spec(prims@, params),
{
    let n = prims.len();
    let mut idx: Vec<u32> = Vec::new();
    let mut i: usize = 0;
    while i < n
        invariant
            n == prims.len(),
            n <= MAX_PRIMITIVES,
            i <= n,
            idx.len() == i,
            forall|j: int| 0 <= j < i ==> (#[trigger] idx@[j]) == j,
        decreases n - i,
    {
        idx.push(i as u32);
        i += 1;
    }
    let root_box = calculate_node_aabb(prims, &idx, 0, n);
    let mut nodes: Vec<BVHNode> = Vec::new();
    nodes.push(BVHNode::leaf(root_box, 0, n as u32));
    if n == 0 {
        assert(nodes@ =~= seq![empty_root()]);
        assert(idx@ =~= Seq::<u32>::empty());
        return BVH { nodes, indices: idx };
    }
    let ghost idx0 = idx@;
    assert(idx0 =~= identity_indices(n as nat));
    assert(nodes@[0] == initial_root(prims@));
    assert(nodes@ =~= seq![initial_root(prims@)]);
    proof {
        let s = range_bounds(prims@, idx0, 0, n as int);
        assert forall|j: int| 0 <= j < s.len() implies (#[trigger] s[j]).wf() by {
            assert(prims@[idx0[j] as int].wf());
        }
        lemma_bounds_of(s, root_box);
        assert forall|v: int| 0 <= v < n implies #[trigger] holds_value(idx0, v) by {
            assert(idx0[v] == v);
        }
        assert(is_permutation(idx0, n as nat));
        assert forall|p: int| 0 <= p < n implies #[trigger] covered(nodes@, p) by {
            assert(covers(nodes@[0], p));
        }
        assert(node_ok(nodes@, idx0, prims@, 0));
        assert forall|i: int| 0 <= i < n implies root_box.contains(#[trigger] prims@[i].bounds) by {
            assert(s[i] == prims@[i].bounds);
        }
    }
    subdivide(0, &mut nodes, prims, &mut idx, params);
    proof {
        let nodes1 = nodes@;
        let idx1 = idx@;
        assert forall|k: int, j: int|
            0 <= k < nodes1.len() && (#[trigger] nodes1[k]).count > 0 && nodes1[k].a_or_first <= j
                < nodes1[k].a_or_first + nodes1[k].count implies nodes1[k].bounds().contains(
            prims@[(#[trigger] idx1[j]) as int].bounds,
        ) by {
            assert(node_ok(nodes1, idx1, prims@, k));
            let s = range_bounds(prims@, idx1, nodes1[k].a_or_first as int, nodes1[k].count as int);
            assert forall|q: int| 0 <= q < s.len() implies (#[trigger] s[q]).wf() by {
                assert(prims@[idx1[nodes1[k].a_or_first + q] as int].wf());
            }
            lemma_bounds_of(s, nodes1[k].bounds());
            assert(s[j - nodes1[k].a_or_first] == prims@[idx1[j] as int].bounds);
        }
        if !params.keep_leaf_when_cheaper {
            assert forall|k: int| 0 <= k < nodes1.len() implies #[trigger] leaf_size_ok(
                nodes1[k],
                idx1,
                prims@,
                params.leaf_threshold as int,
            ) by {
                assert(k == 0 || 1 <= k < nodes1.len());
            }
        }
    }
    BVH { nodes, indices: idx }
}

} // verus!
