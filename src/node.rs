//! The node of a hierarchy and the properties that a finished hierarchy has.
use vstd::prelude::*;
use crate::geometry::{AABB, BuildPrimitive, Vec3i, bounds_of};

verus! {

/// One node of a hierarchy, laid out for upload as it stands. `count > 0`
/// marks a leaf whose primitives are named by positions
/// `a_or_first .. a_or_first + count` of the index permutation; `count == 0`
/// marks an internal node whose children are `a_or_first` and `a_or_first + 1`.
#[derive(Clone, Copy, Debug, PartialEq, Eq, Structural)]
pub struct BVHNode {
    pub aabb_min: Vec3i,
    pub a_or_first: u32,
    pub aabb_max: Vec3i,
    pub count: u32,
}

/// The node of a bottom-level hierarchy (over the triangles of a mesh).
pub type PulseBLASNode = BVHNode;

/// The node of a top-level hierarchy (over mesh instances).
pub type PulseTLASNode = BVHNode;

/// The two kinds of node that `BVHNode::count` tells apart.
#[derive(Clone, Copy, Debug, PartialEq, Eq, Structural)]
pub enum NodeKind {
    Leaf { first: u32, count: u32 },
    Internal { child_a: u32 },
}

impl BVHNode {
    pub open spec fn bounds(self) -> AABB {
        AABB { min: self.aabb_min, max: self.aabb_max }
    }

    pub open spec fn is_leaf(self) -> bool {
        self.count > 0
    }

    /// A leaf over positions `first .. first + count`, with the given box.
    pub fn leaf(bounds: AABB, first: u32, count: u32) -> (r: BVHNode)
        ensures
            r == (BVHNode { aabb_min: bounds.min, a_or_first: first, aabb_max: bounds.max, count }),
            r.bounds() == bounds,
            r.a_or_first == first,
            r.count == count,
    {
        BVHNode { aabb_min: bounds.min, a_or_first: first, aabb_max: bounds.max, count }
    }

    /// The node's box.
    pub fn aabb(&self) -> (r: AABB)
        ensures
            r == self.bounds(),
    {
        AABB { min: self.aabb_min, max: self.aabb_max }
    }

    /// The node seen as a leaf or as an internal node.
    pub fn kind(&self) -> (r: NodeKind)
        ensures
            self.count > 0 ==> r == (NodeKind::Leaf { first: self.a_or_first, count: self.count }),
            self.count == 0 ==> r == (NodeKind::Internal { child_a: self.a_or_first }),
    {
        if self.count > 0 {
            NodeKind::Leaf { first: self.a_or_first, count: self.count }
        } else {
            NodeKind::Internal { child_a: self.a_or_first }
        }
    }
}

/// The boxes of the primitives named by positions `first .. first + count` of `idx`.
pub open spec fn range_bounds(
    prims: Seq<BuildPrimitive>,
    idx: Seq<u32>,
    first: int,
    count: int,
) -> Seq<AABB> {
    Seq::new(count as nat, |j: int| prims[idx[first + j] as int].bounds)
}

/// `idx` holds each of `0 .. n` exactly once.
pub open spec fn is_permutation(idx: Seq<u32>, n: nat) -> bool {
    &&& idx.len() == n
    &&& forall|i: int| 0 <= i < n ==> (#[trigger] idx[i]) < n
    &&& forall|i: int, j: int|
        0 <= i < n && 0 <= j < n && i != j ==> (#[trigger] idx[i]) != (#[trigger] idx[j])
    &&& forall|v: int| 0 <= v < n ==> #[trigger] holds_value(idx, v)
}

/// Some position of `idx` holds `v`.
pub open spec fn holds_value(idx: Seq<u32>, v: int) -> bool {
    exists|i: int| 0 <= i < idx.len() && idx[i] == v
}

/// Leaf `nd` covers position `p` of the index permutation.
pub open spec fn covers(nd: BVHNode, p: int) -> bool {
    nd.count > 0 && nd.a_or_first <= p < nd.a_or_first + nd.count
}

/// Some leaf covers position `p`.
pub open spec fn covered(nodes: Seq<BVHNode>, p: int) -> bool {
    exists|k: int| 0 <= k < nodes.len() && covers(nodes[k], p)
}

/// The ranges of the leaves lie in `0 .. n`, cover it, and do not overlap.
pub open spec fn leaves_partition(nodes: Seq<BVHNode>, n: nat) -> bool {
    &&& forall|k: int|
        0 <= k < nodes.len() && (#[trigger] nodes[k]).count > 0 ==> nodes[k].a_or_first
            + nodes[k].count <= n
    &&& forall|p: int| 0 <= p < n ==> #[trigger] covered(nodes, p)
    &&& forall|k1: int, k2: int|
        0 <= k1 < nodes.len() && 0 <= k2 < nodes.len() && k1 != k2 && (#[trigger] nodes[k1]).count
            > 0 && (#[trigger] nodes[k2]).count > 0 ==> nodes[k1].a_or_first + nodes[k1].count
            <= nodes[k2].a_or_first || nodes[k2].a_or_first + nodes[k2].count
            <= nodes[k1].a_or_first
}

/// Node `k` is sound: a leaf's box is exactly the bounds of its primitives; an
/// internal node's children come after it, exist, and lie in its box.
pub open spec fn node_ok(
    nodes: Seq<BVHNode>,
    idx: Seq<u32>,
    prims: Seq<BuildPrimitive>,
    k: int,
) -> bool {
    let nd = nodes[k];
    if nd.count > 0 {
        nd.bounds() == bounds_of(range_bounds(prims, idx, nd.a_or_first as int, nd.count as int))
    } else {
        &&& k < nd.a_or_first
        &&& nd.a_or_first + 1 < nodes.len()
        &&& nd.bounds().wf()
        &&& nd.bounds().contains(nodes[nd.a_or_first as int].bounds())
        &&& nd.bounds().contains(nodes[nd.a_or_first + 1].bounds())
    }
}

/// Every primitive is well formed and the indices fit in `u32`.
pub open spec fn prims_wf(prims: Seq<BuildPrimitive>) -> bool {
    &&& prims.len() <= u32::MAX
    &&& forall|i: int| 0 <= i < prims.len() ==> (#[trigger] prims[i]).wf()
}

/// What holds of a hierarchy over `prims` at every step of its construction.
pub open spec fn tree_inv(nodes: Seq<BVHNode>, idx: Seq<u32>, prims: Seq<BuildPrimitive>) -> bool {
    &&& is_permutation(idx, prims.len())
    &&& leaves_partition(nodes, prims.len())
    &&& forall|k: int| 0 <= k < nodes.len() ==> #[trigger] node_ok(nodes, idx, prims, k)
}

/// All primitives named by positions `first .. first + count` share one centroid,
/// so that no plane on any axis separates them.
pub open spec fn degenerate_range(
    prims: Seq<BuildPrimitive>,
    idx: Seq<u32>,
    first: int,
    count: int,
) -> bool {
    forall|j: int|
        first <= j < first + count ==> (#[trigger] prims[idx[j] as int]).centroid
            == prims[idx[first] as int].centroid
}

/// A leaf holds at most `threshold` primitives, or primitives that cannot be split.
pub open spec fn leaf_size_ok(
    nd: BVHNode,
    idx: Seq<u32>,
    prims: Seq<BuildPrimitive>,
    threshold: int,
) -> bool {
    nd.count > 0 ==> nd.count <= threshold || degenerate_range(
        prims,
        idx,
        nd.a_or_first as int,
        nd.count as int,
    )
}

} // verus!
