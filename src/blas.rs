//! The bottom-level hierarchy: one per mesh, over its triangles.
use vstd::prelude::*;
use crate::builder::{BuildParams, MAX_PRIMITIVES, build_bvh, build_spec, bvh_valid, root_decided};
use crate::geometry::{BuildPrimitive, PulsePrimitive};
use crate::node::PulseBLASNode;

verus! {

/// Bins per axis in the bottom-level split search.
pub const BLAS_BIN_COUNT: usize = 20;

/// A bottom-level node with at most this many triangles stays a leaf.
pub const BLAS_LEAF_THRESHOLD: u32 = 8;

/// How bottom-level hierarchies are built: splits are always taken once a node is over the threshold.
pub open spec fn blas_params() -> BuildParams {
    BuildParams {
        bin_count: BLAS_BIN_COUNT,
        leaf_threshold: BLAS_LEAF_THRESHOLD,
        keep_leaf_when_cheaper: false,
    }
}

/// A bottom-level hierarchy: its nodes and the permutation of triangle indices.
#[derive(Debug)]
pub struct Blas {
    pub nodes: Vec<PulseBLASNode>,
    pub tri_indices: Vec<u32>,
}

/// The triangles as the builder sees them.
pub open spec fn blas_primitives(prims: Seq<PulsePrimitive>) -> Seq<BuildPrimitive> {
    prims.map_values(|p: PulsePrimitive| p.build_primitive_spec())
}

/// Builds the bottom-level hierarchy over a mesh's triangles.
pub fn build_blas(prims: &Vec<PulsePrimitive>) -> (r: Blas)
    requires
        prims.len() <= MAX_PRIMITIVES,
    ensures
        bvh_valid(
            r.nodes@,
            r.tri_indices@,
            blas_primitives(prims@),
            BLAS_LEAF_THRESHOLD as int,
            true,
        ),
        root_decided(r.nodes@, r.tri_indices@, blas_primitives(prims@), blas_params()),
        (r.nodes@, r.tri_indices@) == build_spec(blas_primitives(prims@), blas_params()),
{
    let mut refs: Vec<BuildPrimitive> = Vec::new();
    let mut i: usize = 0;
    while i < prims.len()
        invariant
            i <= prims.len(),
            refs@ =~= blas_primitives(prims@).take(i as int),
            forall|j: int| 0 <= j < i ==> (#[trigger] refs@[j]).wf(),
        decreases prims.len() - i,
    {
        let r = prims[i].build_primitive();
        refs.push(r);
        i += 1;
    }
    assert(refs@ =~= blas_primitives(prims@));
    let params = BuildParams {
        bin_count: BLAS_BIN_COUNT,
        leaf_threshold: BLAS_LEAF_THRESHOLD,
        keep_leaf_when_cheaper: false,
    };
    let bvh = build_bvh(&refs, params);
    Blas { nodes: bvh.nodes, tri_indices: bvh.indices }
}

} // verus!
