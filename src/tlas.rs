//! The top-level hierarchy: one per scene, over its mesh instances.
use vstd::prelude::*;
use crate::builder::{BuildParams, MAX_PRIMITIVES, build_bvh, build_spec, bvh_valid, root_decided};
use crate::geometry::{BuildPrimitive, PulsePrimitiveMeshInstance};
use crate::node::PulseTLASNode;

verus! {

/// Bins per axis in the top-level split search: a single candidate plane, at
/// the middle of the centre range, on each axis.
pub const TLAS_BIN_COUNT: usize = 2;

/// A top-level node with at most this many instances stays a leaf.
pub const TLAS_LEAF_THRESHOLD: u32 = 1;

/// How top-level hierarchies are built: splits are always taken once a node is over the threshold.
pub open spec fn tlas_params() -> BuildParams {
    BuildParams {
        bin_count: TLAS_BIN_COUNT,
        leaf_threshold: TLAS_LEAF_THRESHOLD,
        keep_leaf_when_cheaper: false,
    }
}

/// A top-level hierarchy: its nodes and the permutation of instance indices.
#[derive(Debug)]
pub struct PulseTLAS {
    pub nodes: Vec<PulseTLASNode>,
    pub instance_indices: Vec<u32>,
}

/// The instances as the builder sees them.
pub open spec fn tlas_primitives(instances: Seq<PulsePrimitiveMeshInstance>) -> Seq<BuildPrimitive> {
    instances.map_values(|p: PulsePrimitiveMeshInstance| p.build_primitive_spec())
}

/// Builds the top-level hierarchy over the scene's instances.
pub fn build_tlas(instances: &Vec<PulsePrimitiveMeshInstance>) -> (r: PulseTLAS)
    requires
        instances.len() <= MAX_PRIMITIVES,
    ensures
        bvh_valid(
            r.nodes@,
            r.instance_indices@,
            tlas_primitives(instances@),
            TLAS_LEAF_THRESHOLD as int,
            true,
        ),
        root_decided(r.nodes@, r.instance_indices@, tlas_primitives(instances@), tlas_params()),
        (r.nodes@, r.instance_indices@) == build_spec(tlas_primitives(instances@), tlas_params()),
{
    let mut refs: Vec<BuildPrimitive> = Vec::new();
    let mut i: usize = 0;
    while i < instances.len()
        invariant
            i <= instances.len(),
            refs@ =~= tlas_primitives(instances@).take(i as int),
            forall|j: int| 0 <= j < i ==> (#[trigger] refs@[j]).wf(),
        decreases instances.len() - i,
    {
        let r = instances[i].build_primitive();
        refs.push(r);
        i += 1;
    }
    assert(refs@ =~= tlas_primitives(instances@));
    let params = BuildParams {
        bin_count: TLAS_BIN_COUNT,
        leaf_threshold: TLAS_LEAF_THRESHOLD,
        keep_leaf_when_cheaper: false,
    };
    let bvh = build_bvh(&refs, params);
    PulseTLAS { nodes: bvh.nodes, instance_indices: bvh.indices }
}

} // verus!
