use pulse::blas::{build_blas, BLAS_LEAF_THRESHOLD};
use pulse::builder::{build_bvh, calculate_node_aabb, calculate_node_cost, subdivide, BuildParams};
use pulse::geometry::{BuildPrimitive, Centroid, PulsePrimitive, PulsePrimitiveMeshInstance, Vec3i, AABB};
use pulse::node::{BVHNode, NodeKind};
use pulse::tlas::{build_tlas, TLAS_LEAF_THRESHOLD};

fn v(x: i32, y: i32, z: i32) -> Vec3i {
    Vec3i::new(x, y, z)
}

fn tri(a: Vec3i, b: Vec3i, c: Vec3i) -> PulsePrimitive {
    PulsePrimitive { positions: [a, b, c] }
}

fn tri_bounds(t: &PulsePrimitive) -> AABB {
    let mut b = AABB::empty();
    for p in t.positions.iter() {
        b.grow_position(*p);
    }
    b
}

fn contains(outer: &AABB, inner: &AABB) -> bool {
    inner.is_empty()
        || (outer.min.x <= inner.min.x
            && inner.max.x <= outer.max.x
            && outer.min.y <= inner.min.y
            && inner.max.y <= outer.max.y
            && outer.min.z <= inner.min.z
            && inner.max.z <= outer.max.z)
}

/// Checks every structural property of a built hierarchy over primitives with the
/// given bounds and centroids.
fn check_hierarchy(nodes: &[BVHNode], idx: &[u32], bounds: &[AABB], centroids: &[Centroid], threshold: u32) {
    let n = bounds.len();
    assert!(!nodes.is_empty());
    // The indices are a permutation of 0..n.
    assert_eq!(idx.len(), n);
    let mut seen = vec![false; n];
    for &i in idx {
        assert!((i as usize) < n);
        assert!(!seen[i as usize]);
        seen[i as usize] = true;
    }
    // The leaves partition 0..n.
    let mut covered = vec![0u32; n];
    for (k, nd) in nodes.iter().enumerate() {
        let nb = nd.aabb();
        if nd.count > 0 {
            let first = nd.a_or_first as usize;
            let count = nd.count as usize;
            assert!(first + count <= n);
            for j in first..first + count {
                covered[j] += 1;
                assert!(contains(&nb, &bounds[idx[j] as usize]));
            }
            if nd.count > threshold {
                for j in first..first + count {
                    assert_eq!(centroids[idx[j] as usize], centroids[idx[first] as usize]);
                }
            }
        } else {
            let a = nd.a_or_first as usize;
            assert!(a > k);
            assert!(a + 1 < nodes.len());
            assert!(contains(&nb, &nodes[a].aabb()));
            assert!(contains(&nb, &nodes[a + 1].aabb()));
        }
    }
    assert!(covered.iter().all(|&c| c == 1));
    // The root holds every primitive.
    let root = nodes[0].aabb();
    for b in bounds {
        assert!(contains(&root, b));
    }
}

fn check_blas(tris: &[PulsePrimitive]) -> pulse::blas::Blas {
    let blas = build_blas(&tris.to_vec());
    let bounds: Vec<AABB> = tris.iter().map(tri_bounds).collect();
    let centroids: Vec<Centroid> = tris.iter().map(|t| t.build_primitive().centroid).collect();
    check_hierarchy(&blas.nodes, &blas.tri_indices, &bounds, &centroids, BLAS_LEAF_THRESHOLD);
    blas
}

/// A deterministic scatter of small triangles.
fn scattered_triangles(n: usize) -> Vec<PulsePrimitive> {
    let mut state: u64 = 12345;
    let mut next = || {
        state = state.wrapping_mul(6364136223846793005).wrapping_add(1442695040888963407);
        ((state >> 33) % 2001) as i32 - 1000
    };
    (0..n)
        .map(|_| {
            let (x, y, z) = (next(), next(), next());
            tri(v(x, y, z), v(x + 3, y + 1, z), v(x, y + 2, z + 5))
        })
        .collect()
}

#[test]
fn quad_is_a_single_leaf() {
    let tris = vec![
        tri(v(0, 0, 0), v(1, 0, 0), v(1, 1, 0)),
        tri(v(0, 0, 0), v(1, 1, 0), v(0, 1, 0)),
    ];
    let blas = check_blas(&tris);
    assert_eq!(blas.nodes.len(), 1);
    let root = blas.nodes[0];
    assert_eq!(root.count, 2);
    assert_eq!(root.a_or_first, 0);
    assert_eq!(root.aabb_min, v(0, 0, 0));
    assert_eq!(root.aabb_max, v(1, 1, 0));
    let mut idx = blas.tri_indices.clone();
    idx.sort();
    assert_eq!(idx, vec![0, 1]);
}

#[test]
fn ten_separated_triangles_force_a_split() {
    let tris: Vec<PulsePrimitive> = (0..10)
        .map(|i| {
            let x = i * 10;
            tri(v(x, 0, 0), v(x + 1, 0, 0), v(x, 1, 0))
        })
        .collect();
    let blas = check_blas(&tris);
    let root = blas.nodes[0];
    assert_eq!(root.count, 0);
    assert!(blas.nodes.len() >= 3);
    // The two children's ranges are disjoint and together cover all ten indices.
    let a = root.a_or_first as usize;
    fn range_of(nodes: &[BVHNode], k: usize) -> (usize, usize) {
        let nd = nodes[k];
        if nd.count > 0 {
            (nd.a_or_first as usize, nd.a_or_first as usize + nd.count as usize)
        } else {
            let (lo, _) = range_of(nodes, nd.a_or_first as usize);
            let (_, hi) = range_of(nodes, nd.a_or_first as usize + 1);
            (lo, hi)
        }
    }
    let (a_lo, a_hi) = range_of(&blas.nodes, a);
    let (b_lo, b_hi) = range_of(&blas.nodes, a + 1);
    assert_eq!(a_lo, 0);
    assert_eq!(a_hi, b_lo);
    assert_eq!(b_hi, 10);
    assert!(a_hi > 0 && a_hi < 10);
    let mut all: Vec<u32> = blas.tri_indices.clone();
    all.sort();
    assert_eq!(all, (0..10).collect::<Vec<u32>>());
    // Every leaf respects the threshold here: the centroids are distinct.
    for nd in &blas.nodes {
        assert!(nd.count <= BLAS_LEAF_THRESHOLD);
    }
}

#[test]
fn empty_inputs_give_the_empty_root() {
    let blas = build_blas(&vec![]);
    assert_eq!(blas.nodes.len(), 1);
    assert_eq!(blas.nodes[0].count, 0);
    assert!(blas.nodes[0].aabb().is_empty());
    assert!(blas.tri_indices.is_empty());
    let tlas = build_tlas(&vec![]);
    assert_eq!(tlas.nodes.len(), 1);
    assert_eq!(tlas.nodes[0].count, 0);
    assert!(tlas.nodes[0].aabb().is_empty());
    assert!(tlas.instance_indices.is_empty());
}

#[test]
fn scattered_triangles_give_a_sound_hierarchy() {
    let tris = scattered_triangles(500);
    let blas = check_blas(&tris);
    assert!(blas.nodes.len() > 1);
    assert_eq!(blas.nodes.len() % 2, 1);
}

#[test]
fn building_twice_gives_the_same_result() {
    let tris = scattered_triangles(300);
    let a = build_blas(&tris);
    let b = build_blas(&tris);
    assert_eq!(a.nodes, b.nodes);
    assert_eq!(a.tri_indices, b.tri_indices);
    let instances: Vec<PulsePrimitiveMeshInstance> = tris
        .iter()
        .map(|t| PulsePrimitiveMeshInstance { bounds_min: t.positions[0], bounds_max: t.positions[1], center: t.positions[2] })
        .collect();
    let c = build_tlas(&instances);
    let d = build_tlas(&instances);
    assert_eq!(c.nodes, d.nodes);
    assert_eq!(c.instance_indices, d.instance_indices);
}

#[test]
fn coincident_centroids_make_a_forced_leaf() {
    // Twelve triangles, all with the centroid (0, 0, 0) but different sizes.
    let tris: Vec<PulsePrimitive> = (1..=12).map(|s| tri(v(-s, -s, 0), v(s, -s, 0), v(0, 2 * s, 0))).collect();
    let blas = check_blas(&tris);
    assert_eq!(blas.nodes.len(), 1);
    assert_eq!(blas.nodes[0].count, 12);
    assert_eq!(blas.nodes[0].aabb_min, v(-12, -12, 0));
    assert_eq!(blas.nodes[0].aabb_max, v(12, 24, 0));
}

#[test]
fn tlas_leaves_hold_one_instance() {
    let instances: Vec<PulsePrimitiveMeshInstance> = (0..7)
        .map(|i| PulsePrimitiveMeshInstance {
            bounds_min: v(i * 4, 0, -i),
            bounds_max: v(i * 4 + 2, 3, i),
            center: v(i * 4 + 1, 1, 0),
        })
        .collect();
    let tlas = build_tlas(&instances);
    let bounds: Vec<AABB> = instances.iter().map(|i| i.build_primitive().bounds).collect();
    let centroids: Vec<Centroid> = instances.iter().map(|i| i.build_primitive().centroid).collect();
    check_hierarchy(&tlas.nodes, &tlas.instance_indices, &bounds, &centroids, TLAS_LEAF_THRESHOLD);
    assert_eq!(tlas.nodes.len(), 13);
    for nd in &tlas.nodes {
        assert!(nd.count <= 1);
    }
    assert_eq!(tlas.nodes[0].aabb_min, v(0, 0, -6));
    assert_eq!(tlas.nodes[0].aabb_max, v(26, 3, 6));
}

#[test]
fn tlas_instance_with_swapped_corners_is_bounded_by_both() {
    let inst = PulsePrimitiveMeshInstance { bounds_min: v(5, 5, 5), bounds_max: v(1, 2, 3), center: v(3, 3, 3) };
    let p = inst.build_primitive();
    assert_eq!(p.bounds.min, v(1, 2, 3));
    assert_eq!(p.bounds.max, v(5, 5, 5));
    assert_eq!(p.centroid, Centroid { x: 3, y: 3, z: 3 });
}

#[test]
fn triangle_build_primitive_is_box_and_vertex_sum() {
    let t = tri(v(0, 5, -1), v(4, 1, 2), v(-3, 2, 7));
    let p = t.build_primitive();
    assert_eq!(p.bounds.min, v(-3, 1, -1));
    assert_eq!(p.bounds.max, v(4, 5, 7));
    assert_eq!(p.centroid, Centroid { x: 1, y: 8, z: 8 });
    assert_eq!(t.p0(), v(0, 5, -1));
    assert_eq!(t.p1(), v(4, 1, 2));
    assert_eq!(t.p2(), v(-3, 2, 7));
}

fn prim(min: Vec3i, max: Vec3i, c: (i64, i64, i64)) -> BuildPrimitive {
    BuildPrimitive { bounds: AABB { min, max }, centroid: Centroid { x: c.0, y: c.1, z: c.2 } }
}

#[test]
fn keeping_a_cheaper_leaf_is_a_policy() {
    // Two primitives spanning the same box: splitting them costs as much as the leaf.
    let prims = vec![prim(v(0, 0, 0), v(4, 4, 4), (1, 2, 2)), prim(v(0, 0, 0), v(4, 4, 4), (3, 2, 2))];
    let keep = BuildParams { bin_count: 4, leaf_threshold: 1, keep_leaf_when_cheaper: true };
    let r = build_bvh(&prims, keep);
    assert_eq!(r.nodes.len(), 1);
    assert_eq!(r.nodes[0].count, 2);
    let split = BuildParams { bin_count: 4, leaf_threshold: 1, keep_leaf_when_cheaper: false };
    let r = build_bvh(&prims, split);
    assert_eq!(r.nodes.len(), 3);
    assert_eq!(r.nodes[0].kind(), NodeKind::Internal { child_a: 1 });
    assert_eq!(r.nodes[1].kind(), NodeKind::Leaf { first: 0, count: 1 });
    assert_eq!(r.nodes[2].kind(), NodeKind::Leaf { first: 1, count: 1 });
    assert_eq!(r.indices, vec![0, 1]);
}

#[test]
fn subdivide_splits_a_leaf_in_place() {
    let prims = vec![
        prim(v(8, 0, 0), v(9, 1, 1), (8, 0, 0)),
        prim(v(0, 0, 0), v(1, 1, 1), (0, 0, 0)),
        prim(v(9, 0, 0), v(10, 1, 1), (9, 0, 0)),
        prim(v(1, 0, 0), v(2, 1, 1), (1, 0, 0)),
    ];
    let mut idx = vec![0u32, 1, 2, 3];
    let root = calculate_node_aabb(&prims, &idx, 0, 4);
    assert_eq!(root, AABB { min: v(0, 0, 0), max: v(10, 1, 1) });
    let mut nodes = vec![BVHNode::leaf(root, 0, 4)];
    let params = BuildParams { bin_count: 2, leaf_threshold: 2, keep_leaf_when_cheaper: false };
    subdivide(0, &mut nodes, &prims, &mut idx, params);
    assert_eq!(nodes.len(), 3);
    assert_eq!(nodes[0].count, 0);
    assert_eq!(nodes[0].a_or_first, 1);
    assert_eq!(nodes[1].aabb(), AABB { min: v(0, 0, 0), max: v(2, 1, 1) });
    assert_eq!(nodes[2].aabb(), AABB { min: v(8, 0, 0), max: v(10, 1, 1) });
    let mut left = idx[0..2].to_vec();
    left.sort();
    assert_eq!(left, vec![1, 3]);
}

#[test]
fn node_cost_is_count_times_area() {
    let nd = BVHNode::leaf(AABB { min: v(0, 0, 0), max: v(1, 2, 3) }, 0, 5);
    assert_eq!(calculate_node_cost(&nd), 55);
}

#[test]
fn tlas_instances_sharing_a_center_stay_together() {
    let instances: Vec<PulsePrimitiveMeshInstance> = (0..3)
        .map(|i| PulsePrimitiveMeshInstance { bounds_min: v(-i, -i, -i), bounds_max: v(i, i, i), center: v(0, 0, 0) })
        .collect();
    let tlas = build_tlas(&instances);
    assert_eq!(tlas.nodes.len(), 1);
    assert_eq!(tlas.nodes[0].count, 3);
    assert_eq!(tlas.nodes[0].aabb_min, v(-2, -2, -2));
    assert_eq!(tlas.nodes[0].aabb_max, v(2, 2, 2));
}

#[test]
fn subdivide_keeps_a_small_leaf() {
    let prims = vec![prim(v(0, 0, 0), v(1, 1, 1), (0, 0, 0)), prim(v(5, 0, 0), v(6, 1, 1), (5, 0, 0))];
    let mut idx = vec![1u32, 0];
    let root = calculate_node_aabb(&prims, &idx, 0, 2);
    let mut nodes = vec![BVHNode::leaf(root, 0, 2)];
    let params = BuildParams { bin_count: 20, leaf_threshold: 2, keep_leaf_when_cheaper: false };
    subdivide(0, &mut nodes, &prims, &mut idx, params);
    assert_eq!(nodes, vec![BVHNode::leaf(root, 0, 2)]);
    assert_eq!(idx, vec![1, 0]);
}

#[test]
fn root_box_of_scattered_triangles_is_tight() {
    let tris = scattered_triangles(64);
    let blas = build_blas(&tris);
    let mut expect = AABB::empty();
    for t in &tris {
        expect.grow_aabb(tri_bounds(t));
    }
    assert_eq!(blas.nodes[0].aabb(), expect);
}
