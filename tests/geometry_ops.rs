use pulse::geometry::{Vec3i, AABB};
use pulse::partition::{partition, swap};
use pulse::split::{find_best_split_plane, SplitPlane};
use pulse::geometry::{BuildPrimitive, Centroid};

fn v(x: i32, y: i32, z: i32) -> Vec3i {
    Vec3i::new(x, y, z)
}

#[test]
fn growing_the_empty_box_by_a_point_gives_that_point() {
    let mut b = AABB::empty();
    assert!(b.is_empty());
    b.grow_position(v(1, -2, 3));
    assert!(!b.is_empty());
    assert_eq!(b.min, v(1, -2, 3));
    assert_eq!(b.max, v(1, -2, 3));
    b.grow_position(v(-1, 5, 3));
    assert_eq!(b.min, v(-1, -2, 3));
    assert_eq!(b.max, v(1, 5, 3));
}

#[test]
fn growing_by_a_box_takes_both_corners_and_ignores_the_empty_box() {
    let mut b = AABB { min: v(0, 0, 0), max: v(1, 1, 1) };
    b.grow_aabb(AABB::empty());
    assert_eq!(b, AABB { min: v(0, 0, 0), max: v(1, 1, 1) });
    b.grow_aabb(AABB { min: v(-2, 0, 0), max: v(0, 4, 1) });
    assert_eq!(b, AABB { min: v(-2, 0, 0), max: v(1, 4, 1) });
}

#[test]
fn area_is_half_the_surface() {
    assert_eq!(AABB { min: v(0, 0, 0), max: v(1, 2, 3) }.area(), 11);
    assert_eq!(AABB { min: v(-1, -1, -1), max: v(1, 1, 1) }.area(), 12);
    assert_eq!(AABB { min: v(0, 0, 0), max: v(0, 0, 0) }.area(), 0);
    assert_eq!(AABB { min: v(0, 0, 5), max: v(4, 3, 5) }.area(), 12);
    assert_eq!(AABB::empty().area(), 0);
}

#[test]
fn area_of_the_widest_box() {
    let b = AABB { min: v(i32::MIN, i32::MIN, i32::MIN), max: v(i32::MAX, i32::MAX, i32::MAX) };
    let e = u32::MAX as u128;
    assert_eq!(b.area(), 3 * e * e);
}

#[test]
fn swap_exchanges_two_positions() {
    let mut d = vec![1u32, 2, 3, 4];
    swap(&mut d, 0, 3);
    assert_eq!(d, vec![4, 2, 3, 1]);
    swap(&mut d, 1, 1);
    assert_eq!(d, vec![4, 2, 3, 1]);
}

fn point_prim(x: i64) -> BuildPrimitive {
    BuildPrimitive {
        bounds: AABB { min: v(x as i32, 0, 0), max: v(x as i32, 0, 0) },
        centroid: Centroid { x, y: 0, z: 0 },
    }
}

#[test]
fn partition_puts_the_left_side_first() {
    let prims: Vec<BuildPrimitive> = [5, 1, 7, 0, 9, 3].iter().map(|&x| point_prim(x)).collect();
    let mut idx = vec![0u32, 1, 2, 3, 4, 5];
    // Keys 0 ..= 9 in two bins: the plane stands at 4.5.
    let plane = SplitPlane { axis: 0, origin: 0, extent: 9, bin_count: 2, boundary: 0, cost: 0 };
    assert!(plane.goes_left(&Centroid { x: 4, y: 0, z: 0 }));
    assert!(!plane.goes_left(&Centroid { x: 5, y: 0, z: 0 }));
    let mid = partition(&mut idx, &prims, 0, 6, &plane);
    assert_eq!(mid, 3);
    for j in 0..3 {
        assert!(prims[idx[j] as usize].centroid.x < 5);
    }
    for j in 3..6 {
        assert!(prims[idx[j] as usize].centroid.x >= 5);
    }
    // Scanning from the front, each primitive past the plane is exchanged with the last unscanned one.
    assert_eq!(idx, vec![5, 1, 3, 4, 2, 0]);
}

#[test]
fn partition_leaves_other_positions_alone() {
    let prims: Vec<BuildPrimitive> = [8, 1, 7, 0].iter().map(|&x| point_prim(x)).collect();
    let mut idx = vec![0u32, 1, 2, 3];
    let plane = SplitPlane { axis: 0, origin: 0, extent: 8, bin_count: 2, boundary: 0, cost: 0 };
    let mid = partition(&mut idx, &prims, 1, 3, &plane);
    assert_eq!(mid, 2);
    assert_eq!(idx, vec![0, 1, 2, 3]);
}

#[test]
fn no_plane_when_all_centroids_coincide() {
    let prims: Vec<BuildPrimitive> = (0..5).map(|_| point_prim(4)).collect();
    let idx = vec![0u32, 1, 2, 3, 4];
    assert_eq!(find_best_split_plane(&prims, &idx, 0, 5, 20), None);
}

#[test]
fn best_plane_separates_two_clusters() {
    // Three points near 0 and three near 100, on the x axis only.
    let prims: Vec<BuildPrimitive> = [0, 1, 2, 98, 99, 100].iter().map(|&x| point_prim(x)).collect();
    let idx = vec![0u32, 1, 2, 3, 4, 5];
    let p = find_best_split_plane(&prims, &idx, 0, 6, 4).unwrap();
    assert_eq!(p.axis, 0);
    assert_eq!(p.origin, 0);
    assert_eq!(p.extent, 100);
    assert_eq!(p.bin_count, 4);
    // Point boxes have no area, so every boundary costs 0 and the first one wins.
    assert_eq!(p.boundary, 0);
    assert_eq!(p.cost, 0);
}

#[test]
fn best_plane_cost_counts_areas() {
    // Unit cubes at x = 0, 1 and 10: the boundary after the first bin keeps the pair together.
    let cube = |x: i32| BuildPrimitive {
        bounds: AABB { min: v(x, 0, 0), max: v(x + 1, 1, 1) },
        centroid: Centroid { x: x as i64, y: 0, z: 0 },
    };
    let prims = vec![cube(0), cube(1), cube(10)];
    let idx = vec![0u32, 1, 2];
    let p = find_best_split_plane(&prims, &idx, 0, 3, 2).unwrap();
    assert_eq!(p.axis, 0);
    assert_eq!(p.boundary, 0);
    // Left: two cubes spanning 2 x 1 x 1 (area 5); right: one unit cube (area 3).
    assert_eq!(p.cost, 2 * 5 + 3);
}

fn cube_at(x: i32, y: i32, z: i32) -> BuildPrimitive {
    BuildPrimitive {
        bounds: AABB { min: v(x, y, z), max: v(x + 1, y + 1, z + 1) },
        centroid: Centroid { x: x as i64, y: y as i64, z: z as i64 },
    }
}

#[test]
fn best_plane_lies_on_the_only_spread_axis() {
    let prims = vec![cube_at(0, 0, 0), cube_at(0, 8, 0), cube_at(0, 9, 0), cube_at(0, 1, 0)];
    let idx = vec![0u32, 1, 2, 3];
    let p = find_best_split_plane(&prims, &idx, 0, 4, 4).unwrap();
    assert_eq!(p.axis, 1);
    assert_eq!(p.origin, 0);
    assert_eq!(p.extent, 9);
    // Boundaries after bins 0, 1 and 2 all separate {0, 1} from {8, 9}: the first one wins.
    assert_eq!(p.boundary, 0);
    // Each side: two unit cubes one apart along y, area 1*2 + 2*1 + 1*1 = 5.
    assert_eq!(p.cost, 2 * 5 + 2 * 5);
}

#[test]
fn equal_costs_on_two_axes_pick_the_first_axis() {
    // The same layout along x and along z.
    let prims = vec![cube_at(0, 0, 0), cube_at(6, 0, 6)];
    let idx = vec![0u32, 1];
    let p = find_best_split_plane(&prims, &idx, 0, 2, 2).unwrap();
    assert_eq!(p.axis, 0);
    assert_eq!(p.cost, 3 + 3);
}

#[test]
fn search_reads_only_its_range() {
    let prims = vec![cube_at(0, 0, 0), cube_at(5, 5, 5), cube_at(5, 5, 5), cube_at(9, 0, 0)];
    let idx = vec![0u32, 1, 2, 3];
    assert_eq!(find_best_split_plane(&prims, &idx, 1, 2, 20), None);
    assert!(find_best_split_plane(&prims, &idx, 0, 2, 20).is_some());
}
