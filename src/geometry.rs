//! Points, axis-aligned boxes and the primitives that the builders consume.
use vstd::prelude::*;

verus! {

/// A point with integer (fixed-point) coordinates.
#[derive(Clone, Copy, Debug, PartialEq, Eq, Structural)]
pub struct Vec3i {
    pub x: i32,
    pub y: i32,
    pub z: i32,
}

impl Vec3i {
    /// The coordinate along `axis` (0 = x, 1 = y, 2 = z).
    pub open spec fn coord(self, axis: int) -> int {
        if axis == 0 {
            self.x as int
        } else if axis == 1 {
            self.y as int
        } else {
            self.z as int
        }
    }

    pub fn new(x: i32, y: i32, z: i32) -> (r: Vec3i)
        ensures
            r == (Vec3i { x, y, z }),
    {
        Vec3i { x, y, z }
    }
}

pub open spec fn min_i32(a: i32, b: i32) -> i32 {
    if a <= b {
        a
    } else {
        b
    }
}

pub open spec fn max_i32(a: i32, b: i32) -> i32 {
    if a >= b {
        a
    } else {
        b
    }
}

/// Componentwise minimum of two points.
pub open spec fn min_point(a: Vec3i, b: Vec3i) -> Vec3i {
    Vec3i { x: min_i32(a.x, b.x), y: min_i32(a.y, b.y), z: min_i32(a.z, b.z) }
}

/// Componentwise maximum of two points.
pub open spec fn max_point(a: Vec3i, b: Vec3i) -> Vec3i {
    Vec3i { x: max_i32(a.x, b.x), y: max_i32(a.y, b.y), z: max_i32(a.z, b.z) }
}

fn min_coord(a: i32, b: i32) -> (r: i32)
    ensures
        r == min_i32(a, b),
{
    if a <= b {
        a
    } else {
        b
    }
}

fn max_coord(a: i32, b: i32) -> (r: i32)
    ensures
        r == max_i32(a, b),
{
    if a >= b {
        a
    } else {
        b
    }
}

/// No box of `i32` coordinates has a larger `area`.
pub const AREA_LIMIT: u128 = 0x3_0000_0000_0000_0000;

/// An axis-aligned bounding box. The empty box is the one with `min` at the
/// largest and `max` at the smallest coordinate on every axis: growing it by a
/// point gives the box of that point alone.
#[derive(Clone, Copy, Debug, PartialEq, Eq, Structural)]
pub struct AABB {
    pub min: Vec3i,
    pub max: Vec3i,
}

impl AABB {
    pub open spec fn empty_spec() -> AABB {
        AABB {
            min: Vec3i { x: i32::MAX, y: i32::MAX, z: i32::MAX },
            max: Vec3i { x: i32::MIN, y: i32::MIN, z: i32::MIN },
        }
    }

    /// A box is empty when it is inverted on some axis.
    pub open spec fn is_empty_spec(self) -> bool {
        self.min.x > self.max.x || self.min.y > self.max.y || self.min.z > self.max.z
    }

    /// Well-formed: the canonical empty box, or `min <= max` on every axis.
    pub open spec fn wf(self) -> bool {
        self == Self::empty_spec() || (self.min.x <= self.max.x && self.min.y <= self.max.y
            && self.min.z <= self.max.z)
    }

    pub open spec fn contains_point(self, p: Vec3i) -> bool {
        self.min.x <= p.x <= self.max.x && self.min.y <= p.y <= self.max.y && self.min.z <= p.z
            <= self.max.z
    }

    /// Every point of `other` lies in `self`.
    pub open spec fn contains(self, other: AABB) -> bool {
        other.is_empty_spec() || (self.min.x <= other.min.x && other.max.x <= self.max.x
            && self.min.y <= other.min.y && other.max.y <= self.max.y && self.min.z <= other.min.z
            && other.max.z <= self.max.z)
    }

    /// The smallest box holding `self` and `p`.
    pub open spec fn with_point(self, p: Vec3i) -> AABB {
        AABB { min: min_point(self.min, p), max: max_point(self.max, p) }
    }

    /// The smallest box holding `self` and `b`; an empty `b` adds nothing.
    pub open spec fn union(self, b: AABB) -> AABB {
        if b.is_empty_spec() {
            self
        } else {
            AABB { min: min_point(self.min, b.min), max: max_point(self.max, b.max) }
        }
    }

    /// Half the surface area, `xy + yz + zx` of the extent; zero for an empty box.
    pub open spec fn area_spec(self) -> int {
        if self.is_empty_spec() {
            0
        } else {
            let ex = self.max.x - self.min.x;
            let ey = self.max.y - self.min.y;
            let ez = self.max.z - self.min.z;
            ex * ey + ey * ez + ez * ex
        }
    }

    pub fn empty() -> (r: AABB)
        ensures
            r == Self::empty_spec(),
    {
        AABB {
            min: Vec3i { x: i32::MAX, y: i32::MAX, z: i32::MAX },
            max: Vec3i { x: i32::MIN, y: i32::MIN, z: i32::MIN },
        }
    }

    pub fn is_empty(&self) -> (r: bool)
        ensures
            r == self.is_empty_spec(),
    {
        self.min.x > self.max.x || self.min.y > self.max.y || self.min.z > self.max.z
    }

    /// Grows the box so that it holds `p`.
    pub fn grow_position(&mut self, p: Vec3i)
        ensures
            *final(self) == old(self).with_point(p),
            final(self).contains_point(p),
            old(self).wf() ==> final(self).wf() && final(self).contains(*old(self)),
    {
        self.min = Vec3i {
            x: min_coord(self.min.x, p.x),
            y: min_coord(self.min.y, p.y),
            z: min_coord(self.min.z, p.z),
        };
        self.max = Vec3i {
            x: max_coord(self.max.x, p.x),
            y: max_coord(self.max.y, p.y),
            z: max_coord(self.max.z, p.z),
        };
    }

    /// Grows the box so that it holds `aabb`: both of its corners, unless it is empty.
    pub fn grow_aabb(&mut self, aabb: AABB)
        ensures
            *final(self) == old(self).union(aabb),
            old(self).wf() && aabb.wf() ==> final(self).wf() && final(self).contains(*old(self))
                && final(self).contains(aabb),
    {
        proof {
            if old(self).wf() && aabb.wf() {
                lemma_union_contains(*old(self), aabb);
            }
        }
        if !aabb.is_empty() {
            self.grow_position(aabb.min);
            self.grow_position(aabb.max);
        }
    }

    /// Half the surface area of the box (see `area_spec`).
    pub fn area(&self) -> (r: u128)
        ensures
            r == self.area_spec(),
            r <= AREA_LIMIT,
    {
        if self.is_empty() {
            return 0;
        }
        let ex = (self.max.x as i64 - self.min.x as i64) as u128;
        let ey = (self.max.y as i64 - self.min.y as i64) as u128;
        let ez = (self.max.z as i64 - self.min.z as i64) as u128;
        assert(ex * ey <= 0x1_0000_0000_0000_0000 && ey * ez <= 0x1_0000_0000_0000_0000 && ez
            * ex <= 0x1_0000_0000_0000_0000) by (nonlinear_arith)
            requires
                ex <= 0xffff_ffff,
                ey <= 0xffff_ffff,
                ez <= 0xffff_ffff,
        ;
        ex * ey + ey * ez + ez * ex
    }
}

/// Growing a well-formed box keeps it well formed and holding what it held.
pub proof fn lemma_union_contains(a: AABB, b: AABB)
    requires
        a.wf(),
        b.wf(),
    ensures
        a.union(b).wf(),
        a.union(b).contains(a),
        a.union(b).contains(b),
{
}

/// A box that holds two boxes holds their union.
pub proof fn lemma_contains_union(c: AABB, a: AABB, b: AABB)
    requires
        a.wf(),
        b.wf(),
        c.contains(a),
        c.contains(b),
    ensures
        c.contains(a.union(b)),
{
}

/// The area never decreases as a box grows: a box holding another has at
/// least its area, and no box has a negative area.
pub proof fn lemma_area_monotone(a: AABB, b: AABB)
    requires
        a.contains(b),
    ensures
        0 <= b.area_spec() <= a.area_spec(),
{
    if !b.is_empty_spec() {
        let (ax, ay, az) = (a.max.x - a.min.x, a.max.y - a.min.y, a.max.z - a.min.z);
        let (bx, by, bz) = (b.max.x - b.min.x, b.max.y - b.min.y, b.max.z - b.min.z);
        assert(0 <= bx * by + by * bz + bz * bx <= ax * ay + ay * az + az * ax) by (nonlinear_arith)
            requires
                0 <= bx <= ax,
                0 <= by <= ay,
                0 <= bz <= az,
        ;
    }
}


/// The smallest box holding every box of `s`, grown from the empty box in order.
pub open spec fn bounds_of(s: Seq<AABB>) -> AABB
    decreases s.len(),
{
    if s.len() == 0 {
        AABB::empty_spec()
    } else {
        bounds_of(s.drop_last()).union(s.last())
    }
}

/// `bounds_of` is a well-formed box that holds every box of the sequence, and
/// any box that holds them all holds it.
pub proof fn lemma_bounds_of(s: Seq<AABB>, c: AABB)
    requires
        forall|i: int| 0 <= i < s.len() ==> (#[trigger] s[i]).wf(),
    ensures
        bounds_of(s).wf(),
        forall|i: int| 0 <= i < s.len() ==> bounds_of(s).contains(#[trigger] s[i]),
        (forall|i: int| 0 <= i < s.len() ==> c.contains(#[trigger] s[i])) ==> c.contains(
            bounds_of(s),
        ),
    decreases s.len(),
{
    if s.len() > 0 {
        let t = s.drop_last();
        assert forall|i: int| 0 <= i < t.len() implies (#[trigger] t[i]).wf() by {
            assert(t[i] == s[i]);
        }
        lemma_bounds_of(t, c);
        lemma_union_contains(bounds_of(t), s.last());
        assert forall|i: int| 0 <= i < s.len() implies bounds_of(s).contains(#[trigger] s[i]) by {
            if i < t.len() {
                assert(t[i] == s[i]);
                assert(bounds_of(t).contains(t[i]));
            }
        }
        if forall|i: int| 0 <= i < s.len() ==> c.contains(#[trigger] s[i]) {
            assert forall|i: int| 0 <= i < t.len() implies c.contains(#[trigger] t[i]) by {
                assert(t[i] == s[i]);
            }
            assert(c.contains(s[s.len() - 1]));
            lemma_contains_union(c, bounds_of(t), s.last());
        }
    }
}

/// The representative point of a primitive that split decisions are made on,
/// possibly scaled by a positive factor (a triangle's is the sum of its
/// vertices, three times their mean), which changes no decision.
#[derive(Clone, Copy, Debug, PartialEq, Eq, Structural)]
pub struct Centroid {
    pub x: i64,
    pub y: i64,
    pub z: i64,
}

/// Centroid coordinates stay within this magnitude, so that split arithmetic fits in `i64`.
pub const CENTROID_LIMIT: i64 = 0x100_0000_0000;

impl Centroid {
    pub open spec fn coord(self, axis: int) -> int {
        if axis == 0 {
            self.x as int
        } else if axis == 1 {
            self.y as int
        } else {
            self.z as int
        }
    }

    pub open spec fn in_range(self) -> bool {
        -CENTROID_LIMIT <= self.x <= CENTROID_LIMIT && -CENTROID_LIMIT <= self.y <= CENTROID_LIMIT
            && -CENTROID_LIMIT <= self.z <= CENTROID_LIMIT
    }

    /// The coordinate along `axis`.
    pub fn axis(&self, axis: usize) -> (r: i64)
        requires
            axis < 3,
        ensures
            r == self.coord(axis as int),
    {
        if axis == 0 {
            self.x
        } else if axis == 1 {
            self.y
        } else {
            self.z
        }
    }
}

/// What a builder knows of one primitive: its bounds and its centroid.
#[derive(Clone, Copy, Debug, PartialEq, Eq, Structural)]
pub struct BuildPrimitive {
    pub bounds: AABB,
    pub centroid: Centroid,
}

impl BuildPrimitive {
    pub open spec fn wf(self) -> bool {
        self.bounds.wf() && !self.bounds.is_empty_spec() && self.centroid.in_range()
    }
}

/// A triangle given by its three vertices.
#[derive(Clone, Copy, Debug)]
pub struct PulsePrimitive {
    pub positions: [Vec3i; 3],
}

impl PulsePrimitive {
    pub fn p0(&self) -> (r: Vec3i)
        ensures
            r == self.positions[0],
    {
        self.positions[0]
    }

    pub fn p1(&self) -> (r: Vec3i)
        ensures
            r == self.positions[1],
    {
        self.positions[1]
    }

    pub fn p2(&self) -> (r: Vec3i)
        ensures
            r == self.positions[2],
    {
        self.positions[2]
    }

    /// The triangle's bounding box.
    pub open spec fn bounds_spec(self) -> AABB {
        AABB::empty_spec().with_point(self.positions[0]).with_point(self.positions[1]).with_point(
            self.positions[2],
        )
    }

    /// Three times the mean of the vertices.
    pub open spec fn centroid_spec(self) -> Centroid {
        let (a, b, c) = (self.positions[0], self.positions[1], self.positions[2]);
        Centroid {
            x: (a.x + b.x + c.x) as i64,
            y: (a.y + b.y + c.y) as i64,
            z: (a.z + b.z + c.z) as i64,
        }
    }

    pub open spec fn build_primitive_spec(self) -> BuildPrimitive {
        BuildPrimitive { bounds: self.bounds_spec(), centroid: self.centroid_spec() }
    }

    /// The triangle as the builder sees it: its bounding box and its centroid.
    pub fn build_primitive(&self) -> (r: BuildPrimitive)
        ensures
            r == self.build_primitive_spec(),
            r.wf(),
    {
        let mut bounds = AABB::empty();
        bounds.grow_position(self.positions[0]);
        bounds.grow_position(self.positions[1]);
        bounds.grow_position(self.positions[2]);
        let (a, b, c) = (self.positions[0], self.positions[1], self.positions[2]);
        let centroid = Centroid {
            x: a.x as i64 + b.x as i64 + c.x as i64,
            y: a.y as i64 + b.y as i64 + c.y as i64,
            z: a.z as i64 + b.z as i64 + c.z as i64,
        };
        BuildPrimitive { bounds, centroid }
    }
}

/// The world-space bounds of one mesh instance, and the point that stands for it.
#[derive(Clone, Copy, Debug, PartialEq, Eq, Structural)]
pub struct PulsePrimitiveMeshInstance {
    pub bounds_min: Vec3i,
    pub bounds_max: Vec3i,
    pub center: Vec3i,
}

impl PulsePrimitiveMeshInstance {
    /// The box grown by both corners (the given box when `bounds_min <= bounds_max`).
    pub open spec fn bounds_spec(self) -> AABB {
        AABB::empty_spec().with_point(self.bounds_min).with_point(self.bounds_max)
    }

    pub open spec fn build_primitive_spec(self) -> BuildPrimitive {
        BuildPrimitive {
            bounds: self.bounds_spec(),
            centroid: Centroid {
                x: self.center.x as i64,
                y: self.center.y as i64,
                z: self.center.z as i64,
            },
        }
    }

    /// The instance as the builder sees it: its bounds and its center.
    pub fn build_primitive(&self) -> (r: BuildPrimitive)
        ensures
            r == self.build_primitive_spec(),
            r.wf(),
    {
        let mut bounds = AABB::empty();
        bounds.grow_position(self.bounds_min);
        bounds.grow_position(self.bounds_max);
        let centroid = Centroid {
            x: self.center.x as i64,
            y: self.center.y as i64,
            z: self.center.z as i64,
        };
        BuildPrimitive { bounds, centroid }
    }
}

} // verus!
