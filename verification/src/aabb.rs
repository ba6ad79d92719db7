//! Axis-aligned bounding box algebra: union, in-place extension, centroid and
//! dominant-axis selection, together with the `Bounded` capability that any
//! primitive must satisfy so the hierarchy builder stays primitive-agnostic.

use vstd::prelude::*;

verus! {

/// A point or extent in 3-space, one `i32` per axis.
#[verifier::ext_equal]
#[derive(Clone, Copy, Debug, PartialEq, Eq, Structural)]
pub struct Vec3i {
    pub x: i32,
    pub y: i32,
    pub z: i32,
}

impl Vec3i {
    pub fn new(x: i32, y: i32, z: i32) -> (v: Vec3i)
        ensures
            v == (Vec3i { x, y, z }),
    {
        Vec3i { x, y, z }
    }
}

/// One of the three coordinate axes.
#[derive(Clone, Copy, Debug, PartialEq, Eq, Structural)]
pub enum Axis {
    X,
    Y,
    Z,
}

/// An axis-aligned bounding box, the smallest box with axis-perpendicular
/// faces enclosing whatever it was built from.
#[verifier::ext_equal]
#[derive(Clone, Copy, Debug, PartialEq, Eq, Structural)]
pub struct AABB {
    pub min: Vec3i,
    pub max: Vec3i,
}

/// A box is well formed when it is non-inverted on every axis.
pub open spec fn aabb_wf(b: AABB) -> bool {
    b.min.x <= b.max.x && b.min.y <= b.max.y && b.min.z <= b.max.z
}

/// The smallest box enclosing both arguments: per-axis minimum of minima and
/// maximum of maxima.
pub open spec fn aabb_union(a: AABB, b: AABB) -> AABB {
    AABB {
        min: Vec3i {
            x: if a.min.x <= b.min.x { a.min.x } else { b.min.x },
            y: if a.min.y <= b.min.y { a.min.y } else { b.min.y },
            z: if a.min.z <= b.min.z { a.min.z } else { b.min.z },
        },
        max: Vec3i {
            x: if a.max.x >= b.max.x { a.max.x } else { b.max.x },
            y: if a.max.y >= b.max.y { a.max.y } else { b.max.y },
            z: if a.max.z >= b.max.z { a.max.z } else { b.max.z },
        },
    }
}

/// `outer` encloses `inner` on every axis.
pub open spec fn aabb_contains(outer: AABB, inner: AABB) -> bool {
    &&& outer.min.x <= inner.min.x
    &&& outer.min.y <= inner.min.y
    &&& outer.min.z <= inner.min.z
    &&& inner.max.x <= outer.max.x
    &&& inner.max.y <= outer.max.y
    &&& inner.max.z <= outer.max.z
}

/// The axis along which the box is widest, ties resolved in favour of X, then
/// Y, then Z.
pub open spec fn spec_largest_axis(b: AABB) -> Axis {
    let sx = b.max.x - b.min.x;
    let sy = b.max.y - b.min.y;
    let sz = b.max.z - b.min.z;
    if sx >= sy && sx >= sz {
        Axis::X
    } else if sy >= sx && sy >= sz {
        Axis::Y
    } else {
        Axis::Z
    }
}

/// Midpoint of `lo` and `hi`, rounded toward `lo`; stays in `[lo, hi]`.
pub open spec fn mid_coord(lo: i32, hi: i32) -> i32
    recommends
        lo <= hi,
{
    (lo + (hi - lo) / 2) as i32
}

/// Centroid of a box, per-axis midpoint of the two corners.
pub open spec fn spec_center(b: AABB) -> Vec3i
    recommends
        aabb_wf(b),
{
    Vec3i {
        x: mid_coord(b.min.x, b.max.x),
        y: mid_coord(b.min.y, b.max.y),
        z: mid_coord(b.min.z, b.max.z),
    }
}

/// Twice the exact (unrounded) centroid coordinate of `b` along `axis`. Using
/// the doubled value keeps the ordering of true centroids without dividing.
pub open spec fn centroid2_along(b: AABB, axis: Axis) -> int {
    match axis {
        Axis::X => b.min.x + b.max.x,
        Axis::Y => b.min.y + b.max.y,
        Axis::Z => b.min.z + b.max.z,
    }
}

/// The capability the hierarchy builder asks of a primitive: report a well
/// formed bounding box.
pub trait Bounded {
    /// Whether the primitive is in a state where its bounds are meaningful
    /// and computable without overflow.
    spec fn wf_bounds(&self) -> bool;

    /// The bounding box the primitive reports.
    spec fn bounds_spec(&self) -> AABB;

    fn get_bounds(&self) -> (r: AABB)
        requires
            self.wf_bounds(),
        ensures
            r == self.bounds_spec(),
            aabb_wf(r),
    ;
}

impl AABB {
    pub fn from_bounds(min: Vec3i, max: Vec3i) -> (r: AABB)
        ensures
            r == (AABB { min, max }),
    {
        AABB { min, max }
    }

    pub fn union(a: &AABB, b: &AABB) -> (r: AABB)
        ensures
            r == aabb_union(*a, *b),
    {
        AABB {
            min: Vec3i {
                x: if a.min.x <= b.min.x { a.min.x } else { b.min.x },
                y: if a.min.y <= b.min.y { a.min.y } else { b.min.y },
                z: if a.min.z <= b.min.z { a.min.z } else { b.min.z },
            },
            max: Vec3i {
                x: if a.max.x >= b.max.x { a.max.x } else { b.max.x },
                y: if a.max.y >= b.max.y { a.max.y } else { b.max.y },
                z: if a.max.z >= b.max.z { a.max.z } else { b.max.z },
            },
        }
    }

    /// Monotonic in-place enlargement; equivalent to `*self = union(self, other)`.
    pub fn extend(&mut self, other: &AABB)
        ensures
            *final(self) == aabb_union(*old(self), *other),
    {
        *self = AABB::union(self, other);
    }

    pub fn largest_axis(&self) -> (r: Axis)
        ensures
            r == spec_largest_axis(*self),
    {
        let sx = self.max.x as i64 - self.min.x as i64;
        let sy = self.max.y as i64 - self.min.y as i64;
        let sz = self.max.z as i64 - self.min.z as i64;
        if sx >= sy && sx >= sz {
            Axis::X
        } else if sy >= sx && sy >= sz {
            Axis::Y
        } else {
            Axis::Z
        }
    }

    pub fn center(&self) -> (r: Vec3i)
        requires
            aabb_wf(*self),
        ensures
            r == spec_center(*self),
    {
        Vec3i {
            x: mid_exec(self.min.x, self.max.x),
            y: mid_exec(self.min.y, self.max.y),
            z: mid_exec(self.min.z, self.max.z),
        }
    }

    pub fn get_min(&self) -> (r: Vec3i)
        ensures
            r == self.min,
    {
        self.min
    }

    pub fn get_max(&self) -> (r: Vec3i)
        ensures
            r == self.max,
    {
        self.max
    }

    pub fn size_x(&self) -> (r: i64)
        ensures
            r == self.max.x - self.min.x,
    {
        self.max.x as i64 - self.min.x as i64
    }

    pub fn size_y(&self) -> (r: i64)
        ensures
            r == self.max.y - self.min.y,
    {
        self.max.y as i64 - self.min.y as i64
    }

    pub fn size_z(&self) -> (r: i64)
        ensures
            r == self.max.z - self.min.z,
    {
        self.max.z as i64 - self.min.z as i64
    }

    pub fn min_x(&self) -> (r: i32)
        ensures
            r == self.min.x,
    {
        self.min.x
    }

    pub fn min_y(&self) -> (r: i32)
        ensures
            r == self.min.y,
    {
        self.min.y
    }

    pub fn min_z(&self) -> (r: i32)
        ensures
            r == self.min.z,
    {
        self.min.z
    }

    pub fn max_x(&self) -> (r: i32)
        ensures
            r == self.max.x,
    {
        self.max.x
    }

    pub fn max_y(&self) -> (r: i32)
        ensures
            r == self.max.y,
    {
        self.max.y
    }

    pub fn max_z(&self) -> (r: i32)
        ensures
            r == self.max.z,
    {
        self.max.z
    }
}

/// Midpoint of `lo <= hi`, computed in wider arithmetic so it never overflows.
fn mid_exec(lo: i32, hi: i32) -> (r: i32)
    requires
        lo <= hi,
    ensures
        r == mid_coord(lo, hi),
{
    let d = (hi as i64 - lo as i64) as u64;
    let half = (d / 2) as i64;
    (lo as i64 + half) as i32
}

/// The union of a non-empty sequence of boxes, folded left to right.
pub open spec fn union_all(s: Seq<AABB>) -> AABB
    recommends
        s.len() >= 1,
    decreases s.len(),
{
    if s.len() <= 1 {
        s[0]
    } else {
        aabb_union(union_all(s.drop_last()), s.last())
    }
}

/// `union` is associative.
pub proof fn lemma_union_assoc(a: AABB, b: AABB, c: AABB)
    ensures
        aabb_union(aabb_union(a, b), c) == aabb_union(a, aabb_union(b, c)),
{
    assert(aabb_union(aabb_union(a, b), c) =~= aabb_union(a, aabb_union(b, c)));
}

/// The folded union is an upper bound of every member.
pub proof fn lemma_union_all_upper(s: Seq<AABB>, i: int)
    requires
        0 <= i < s.len(),
    ensures
        aabb_contains(union_all(s), s[i]),
    decreases s.len(),
{
    if s.len() > 1 {
        if i < s.len() - 1 {
            lemma_union_all_upper(s.drop_last(), i);
        }
    }
}

/// The folded union is the least upper bound: any box containing every member
/// contains it.
pub proof fn lemma_union_all_least(s: Seq<AABB>, c: AABB)
    requires
        s.len() >= 1,
        forall|i: int| 0 <= i < s.len() ==> aabb_contains(c, #[trigger] s[i]),
    ensures
        aabb_contains(c, union_all(s)),
    decreases s.len(),
{
    if s.len() > 1 {
        lemma_union_all_least(s.drop_last(), c);
    }
}

/// Folding distributes over concatenation of non-empty sequences.
pub proof fn lemma_union_all_append(s1: Seq<AABB>, s2: Seq<AABB>)
    requires
        s1.len() >= 1,
        s2.len() >= 1,
    ensures
        union_all(s1 + s2) == aabb_union(union_all(s1), union_all(s2)),
    decreases s2.len(),
{
    if s2.len() == 1 {
        assert((s1 + s2).drop_last() =~= s1);
        assert((s1 + s2).last() == s2[0]);
    } else {
        assert((s1 + s2).drop_last() =~= s1 + s2.drop_last());
        lemma_union_all_append(s1, s2.drop_last());
        lemma_union_assoc(union_all(s1), union_all(s2.drop_last()), s2.last());
    }
}

/// The folded union depends only on which boxes occur, not on their order or
/// multiplicity: it is the least upper bound of the membership set.
pub proof fn lemma_union_all_same_members(s1: Seq<AABB>, s2: Seq<AABB>)
    requires
        s1.len() >= 1,
        s2.len() >= 1,
        forall|x: AABB| s1.contains(x) <==> s2.contains(x),
    ensures
        union_all(s1) == union_all(s2),
{
    assert forall|i: int| 0 <= i < s1.len() implies aabb_contains(
        union_all(s2),
        #[trigger] s1[i],
    ) by {
        assert(s1.contains(s1[i]));
        assert(s2.contains(s1[i]));
        let j = choose|j: int| 0 <= j < s2.len() && s2[j] == s1[i];
        lemma_union_all_upper(s2, j);
    }
    lemma_union_all_least(s1, union_all(s2));
    assert forall|i: int| 0 <= i < s2.len() implies aabb_contains(
        union_all(s1),
        #[trigger] s2[i],
    ) by {
        assert(s2.contains(s2[i]));
        assert(s1.contains(s2[i]));
        let j = choose|j: int| 0 <= j < s1.len() && s1[j] == s2[i];
        lemma_union_all_upper(s1, j);
    }
    lemma_union_all_least(s2, union_all(s1));
    lemma_contains_antisym(union_all(s1), union_all(s2));
}

/// `union` never shrinks: the result contains both inputs.
pub proof fn lemma_union_contains(a: AABB, b: AABB)
    ensures
        aabb_contains(aabb_union(a, b), a),
        aabb_contains(aabb_union(a, b), b),
{
}

/// Mutual containment forces equality.
pub proof fn lemma_contains_antisym(a: AABB, b: AABB)
    requires
        aabb_contains(a, b),
        aabb_contains(b, a),
    ensures
        a == b,
{
    assert(a =~= b);
}

} // verus!
