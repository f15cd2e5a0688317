use vstd::prelude::*;

verus! {

/// A point whose coordinates are order keys.
#[derive(Clone, Copy, Debug, PartialEq, Eq, Structural)]
pub struct KeyPoint {
    pub x: i64,
    pub y: i64,
    pub z: i64,
}

/// An axis-aligned box: on each axis the keys of its lower and upper bound.
#[derive(Clone, Copy, Debug, PartialEq, Eq, Structural)]
pub struct Aabb {
    pub x0: i64,
    pub x1: i64,
    pub y0: i64,
    pub y1: i64,
    pub z0: i64,
    pub z1: i64,
}

pub open spec fn min_of(a: i64, b: i64) -> i64 {
    if a <= b { a } else { b }
}

pub open spec fn max_of(a: i64, b: i64) -> i64 {
    if a <= b { b } else { a }
}

fn min_key(a: i64, b: i64) -> (r: i64)
    ensures
        r == min_of(a, b),
{
    if a <= b { a } else { b }
}

fn max_key(a: i64, b: i64) -> (r: i64)
    ensures
        r == max_of(a, b),
{
    if a <= b { b } else { a }
}

impl Aabb {
    /// Each lower bound lies at or below its upper bound.
    pub open spec fn wf(self) -> bool {
        self.x0 <= self.x1 && self.y0 <= self.y1 && self.z0 <= self.z1
    }

    /// `other` lies inside `self` on every axis.
    pub open spec fn contains(self, other: Aabb) -> bool {
        &&& self.x0 <= other.x0 && other.x1 <= self.x1
        &&& self.y0 <= other.y0 && other.y1 <= self.y1
        &&& self.z0 <= other.z0 && other.z1 <= self.z1
    }

    /// The smallest box that holds both boxes.
    pub open spec fn union(a: Aabb, b: Aabb) -> Aabb {
        Aabb {
            x0: min_of(a.x0, b.x0),
            x1: max_of(a.x1, b.x1),
            y0: min_of(a.y0, b.y0),
            y1: max_of(a.y1, b.y1),
            z0: min_of(a.z0, b.z0),
            z1: max_of(a.z1, b.z1),
        }
    }

    /// The box spanned by two opposite corners, given in any order.
    pub fn make_aabb(v0: KeyPoint, v1: KeyPoint) -> (r: Aabb)
        ensures
            r == (Aabb {
                x0: min_of(v0.x, v1.x),
                x1: max_of(v0.x, v1.x),
                y0: min_of(v0.y, v1.y),
                y1: max_of(v0.y, v1.y),
                z0: min_of(v0.z, v1.z),
                z1: max_of(v0.z, v1.z),
            }),
            r.wf(),
    {
        Aabb {
            x0: min_key(v0.x, v1.x),
            x1: max_key(v0.x, v1.x),
            y0: min_key(v0.y, v1.y),
            y1: max_key(v0.y, v1.y),
            z0: min_key(v0.z, v1.z),
            z1: max_key(v0.z, v1.z),
        }
    }

    /// The union of two boxes.
    pub fn merge_aabb(v0: &Aabb, v1: &Aabb) -> (r: Aabb)
        ensures
            r == Aabb::union(*v0, *v1),
            v0.wf() && v1.wf() ==> r.wf(),
    {
        Aabb {
            x0: min_key(v0.x0, v1.x0),
            x1: max_key(v0.x1, v1.x1),
            y0: min_key(v0.y0, v1.y0),
            y1: max_key(v0.y1, v1.y1),
            z0: min_key(v0.z0, v1.z0),
            z1: max_key(v0.z1, v1.z1),
        }
    }
}

/// Merging two boxes gives the same box in either order.
pub proof fn lemma_merge_commutative(a: Aabb, b: Aabb)
    ensures
        Aabb::union(a, b) == Aabb::union(b, a),
{
}

/// Merging three boxes gives the same box however the merges are grouped.
pub proof fn lemma_merge_associative(a: Aabb, b: Aabb, c: Aabb)
    ensures
        Aabb::union(Aabb::union(a, b), c) == Aabb::union(a, Aabb::union(b, c)),
{
}

/// Merging a box with itself gives the box back.
pub proof fn lemma_merge_idempotent(a: Aabb)
    ensures
        Aabb::union(a, a) == a,
{
}

/// The merge of two boxes contains each of them.
pub proof fn lemma_merge_contains_both(a: Aabb, b: Aabb)
    ensures
        Aabb::union(a, b).contains(a),
        Aabb::union(a, b).contains(b),
{
}

/// Containment is transitive.
pub proof fn lemma_contains_transitive(a: Aabb, b: Aabb, c: Aabb)
    requires
        a.contains(b),
        b.contains(c),
    ensures
        a.contains(c),
{
}

} // verus!
