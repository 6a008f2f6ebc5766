//! Axis-aligned bounding boxes and the 2D vectors they are built from.
//!
//! All coordinates are integers bounded by [`COORD_LIMIT`], which keeps every
//! arithmetic operation in this crate free of overflow.

use vstd::prelude::*;

verus! {

/// Every coordinate handled by the engine stays within this bound.
pub const COORD_LIMIT: i64 = 16777216;

/// Positions and shape extents stay within half the coordinate bound, so a
/// bounding box around any position is always representable.
pub const POS_LIMIT: i64 = 8388608;

/// A 2D vector / point with bounded integer coordinates.
#[derive(Clone, Copy, Debug, PartialEq, Eq, Structural)]
pub struct Vec2 {
    pub x: i64,
    pub y: i64,
}

/// True when a scalar is within the coordinate bound.
pub open spec fn in_range(v: int) -> bool {
    -COORD_LIMIT <= v <= COORD_LIMIT
}

/// True when a scalar is within the position bound.
pub open spec fn pos_in_range(v: int) -> bool {
    -POS_LIMIT <= v <= POS_LIMIT
}

/// Clamp a scalar into the position bound.
pub open spec fn clamp_spec(v: int) -> int {
    if v < -POS_LIMIT {
        -POS_LIMIT as int
    } else if v > POS_LIMIT {
        POS_LIMIT as int
    } else {
        v
    }
}

/// Exec clamp into the position bound.
pub fn clamp_coord(v: i64) -> (r: i64)
    ensures
        r == clamp_spec(v as int),
{
    if v < -POS_LIMIT {
        -POS_LIMIT
    } else if v > POS_LIMIT {
        POS_LIMIT
    } else {
        v
    }
}

impl Vec2 {
    /// Both coordinates are within the coordinate bound.
    pub open spec fn wf(self) -> bool {
        in_range(self.x as int) && in_range(self.y as int)
    }

    /// Both coordinates are within the tighter position bound.
    pub open spec fn pos_wf(self) -> bool {
        pos_in_range(self.x as int) && pos_in_range(self.y as int)
    }

    pub fn new(x: i64, y: i64) -> (r: Vec2)
        ensures
            r.x == x,
            r.y == y,
    {
        Vec2 { x, y }
    }
}

/// An axis-aligned bounding box: left-x, top-y, right-x, bottom-y.
#[derive(Clone, Copy, Debug, PartialEq, Eq, Structural)]
pub struct Aabb {
    pub lx: i64,
    pub ly: i64,
    pub rx: i64,
    pub ry: i64,
}

impl Aabb {
    /// The min corner is left/above the max corner and all coordinates are bounded.
    pub open spec fn wf(self) -> bool {
        &&& self.lx <= self.rx
        &&& self.ly <= self.ry
        &&& in_range(self.lx as int)
        &&& in_range(self.ly as int)
        &&& in_range(self.rx as int)
        &&& in_range(self.ry as int)
    }

    /// The smallest box containing both `a` and `b`.
    pub open spec fn union_spec(a: Aabb, b: Aabb) -> Aabb {
        Aabb {
            lx: if a.lx <= b.lx { a.lx } else { b.lx },
            ly: if a.ly <= b.ly { a.ly } else { b.ly },
            rx: if a.rx >= b.rx { a.rx } else { b.rx },
            ry: if a.ry >= b.ry { a.ry } else { b.ry },
        }
    }

    /// `a` fully contains `b`.
    pub open spec fn contains_spec(a: Aabb, b: Aabb) -> bool {
        a.lx <= b.lx && a.rx >= b.rx && a.ly <= b.ly && a.ry >= b.ry
    }

    /// `a` and `b` overlap on a region of positive area (touching edges do not count).
    pub open spec fn overlaps_spec(a: Aabb, b: Aabb) -> bool {
        a.lx < b.rx && a.rx > b.lx && a.ly < b.ry && a.ry > b.ly
    }

    /// `p` lies strictly inside `a`.
    pub open spec fn contains_point_spec(a: Aabb, p: Vec2) -> bool {
        a.lx < p.x && a.rx > p.x && a.ly < p.y && a.ry > p.y
    }

    /// Squared distance between the (doubled) centers of `a` and `b`,
    /// the heuristic that guides greedy insertion.
    pub open spec fn dist_spec(a: Aabb, b: Aabb) -> int {
        let dx = (a.lx + a.rx) - (b.lx + b.rx);
        let dy = (a.ly + a.ry) - (b.ly + b.ry);
        dx * dx + dy * dy
    }

    /// The smallest box containing `a` and the point `p`.
    pub open spec fn with_point_spec(a: Aabb, p: Vec2) -> Aabb {
        Aabb {
            lx: if a.lx <= p.x { a.lx } else { p.x },
            ly: if a.ly <= p.y { a.ly } else { p.y },
            rx: if a.rx >= p.x { a.rx } else { p.x },
            ry: if a.ry >= p.y { a.ry } else { p.y },
        }
    }

    /// Smallest box containing `self` and `other`.
    pub fn get_union(&self, other: &Aabb) -> (r: Aabb)
        ensures
            r == Self::union_spec(*self, *other),
    {
        Aabb {
            lx: if self.lx <= other.lx { self.lx } else { other.lx },
            ly: if self.ly <= other.ly { self.ly } else { other.ly },
            rx: if self.rx >= other.rx { self.rx } else { other.rx },
            ry: if self.ry >= other.ry { self.ry } else { other.ry },
        }
    }

    /// Does `self` fully contain `other`?
    pub fn contains(&self, other: &Aabb) -> (r: bool)
        ensures
            r == Self::contains_spec(*self, *other),
    {
        self.lx <= other.lx && self.rx >= other.rx && self.ly <= other.ly && self.ry >= other.ry
    }

    /// Do `self` and `other` overlap on a region of positive area?
    pub fn is_colliding(&self, other: &Aabb) -> (r: bool)
        ensures
            r == Self::overlaps_spec(*self, *other),
    {
        self.lx < other.rx && self.rx > other.lx && self.ly < other.ry && self.ry > other.ly
    }

    /// Does `p` lie strictly inside `self`?
    pub fn contains_point(&self, p: &Vec2) -> (r: bool)
        ensures
            r == Self::contains_point_spec(*self, *p),
    {
        self.lx < p.x && self.rx > p.x && self.ly < p.y && self.ry > p.y
    }

    /// Grow `self` to also contain the point `p`.
    pub fn with_point(&self, p: &Vec2) -> (r: Aabb)
        ensures
            r == Self::with_point_spec(*self, *p),
    {
        Aabb {
            lx: if self.lx <= p.x { self.lx } else { p.x },
            ly: if self.ly <= p.y { self.ly } else { p.y },
            rx: if self.rx >= p.x { self.rx } else { p.x },
            ry: if self.ry >= p.y { self.ry } else { p.y },
        }
    }

    /// Insertion heuristic: squared distance between the doubled centers.
    pub fn get_dist(&self, other: &Aabb) -> (r: i64)
        requires
            self.wf(),
            other.wf(),
        ensures
            r == Self::dist_spec(*self, *other),
    {
        let dx = (self.lx + self.rx) - (other.lx + other.rx);
        let dy = (self.ly + self.ry) - (other.ly + other.ry);
        proof {
            assert(dx * dx + dy * dy <= 2 * ((4 * COORD_LIMIT) * (4 * COORD_LIMIT))
                && 0 <= dx * dx && 0 <= dy * dy) by (nonlinear_arith)
                requires
                    -4 * COORD_LIMIT <= dx <= 4 * COORD_LIMIT,
                    -4 * COORD_LIMIT <= dy <= 4 * COORD_LIMIT,
            ;
        }
        dx * dx + dy * dy
    }
}

/// The union contains both of its arguments and keeps well-formedness.
pub proof fn lemma_union_contains(a: Aabb, b: Aabb)
    ensures
        Aabb::contains_spec(Aabb::union_spec(a, b), a),
        Aabb::contains_spec(Aabb::union_spec(a, b), b),
        a.wf() && b.wf() ==> Aabb::union_spec(a, b).wf(),
{
}

/// Growing both sides of a containment by the same box keeps it.
pub proof fn lemma_union_monotone(a: Aabb, b: Aabb, x: Aabb)
    requires
        Aabb::contains_spec(a, b),
    ensures
        Aabb::contains_spec(Aabb::union_spec(a, x), Aabb::union_spec(b, x)),
{
}

/// Containment is transitive.
pub proof fn lemma_contains_trans(a: Aabb, b: Aabb, c: Aabb)
    requires
        Aabb::contains_spec(a, b),
        Aabb::contains_spec(b, c),
    ensures
        Aabb::contains_spec(a, c),
{
}

/// Anything overlapping a contained box also overlaps the container.
pub proof fn lemma_contains_overlap(a: Aabb, b: Aabb, r: Aabb)
    requires
        Aabb::contains_spec(a, b),
        Aabb::overlaps_spec(b, r),
    ensures
        Aabb::overlaps_spec(a, r),
{
}

/// A point inside a contained box is inside the container.
pub proof fn lemma_contains_point(a: Aabb, b: Aabb, p: Vec2)
    requires
        Aabb::contains_spec(a, b),
        Aabb::contains_point_spec(b, p),
    ensures
        Aabb::contains_point_spec(a, p),
{
}

} // verus!
