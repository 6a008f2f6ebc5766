//! Colliders: circle and rectangle shapes, collision layers, and the
//! narrow-phase overlap math that turns two boxes into a separation vector.

use vstd::prelude::*;
use crate::geometry::Aabb;
use crate::geometry::POS_LIMIT;
use crate::geometry::Vec2;

verus! {

/// Width of the collision layer set shared by colliders and the index.
pub const LAYERS: usize = 8;

/// The geometric shape of a collider.
#[derive(Clone, Copy, Debug, PartialEq, Eq, Structural)]
pub enum Shape {
    CircleCollider { radius: i64 },
    RectangeCollider { size: Vec2 },
}

/// A collider: a shape plus the flags that decide which collisions it
/// takes part in and whether it receives a physical response.
#[derive(Clone, Copy, Debug, PartialEq, Eq)]
pub struct Collider {
    pub shape: Shape,
    pub physics_collider: bool,
    pub collision_layers: [bool; LAYERS],
    pub collision_mask: [bool; LAYERS],
}

/// Two layer sets intersect: some layer is set in both.
pub open spec fn layers_intersect(a: Seq<bool>, b: Seq<bool>) -> bool {
    exists|i: int| 0 <= i < LAYERS && a[i] && b[i]
}

/// Exec test of layer-set intersection.
pub fn layers_hit(a: &[bool; LAYERS], b: &[bool; LAYERS]) -> (r: bool)
    ensures
        r == layers_intersect(a@, b@),
{
    let mut i: usize = 0;
    while i < LAYERS
        invariant
            0 <= i <= LAYERS,
            forall|j: int| 0 <= j < i ==> !(a@[j] && b@[j]),
        decreases LAYERS - i,
    {
        if a[i] && b[i] {
            return true;
        }
        i = i + 1;
    }
    false
}

impl Shape {
    /// A radius or size that keeps every derived box well formed: extents are
    /// non-negative and within the position bound.
    pub open spec fn wf(self) -> bool {
        match self {
            Shape::CircleCollider { radius } => 0 <= radius <= POS_LIMIT,
            Shape::RectangeCollider { size } => 0 <= size.x <= POS_LIMIT && 0 <= size.y
                <= POS_LIMIT,
        }
    }
}

impl Collider {
    pub open spec fn wf(self) -> bool {
        self.shape.wf()
    }

    /// The box a shape covers at `pos`: a circle is the box of side
    /// `2 * radius` centered at `pos`; a rectangle is anchored at `pos`.
    pub open spec fn bb_spec(self, pos: Vec2) -> Aabb {
        match self.shape {
            Shape::CircleCollider { radius } => Aabb {
                lx: (pos.x - radius) as i64,
                ly: (pos.y - radius) as i64,
                rx: (pos.x + radius) as i64,
                ry: (pos.y + radius) as i64,
            },
            Shape::RectangeCollider { size } => Aabb {
                lx: pos.x,
                ly: pos.y,
                rx: (pos.x + size.x) as i64,
                ry: (pos.y + size.y) as i64,
            },
        }
    }

    /// The axis-aligned bounding box of this collider at `pos`.
    pub fn get_bounding_box(&self, pos: &Vec2) -> (r: Aabb)
        requires
            self.wf(),
            pos.pos_wf(),
        ensures
            r == self.bb_spec(*pos),
            r.wf(),
    {
        match self.shape {
            Shape::CircleCollider { radius } => Aabb {
                lx: pos.x - radius,
                ly: pos.y - radius,
                rx: pos.x + radius,
                ry: pos.y + radius,
            },
            Shape::RectangeCollider { size } => Aabb {
                lx: pos.x,
                ly: pos.y,
                rx: pos.x + size.x,
                ry: pos.y + size.y,
            },
        }
    }
}

/// The minimal-translation vector separating `a` from `b`, defined when the
/// boxes overlap: it points along the axis of least penetration, in the
/// direction that moves `a` away from `b`, and its magnitude is the
/// penetration depth.
pub open spec fn mtv_spec(a: Aabb, b: Aabb) -> Vec2 {
    let ox = (if a.rx <= b.rx { a.rx } else { b.rx }) - (if a.lx >= b.lx { a.lx } else { b.lx });
    let oy = (if a.ry <= b.ry { a.ry } else { b.ry }) - (if a.ly >= b.ly { a.ly } else { b.ly });
    if ox <= oy {
        if a.lx + a.rx < b.lx + b.rx {
            Vec2 { x: (-ox) as i64, y: 0 }
        } else {
            Vec2 { x: ox as i64, y: 0 }
        }
    } else {
        if a.ly + a.ry < b.ly + b.ry {
            Vec2 { x: 0, y: (-oy) as i64 }
        } else {
            Vec2 { x: 0, y: oy as i64 }
        }
    }
}

/// Overlap test and separation vector for two boxes:
/// `None` when they do not overlap, otherwise the minimal-translation vector.
pub open spec fn overlap_spec(a: Aabb, b: Aabb) -> Option<Vec2> {
    if Aabb::overlaps_spec(a, b) {
        Some(mtv_spec(a, b))
    } else {
        None
    }
}

/// Exec computation of [`overlap_spec`].
pub fn aabb_overlap(a: &Aabb, b: &Aabb) -> (r: Option<Vec2>)
    requires
        a.wf(),
        b.wf(),
    ensures
        r == overlap_spec(*a, *b),
{
    if !(a.lx < b.rx && a.rx > b.lx && a.ly < b.ry && a.ry > b.ly) {
        return None;
    }
    let ox = (if a.rx <= b.rx { a.rx } else { b.rx }) - (if a.lx >= b.lx { a.lx } else { b.lx });
    let oy = (if a.ry <= b.ry { a.ry } else { b.ry }) - (if a.ly >= b.ly { a.ly } else { b.ly });
    if ox <= oy {
        if a.lx + a.rx < b.lx + b.rx {
            Some(Vec2 { x: -ox, y: 0 })
        } else {
            Some(Vec2 { x: ox, y: 0 })
        }
    } else {
        if a.ly + a.ry < b.ly + b.ry {
            Some(Vec2 { x: 0, y: -oy })
        } else {
            Some(Vec2 { x: 0, y: oy })
        }
    }
}

impl Collider {
    /// Narrow-phase test between this collider at `pos` and `other` at
    /// `other_pos`: the separation vector to apply to `self`, if any.
    pub fn get_collision(&self, pos: &Vec2, other_pos: &Vec2, other: &Collider) -> (r: Option<
        Vec2,
    >)
        requires
            self.wf(),
            other.wf(),
            pos.pos_wf(),
            other_pos.pos_wf(),
        ensures
            r == overlap_spec(self.bb_spec(*pos), other.bb_spec(*other_pos)),
    {
        let a = self.get_bounding_box(pos);
        let b = other.get_bounding_box(other_pos);
        aabb_overlap(&a, &b)
    }
}

/// How far a box has exited the arena on each side: the vector that moves it
/// back inside, or `None` when it is fully inside.
pub open spec fn bound_overlap_spec(b: Aabb, arena: Aabb) -> Option<Vec2> {
    let dx = if b.lx < arena.lx {
        arena.lx - b.lx
    } else if b.rx > arena.rx {
        arena.rx - b.rx
    } else {
        0
    };
    let dy = if b.ly < arena.ly {
        arena.ly - b.ly
    } else if b.ry > arena.ry {
        arena.ry - b.ry
    } else {
        0
    };
    if dx == 0 && dy == 0 {
        None
    } else {
        Some(Vec2 { x: dx as i64, y: dy as i64 })
    }
}

impl Collider {
    /// Overlap of this collider against the complement of the arena
    /// rectangle: how far it has exited the bounds, used for wall collisions.
    pub fn get_collision_bounds(&self, pos: &Vec2, arena: &Aabb) -> (r: Option<Vec2>)
        requires
            self.wf(),
            pos.pos_wf(),
            arena.wf(),
        ensures
            r == bound_overlap_spec(self.bb_spec(*pos), *arena),
    {
        let b = self.get_bounding_box(pos);
        let dx: i64 = if b.lx < arena.lx {
            arena.lx - b.lx
        } else if b.rx > arena.rx {
            arena.rx - b.rx
        } else {
            0
        };
        let dy: i64 = if b.ly < arena.ly {
            arena.ly - b.ly
        } else if b.ry > arena.ry {
            arena.ry - b.ry
        } else {
            0
        };
        if dx == 0 && dy == 0 {
            None
        } else {
            Some(Vec2 { x: dx, y: dy })
        }
    }
}

/// A separation vector between two well-formed boxes is bounded.
pub proof fn lemma_mtv_bounds(a: Aabb, b: Aabb)
    requires
        a.wf(),
        b.wf(),
    ensures
        match overlap_spec(a, b) {
            Some(v) => -4 * crate::geometry::COORD_LIMIT <= v.x <= 4 * crate::geometry::COORD_LIMIT
                && -4 * crate::geometry::COORD_LIMIT <= v.y <= 4 * crate::geometry::COORD_LIMIT,
            None => true,
        },
{
}

/// A well-formed collider at a bounded position has a well-formed box.
pub proof fn lemma_bb_wf(c: Collider, p: Vec2)
    requires
        c.wf(),
        p.pos_wf(),
    ensures
        c.bb_spec(p).wf(),
{
}

/// The separation vector is symmetric up to sign: swapping the two boxes
/// flips it, whenever the boxes' centers differ on both axes.
pub proof fn lemma_overlap_antisymmetric(a: Aabb, b: Aabb)
    requires
        a.wf(),
        b.wf(),
        a.lx + a.rx != b.lx + b.rx,
        a.ly + a.ry != b.ly + b.ry,
    ensures
        match (overlap_spec(a, b), overlap_spec(b, a)) {
            (Some(v), Some(w)) => v.x == -w.x && v.y == -w.y,
            (None, None) => true,
            _ => false,
        },
{
}

} // verus!
