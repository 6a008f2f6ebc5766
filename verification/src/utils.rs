//! Small shared components: the position wrapper, the frozen marker, and
//! the per-entity record of broad-phase collision candidates.

use vstd::prelude::*;
use crate::geometry::Vec2;

verus! {

/// An entity's position in the arena.
#[derive(Clone, Copy, Debug, PartialEq, Eq, Structural)]
pub struct Position(pub Vec2);

/// Marker: a frozen entity is excluded from integration and response.
#[derive(Clone, Copy, Debug, PartialEq, Eq, Structural)]
pub struct Frozen;

/// The ids the broad phase reported for an entity this frame.
#[derive(Debug)]
pub struct Collisions(pub Vec<u32>);

/// Copy a list of ids element by element.
pub fn copy_ids(v: &Vec<u32>) -> (r: Vec<u32>)
    ensures
        r@ == v@,
{
    let mut r: Vec<u32> = Vec::new();
    let mut i: usize = 0;
    while i < v.len()
        invariant
            0 <= i <= v@.len(),
            r@ == v@.subrange(0, i as int),
        decreases v@.len() - i,
    {
        r.push(v[i]);
        i = i + 1;
    }
    proof {
        assert(r@ =~= v@);
    }
    r
}

} // verus!
