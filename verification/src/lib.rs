//! iron_oxide: a 2D collision engine built around a bounding volume hierarchy.
//!
//! The crate simulates moving circular and rectangular bodies in a bounded
//! arena. A BVH broad phase shortlists candidate pairs, exact AABB overlap
//! math supplies penetration vectors, and integer impulse physics resolves
//! them. Every public operation carries a contract checked by Verus.

pub mod bvh;
pub mod collider;
pub mod geometry;
pub mod physics;
pub mod sim;
pub mod utils;

pub use geometry::Aabb;
pub use geometry::Vec2;
pub use sim::create_bvh;
