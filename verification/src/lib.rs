//! A verified 2D collision engine: axis-aligned box colliders, a depth-bounded
//! quadtree spatial index addressed by Morton (Z-order) codes, a tag-based
//! collide/trigger policy with minimum-translation resolution, and a simple
//! rigidbody integrator.
//!
//! All geometry is carried in fixed-point units: an `i64` holds a coordinate
//! scaled by [`components::FX_ONE`], so `256` is one world unit. Fractional
//! coefficients (drag, friction, bounciness) use the same scale, `FX_ONE`
//! meaning `1.0`.

pub mod bundle;
pub mod collision;
pub mod components;
pub mod morton;
pub mod num;
pub mod quadtree;

