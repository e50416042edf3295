//! Collision shapes of physics bodies.
use vstd::prelude::*;

verus! {

/// A sphere-shaped collider.
#[derive(Debug, PartialEq, Eq, Structural)]
pub struct SphereCollider;

/// The collision shape of a body.
#[derive(Debug, PartialEq, Eq, Structural)]
pub enum Collider {
    /// The body collides with nothing.
    Empty,
    /// The body collides as a sphere.
    Sphere(SphereCollider),
}

impl SphereCollider {
    /// A spherical collision shape.
    pub fn new() -> (collider: Collider)
        ensures
            collider == Collider::Sphere(SphereCollider),
    {
        Collider::Sphere(SphereCollider)
    }
}

} // verus!
