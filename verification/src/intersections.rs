//! The overlap predicate that generic quadtree queries are parameterised by.

use vstd::prelude::*;

verus! {

/// A shape that can be tested for overlap against values of type `T`.
///
/// Generic quadtree queries accept any shape that implements
/// `Intersects<AABB>`: a ray, a circle, a polygon.
pub trait Intersects<T = Self> {
    /// The mathematical overlap relation that `intersects_with` decides.
    /// An implementation that does not say what the relation is has one
    /// all the same: its test must give the same answer whenever it is
    /// asked the same question.
    open spec fn intersects_spec(&self, other: &T) -> bool {
        arbitrary()
    }

    /// Tests whether this shape intersects `other`.
    fn intersects_with(&self, other: &T) -> (hit: bool)
        ensures
            hit == self.intersects_spec(other),
    ;
}

} // verus!
