use crate::quadtree::aabb::AABB;
use crate::quadtree::free_list;
use std::hash::Hash;
use vstd::prelude::*;

verus! {

/// Alias for all traits required for an element ID.
pub trait ElementIdType: Default + Eq + Hash + Copy {

}

/// Every copyable, hashable value type with an equality is an element ID type.
impl<T> ElementIdType for T where T: Default + Eq + Hash + Copy {

}

/// Represents an element in the QuadTree.
#[derive(Debug, Default, Copy, Clone, PartialEq, Eq)]
pub struct QuadTreeElement<ElementId = u32> where ElementId: ElementIdType {
    /// The axis-aligned bounding box of the element.
    pub rect: AABB,
    /// Stores the ID for the element (can be used to refer to external data).
    pub id: ElementId,
}

impl<ElementId> QuadTreeElement<ElementId> where ElementId: ElementIdType {
    /// Constructs the element with the given ID and bounding box.
    pub fn new(id: ElementId, rect: AABB) -> (e: Self)
        ensures
            e == (QuadTreeElement { rect, id }),
    {
        Self { id, rect }
    }
}

/// Represents an element node in the quadtree.
///
/// An element is stored once, no matter where it lies. The leaf that holds
/// it refers to it through an element node, and the element nodes of a leaf
/// form a singly linked list.
#[derive(Debug, Default, Copy, Clone, PartialEq, Eq, Structural)]
pub struct QuadTreeElementNode {
    /// Points to the next element in the leaf node. A value of `free_list::SENTINEL`
    /// indicates the end of the list.
    pub next: free_list::IndexType,
    /// Stores the element index.
    pub element_idx: free_list::IndexType,
}

} // verus!
