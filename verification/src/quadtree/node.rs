use crate::quadtree::free_list;
use vstd::prelude::*;

verus! {

/// The type that counts the elements of a leaf.
pub type NodeElementCountType = u32;

/// The element count that marks a node as a branch.
pub const NODE_IS_BRANCH: u32 = 0xFFFF_FFFF;

/// Represents a node in the quadtree.
///
/// A node is a leaf or a branch, told apart by its element count alone: the
/// reserved count `NODE_IS_BRANCH` marks a branch, any other count a leaf
/// with that many elements.
#[derive(Debug, Copy, Clone, PartialEq, Eq, Structural)]
pub struct Node {
    /// Contains
    /// - the index of the first of five child nodes if this node is a branch, or
    /// - the handle of the first element node if this node is a leaf, or
    /// - `free_list::SENTINEL` if this node is a leaf without elements.
    ///
    /// While a group of five nodes is in the free pool, this field of the
    /// group's first node points to the next free group.
    pub first_child_or_element: free_list::IndexType,
    /// Stores the number of elements in the leaf, or `NODE_IS_BRANCH` if
    /// this node is a branch.
    pub element_count: NodeElementCountType,
}

impl Default for Node {
    /// A leaf without elements.
    fn default() -> (node: Self)
        ensures
            node == Node::empty_leaf(),
    {
        Self { first_child_or_element: free_list::SENTINEL, element_count: 0 }
    }
}

impl Node {
    /// The leaf without elements.
    pub open spec fn empty_leaf() -> Node {
        Node { first_child_or_element: free_list::SENTINEL, element_count: 0 }
    }

    /// The branch whose five children start at index `first_child`.
    pub open spec fn branch(first_child: free_list::IndexType) -> Node {
        Node { first_child_or_element: first_child, element_count: NODE_IS_BRANCH }
    }

    /// Whether the node is a branch.
    pub open spec fn is_branch_spec(&self) -> bool {
        self.element_count == NODE_IS_BRANCH
    }

    /// Whether the node is a leaf.
    pub open spec fn is_leaf_spec(&self) -> bool {
        self.element_count != NODE_IS_BRANCH
    }

    /// Returns whether the node is a leaf that stores no elements.
    pub fn is_empty(&self) -> (b: bool)
        ensures
            b == (self.element_count == 0),
            b ==> self.is_leaf_spec(),
    {
        self.element_count == 0
    }

    /// Determines whether this node is a branch.
    ///
    /// A branch holds no elements itself; its `first_child_or_element` is
    /// the index of its first child node.
    pub fn is_branch(&self) -> (b: bool)
        ensures
            b == self.is_branch_spec(),
    {
        self.element_count == NODE_IS_BRANCH
    }

    /// Determines whether this node is a leaf (i.e., not a branch).
    ///
    /// A leaf may hold elements; its `first_child_or_element` is the handle
    /// of its first element node.
    pub fn is_leaf(&self) -> (b: bool)
        ensures
            b == self.is_leaf_spec(),
    {
        !self.is_branch()
    }

    /// Gets the index of the first child node of a branch.
    pub fn get_first_child_node_index(&self) -> (index: free_list::IndexType)
        requires
            self.is_branch_spec(),
        ensures
            index == self.first_child_or_element,
    {
        self.first_child_or_element
    }

    /// Gets the handle of the first element node of a leaf.
    pub fn get_first_element_node_index(&self) -> (index: free_list::IndexType)
        requires
            self.is_leaf_spec(),
        ensures
            index == self.first_child_or_element,
    {
        self.first_child_or_element
    }

    /// Make this node an empty leaf.
    pub fn make_empty_leaf(&mut self)
        ensures
            *final(self) == Node::empty_leaf(),
    {
        self.first_child_or_element = free_list::SENTINEL;
        self.element_count = 0;
    }

    /// Make this node a branch.
    pub fn make_branch(&mut self, first_child: free_list::IndexType)
        ensures
            *final(self) == Node::branch(first_child),
    {
        self.first_child_or_element = first_child;
        self.element_count = NODE_IS_BRANCH;
    }
}

} // verus!
