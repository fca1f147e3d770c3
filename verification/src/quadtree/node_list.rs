use crate::quadtree::node_data::{NodeData, NodeIndexType};
use smallvec::SmallVec;
use vstd::prelude::*;

verus! {

/// The number of items below which a push onto a work stack is known not
/// to overflow the capacity of its buffer: the buffer doubles when it is
/// full, and with fewer items than this, each of at most 24 bytes, its size
/// in bytes stays below half of the address space.
pub open spec fn stack_limit() -> int {
    usize::MAX as int / 128
}

/// A stack of traversal frames that lives on the call stack while it is small.
#[verifier::external_body]
pub struct NodeList {
    elements: SmallVec<[NodeData; 64]>,
}

/// The frames that a `NodeList` holds, the oldest first.
pub uninterp spec fn node_list_frames(list: NodeList) -> Seq<NodeData>;

impl View for NodeList {
    type V = Seq<NodeData>;

    /// The frames that the list holds, the oldest first.
    open spec fn view(&self) -> Seq<NodeData> {
        node_list_frames(*self)
    }
}

impl Default for NodeList {
    /// Calls `SmallVec::new`, which constructs an empty vector: the new list
    /// holds no frames.
    #[verifier::external_body]
    fn default() -> (list: Self)
        ensures
            node_list_frames(list) == Seq::<NodeData>::empty(),
    {
        Self { elements: SmallVec::new() }
    }
}

impl NodeList {
    /// Calls `SmallVec::push`, which appends an item to the vector: the
    /// frame becomes the last one, behind the frames that were there. The
    /// bound keeps the buffer so small that the computation of its new
    /// size cannot overflow, which is where `push` panics. Where memory
    /// runs out, the process aborts, as it does for a `Vec`.
    #[verifier::external_body]
    pub(crate) fn push_back(&mut self, nd: NodeData)
        requires
            node_list_frames(*old(self)).len() < stack_limit(),
        ensures
            node_list_frames(*final(self)) == node_list_frames(*old(self)).push(nd),
    {
        self.elements.push(nd)
    }

    /// Calls `SmallVec::len`, the number of items stored in the vector.
    #[verifier::external_body]
    pub(crate) fn len(&self) -> (n: usize)
        ensures
            n == node_list_frames(*self).len(),
    {
        self.elements.len()
    }

    /// Calls `SmallVec::is_empty`, which is true iff the vector stores no item.
    #[verifier::external_body]
    pub(crate) fn is_empty(&self) -> (b: bool)
        ensures
            b == (node_list_frames(*self).len() == 0),
    {
        self.elements.is_empty()
    }

    /// Calls `SmallVec::pop`, which removes the last item of a vector that
    /// is not empty and returns it: the last frame leaves, the others stay
    /// as they are.
    #[verifier::external_body]
    pub(crate) fn pop_back(&mut self) -> (nd: NodeData)
        requires
            node_list_frames(*old(self)).len() > 0,
        ensures
            nd == node_list_frames(*old(self)).last(),
            node_list_frames(*final(self)) == node_list_frames(*old(self)).drop_last(),
    {
        self.elements.pop().unwrap()
    }
}

/// A stack of node indices that lives on the call stack while it is small.
#[verifier::external_body]
pub struct NodeIndexStack {
    elements: SmallVec<[NodeIndexType; 128]>,
}

/// The node indices that a `NodeIndexStack` holds, the oldest first.
pub uninterp spec fn node_index_stack_items(stack: NodeIndexStack) -> Seq<NodeIndexType>;

impl View for NodeIndexStack {
    type V = Seq<NodeIndexType>;

    /// The node indices that the stack holds, the oldest first.
    open spec fn view(&self) -> Seq<NodeIndexType> {
        node_index_stack_items(*self)
    }
}

impl NodeIndexStack {
    /// Calls `SmallVec::new`, which constructs an empty vector: the new
    /// stack holds no index.
    #[verifier::external_body]
    pub(crate) fn new() -> (stack: Self)
        ensures
            node_index_stack_items(stack) == Seq::<NodeIndexType>::empty(),
    {
        Self { elements: SmallVec::new() }
    }

    /// Calls `SmallVec::push`, which appends an item to the vector: the
    /// index becomes the last one, behind those that were there. The bound
    /// keeps the buffer so small that the computation of its new size
    /// cannot overflow, which is where `push` panics. Where memory runs
    /// out, the process aborts, as it does for a `Vec`.
    #[verifier::external_body]
    pub(crate) fn push(&mut self, index: NodeIndexType)
        requires
            node_index_stack_items(*old(self)).len() < stack_limit(),
        ensures
            node_index_stack_items(*final(self)) == node_index_stack_items(*old(self)).push(index),
    {
        self.elements.push(index)
    }

    /// Calls `SmallVec::is_empty`, which is true iff the vector stores no item.
    #[verifier::external_body]
    pub(crate) fn is_empty(&self) -> (b: bool)
        ensures
            b == (node_index_stack_items(*self).len() == 0),
    {
        self.elements.is_empty()
    }

    /// Calls `SmallVec::pop`, which removes the last item of a vector and
    /// returns it, or returns `None` if the vector is empty and leaves it so.
    #[verifier::external_body]
    pub(crate) fn pop(&mut self) -> (index: Option<NodeIndexType>)
        ensures
            node_index_stack_items(*old(self)).len() == 0 ==> index.is_none() && node_index_stack_items(
                *final(self),
            ) == node_index_stack_items(*old(self)),
            node_index_stack_items(*old(self)).len() > 0 ==> index == Some(
                node_index_stack_items(*old(self)).last(),
            ) && node_index_stack_items(*final(self)) == node_index_stack_items(
                *old(self),
            ).drop_last(),
    {
        self.elements.pop()
    }
}

} // verus!
