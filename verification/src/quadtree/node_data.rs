use crate::quadtree::aabb::AABB;
use crate::quadtree::centered_aabb::CenteredAABB;
use crate::quadtree::quad_rect::QuadRect;
use vstd::prelude::*;

verus! {

/// The type of an index into the node vector.
pub type NodeIndexType = u32;

/// One frame of a traversal: a node together with what the traversal has
/// computed about it on the way down.
#[derive(Debug, Copy, Clone)]
pub struct NodeData {
    /// The centered AABB of the the node: center x, center y, width and height.
    pub crect: CenteredAABB,
    /// The index of the `Node` described by this `NodeData` instance.
    pub index: NodeIndexType,
    /// The depth of the node.
    pub depth: u8,
    /// Whether the node may be subdivided at all.
    pub flags: NodeFlags,
}

/// The flag bit that allows a node to be split.
pub const CAN_SPLIT_FLAG: u8 = 1;

/// The flags of a traversal frame.
#[derive(Debug, Copy, Clone, PartialEq, Eq, Structural)]
pub struct NodeFlags {
    pub flags: u8,
}

impl NodeFlags {
    /// Whether the flags allow the node to be split.
    pub open spec fn can_split_spec(&self) -> bool {
        self.flags & CAN_SPLIT_FLAG > 0
    }

    /// Constructs flags that allow a split iff `can_split` is set.
    pub fn new(can_split: bool) -> (f: NodeFlags)
        ensures
            f.can_split_spec() == can_split,
            f.flags == (if can_split { CAN_SPLIT_FLAG } else { 0 }),
    {
        let mut flags = 0u8;
        if can_split {
            flags = flags | CAN_SPLIT_FLAG;
        }
        assert(0u8 | 1u8 == 1u8 && 1u8 & 1u8 > 0 && !(0u8 & 1u8 > 0)) by (bit_vector);
        Self { flags }
    }

    /// Whether the flags allow the node to be split.
    pub fn can_split(&self) -> (b: bool)
        ensures
            b == self.can_split_spec(),
    {
        (self.flags & CAN_SPLIT_FLAG) > 0
    }
}

impl NodeData {
    /// The frame for the node `index` at depth `depth` with cell `crect`.
    pub open spec fn of(index: u32, depth: u8, crect: CenteredAABB, can_split: bool) -> NodeData {
        NodeData { crect, index, depth, flags: NodeFlags { flags: if can_split { 1 } else { 0 } } }
    }

    /// The frame allows a split iff it was made to.
    pub proof fn lemma_of_can_split(index: u32, depth: u8, crect: CenteredAABB, can_split: bool)
        ensures
            Self::of(index, depth, crect, can_split).flags.can_split_spec() == can_split,
    {
        assert(1u8 & 1u8 > 0 && !(0u8 & 1u8 > 0)) by (bit_vector);
    }

    /// Constructs the frame of a node from the left and top edges and the
    /// extents of its cell.
    pub fn new(l: i32, t: i32, hx: i32, hy: i32, index: u32, depth: u8, can_split: bool) -> (nd:
        Self)
        requires
            QuadRect::fits(l, t, hx, hy),
        ensures
            nd == Self::of(index, depth, CenteredAABB::from_ltwh_spec(l, t, hx, hy), can_split),
            nd.flags.can_split_spec() == can_split,
            nd.crect.is_valid(),
    {
        Self::new_from_centered_aabb(index, depth, CenteredAABB::from_ltwh(l, t, hx, hy), can_split)
    }

    /// Constructs the frame of the root node of a tree with the given extents.
    pub fn new_from_root(root_rect: &QuadRect, can_split: bool) -> (nd: Self)
        ensures
            nd == Self::of(0, 0, root_rect.centered_spec(), can_split),
            nd.flags.can_split_spec() == can_split,
            nd.crect.is_valid(),
    {
        Self::new_from_centered_aabb(0, 0, root_rect.to_centered(), can_split)
    }

    /// Constructs the frame of a node from its cell.
    pub fn new_from_centered_aabb(index: u32, depth: u8, crect: CenteredAABB, can_split: bool) -> (nd:
        Self)
        ensures
            nd == Self::of(index, depth, crect, can_split),
            nd.flags.can_split_spec() == can_split,
    {
        Self { index, crect, depth, flags: NodeFlags::new(can_split) }
    }

    /// Whether a leaf with this frame may be split: its frame allows it, it
    /// lies above the maximum depth, and at least one half extent of its
    /// cell is not below `smallest_size`.
    pub open spec fn can_split_further_spec(&self, smallest_size: u32, max_depth: u8) -> bool {
        &&& self.flags.can_split_spec()
        &&& self.can_subdivide_spec(smallest_size)
        &&& self.depth < max_depth
    }

    /// Determines if a node is at least `smallest_size` in half-width or
    /// half-height, and ensures that the node has not reached its maximum
    /// depth and is no straddler bucket.
    pub fn can_split_further(&self, smallest_size: u32, max_depth: u8) -> (b: bool)
        ensures
            b == self.can_split_further_spec(smallest_size, max_depth),
    {
        let splittable = self.flags.can_split();
        let split_allowed = self.can_subdivide(smallest_size);
        let can_go_deeper = self.depth < max_depth;
        split_allowed && can_go_deeper && splittable
    }

    /// At least one half extent of the cell is not below `smallest_size`.
    pub open spec fn can_subdivide_spec(&self, smallest_size: u32) -> bool {
        self.crect.half_width >= smallest_size || self.crect.half_height >= smallest_size
    }

    /// Determines if a node is at least `smallest_size` in half-width or
    /// half-height.
    pub fn can_subdivide(&self, smallest_size: u32) -> (b: bool)
        ensures
            b == self.can_subdivide_spec(smallest_size),
    {
        let can_split_width = self.crect.half_width as i64 >= smallest_size as i64;
        let can_split_height = self.crect.half_height as i64 >= smallest_size as i64;
        can_split_width || can_split_height
    }

    /// The cell of the node in edge form.
    pub fn to_aabb(&self) -> (b: AABB)
        requires
            self.crect.is_valid(),
        ensures
            b == self.crect.aabb_spec(),
    {
        self.crect.get_aabb()
    }
}

} // verus!
