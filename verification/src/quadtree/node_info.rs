use crate::quadtree::aabb::AABB;
use crate::quadtree::node::NodeElementCountType;
use crate::quadtree::node_data::NodeData;
use vstd::prelude::*;

verus! {

/// What a leaf visitor learns about one leaf.
#[derive(Debug, Copy, Clone)]
pub struct NodeInfo {
    /// The node data.
    pub nd: NodeData,
    /// Gets the number of elements in this node.
    pub element_count: u32,
}

impl NodeInfo {
    /// Pairs the frame of a leaf with its element count.
    pub fn from(nd: NodeData, element_count: NodeElementCountType) -> (info: Self)
        ensures
            info.nd == nd,
            info.element_count == element_count,
    {
        Self { nd, element_count }
    }

    /// Gets the depth of this node.
    pub fn depth(&self) -> (d: u32)
        ensures
            d == self.nd.depth,
    {
        self.nd.depth as u32
    }

    /// Gets the cell of this node in edge form.
    pub fn get_aabb(&self) -> (b: AABB)
        requires
            self.nd.crect.is_valid(),
        ensures
            b == self.nd.crect.aabb_spec(),
    {
        self.nd.crect.get_aabb()
    }
}

} // verus!
