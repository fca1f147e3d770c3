//! The quadtree itself: its representation, what it means for the
//! representation to be consistent, and its operations.
//!
//! This file holds the definitions and the operations. The proofs that the
//! operations rest on, and the steps that they are made of, are in the
//! files beside it: `shape` and `lists` (the invariant), `frames` and
//! `descent` (finding leaves), `split` (placing and splitting), `removal`,
//! `compaction`, `query`, and `laws` (what holds of every tree).

use crate::intersections::Intersects;
use crate::quadtree::aabb::AABB;
use crate::quadtree::centered_aabb::CenteredAABB;
use crate::quadtree::error::InsertError;
use crate::quadtree::free_list::{self, FreeList, IndexType};
use crate::quadtree::node::Node;
use crate::quadtree::node_data::NodeData;
use crate::quadtree::node_info::NodeInfo;
use crate::quadtree::node_list::{stack_limit, NodeIndexStack, NodeList};
use crate::quadtree::quadrants::Quadrants;
use crate::quadtree::quad_rect::QuadRect;
use crate::quadtree::quadtree_element::{ElementIdType, QuadTreeElement, QuadTreeElementNode};
use std::collections::HashSet;
use vstd::laws_eq::obeys_concrete_eq;
use vstd::prelude::*;
use vstd::std_specs::hash::obeys_key_model;

mod compaction;
mod descent;
pub mod frames;
mod laws;
mod lists;
mod query;
mod removal;
mod shape;
mod split;

pub use frames::{
    aabb_selector,
    all_selector,
    child_cells,
    child_frame,
    child_frames,
    lemma_aabb_selector,
    lemma_pushed_slots,
    lemma_query_slots,
    lemma_shape_selector,
    mutate_slot,
    pushed_slots,
    query_slots,
    selects,
    shape_selector,
    slot_frame,
    slot_frames,
    weight,
};

verus! {

/// How a descent through the tree chooses the children that it visits.
#[derive(Debug, Copy, Clone, PartialEq, Eq, Structural)]
pub enum FindLeafHint {
    /// A tree query, e.g. an intersection test.
    /// These queries need to visit all leaves.
    Query,
    /// A tree mutation, i.e. insert or remove.
    /// These queries skip exploration of child nodes whenever possible.
    Mutate,
}

/// The largest number of nodes that a tree can have: node indices stay
/// below the sentinel, and a work stack with a frame for every node stays
/// below the limit of the work stacks.
pub open spec fn node_limit() -> int {
    if stack_limit() <= free_list::SENTINEL {
        stack_limit() - 1
    } else {
        free_list::SENTINEL as int
    }
}

/// No node lies deeper than this many levels below the root: the quadrants
/// stop at the maximum depth, and a straddler bucket adds one level.
pub open spec fn level_limit() -> int {
    257
}

/// What the tree knows about one node of the node vector beyond what the
/// node itself stores.
pub ghost struct NodeMeta {
    /// Whether the node is reachable from the root. The other nodes are in
    /// the free pool.
    pub in_tree: bool,
    /// The indices of the nodes on the way from the root to this node, both
    /// included.
    pub chain: Seq<int>,
    /// The offset of this node among the five children of its parent.
    pub slot: int,
    /// The cell that the node covers.
    pub cell: CenteredAABB,
    /// The depth of the node; a straddler bucket has the depth of its parent.
    pub depth: u8,
    /// Whether the node may be split: the straddler buckets may not.
    pub can_split: bool,
    /// The handles of the element nodes of a leaf, the oldest first.
    pub list: Seq<IndexType>,
}

/// A QuadTree implementation as described in [Efficient Quadtrees](https://stackoverflow.com/a/48330314/195651).
///
/// The tree uses integral coordinates only. A branch has five children: its
/// four quadrants and a straddler bucket for the elements that cross one of
/// its center lines. Every element is referenced from exactly one leaf.
pub struct QuadTree<ElementId = u32> where ElementId: ElementIdType {
    /// Stores all the IDs of the elements in the quadtree.
    pub(crate) element_ids: FreeList<ElementId>,
    /// Stores all the rectangles of the elements in the quadtree, under the
    /// handles of their IDs.
    pub(crate) element_rects: FreeList<AABB>,
    /// Stores all the element nodes in the quadtree: for the leaf that holds
    /// an element, one `QuadTreeElementNode`.
    pub(crate) element_nodes: FreeList<QuadTreeElementNode>,
    /// Stores all the nodes in the quadtree. The first node in this
    /// sequence is always the root.
    pub(crate) nodes: Vec<Node>,
    /// Stores the quadtree extents.
    pub(crate) root_rect: QuadRect,
    /// Stores the first free node in the quadtree to be reclaimed as 5
    /// contiguous nodes at once. A value of `free_list::SENTINEL` indicates that the free
    /// list is empty, at which point we simply insert 5 nodes to the
    /// back of the nodes array.
    pub(crate) free_node: free_list::IndexType,
    /// Stores the maximum number of elements allowed before a node splits.
    pub(crate) max_num_elements: u32,
    /// We use this value to determine whether a node can be split.
    pub(crate) smallest_cell_size: u32,
    /// Stores the maximum depth allowed for the quadtree.
    pub(crate) max_depth: u8,
    /// What is known about each node.
    pub(crate) meta: Ghost<Seq<NodeMeta>>,
    /// The first indices of the groups in the free pool, in the order in
    /// which they will be taken out again.
    pub(crate) free_groups: Ghost<Seq<IndexType>>,
    /// For the handle of each element node, the leaf whose list it is in and
    /// its position in that list.
    pub(crate) owner: Ghost<Map<int, (int, int)>>,
    /// For the handle of each element, the handle of its element node.
    pub(crate) node_of: Ghost<Map<int, int>>,
}

/// The last handle of the list, which is the head of the linked list, or
/// the sentinel for the empty list.
pub open spec fn head_of(list: Seq<IndexType>) -> IndexType {
    if list.len() > 0 {
        list.last()
    } else {
        free_list::SENTINEL
    }
}

impl<ElementId> QuadTree<ElementId> where ElementId: ElementIdType {
    // ------------------------------------------------------------------
    // The shape of the tree
    // ------------------------------------------------------------------
    /// The node `i` is reachable from the root.
    pub closed spec fn in_tree(&self, i: int) -> bool {
        0 <= i < self.meta@.len() && self.meta@[i].in_tree
    }

    /// The number of steps from the root to the node `i`.
    pub closed spec fn level(&self, i: int) -> int {
        self.meta@[i].chain.len() - 1
    }

    /// The node `i` is a branch.
    pub closed spec fn is_branch_at(&self, i: int) -> bool {
        self.nodes@[i].is_branch_spec()
    }

    /// The index of the child of the branch `i` at offset `k`.
    pub closed spec fn child(&self, i: int, k: int) -> int {
        self.nodes@[i].first_child_or_element + k
    }

    /// What is known about the child at offset `k` of a branch is what
    /// follows from what is known about the branch.
    pub closed spec fn child_meta(&self, i: int, k: int) -> NodeMeta {
        NodeMeta {
            in_tree: true,
            chain: self.meta@[i].chain.push(self.child(i, k)),
            slot: k,
            cell: self.meta@[i].cell.child_cell(k),
            depth: if k == 0 {
                self.meta@[i].depth
            } else {
                (self.meta@[i].depth + 1) as u8
            },
            can_split: k != 0,
            list: self.meta@[self.child(i, k)].list,
        }
    }

    /// The policy knobs are positive, and the extents fit the coordinates.
    pub closed spec fn wf_config(&self) -> bool {
        &&& self.max_num_elements > 0
        &&& self.smallest_cell_size > 0
        &&& self.root_rect.is_valid()
    }

    /// What holds of a node that is reachable from the root.
    pub closed spec fn node_ok(&self, i: int) -> bool {
        let m = self.meta@[i];
        &&& m.cell.is_valid()
        &&& 1 <= m.chain.len() <= level_limit()
        &&& m.chain.last() == i
        &&& m.chain[0] == 0
        &&& (i == 0 <==> m.chain.len() == 1)
        &&& m.depth <= self.max_depth
        &&& m.chain.len() == m.depth + (if m.can_split {
            1int
        } else {
            2int
        })
        &&& i != 0 ==> {
            let p = m.chain[m.chain.len() - 2];
            &&& self.in_tree(p)
            &&& self.is_branch_at(p)
            &&& self.meta@[p].chain == m.chain.drop_last()
            &&& 0 <= m.slot < 5
            &&& self.child(p, m.slot) == i
        }
        &&& self.is_branch_at(i) ==> {
            &&& 1 <= self.child(i, 0)
            &&& self.child(i, 0) % 5 == 1
            &&& self.child(i, 4) < self.nodes@.len()
            &&& m.can_split
            &&& m.depth < self.max_depth
            &&& forall|k: int| 0 <= k < 5 ==> #[trigger] self.meta@[self.child(i, k)] == self.child_meta(i, k)
        }
    }

    /// What holds of a node that is not reachable from the root: it counts
    /// no elements, and it is an empty leaf unless it is the first node of
    /// its group, which may link to the next group of the free pool.
    pub closed spec fn spare_ok(&self, i: int) -> bool {
        &&& self.nodes@[i].element_count == 0
        &&& i % 5 != 1 ==> self.nodes@[i] == Node::empty_leaf()
    }

    /// The nodes that are reachable from the root form a tree in which a
    /// branch has five children at contiguous indices.
    #[verifier::opaque]
    pub closed spec fn wf_shape(&self) -> bool {
        &&& 1 <= self.nodes@.len() <= node_limit()
        &&& (self.nodes@.len() - 1) % 5 == 0
        &&& self.meta@.len() == self.nodes@.len()
        &&& self.in_tree(0)
        &&& self.meta@[0].cell == self.root_rect.centered_spec()
        &&& self.meta@[0].depth == 0
        &&& self.meta@[0].can_split
        &&& forall|i: int| self.in_tree(i) ==> #[trigger] self.node_ok(i)
        &&& forall|i: int| 0 <= i < self.nodes@.len() && !self.in_tree(i) ==> #[trigger] self.spare_ok(i)
    }

    /// The node `i` is a leaf of the tree.
    pub closed spec fn is_leaf_at(&self, i: int) -> bool {
        self.in_tree(i) && !self.is_branch_at(i)
    }

    /// The number of elements in the leaf `i`.
    pub closed spec fn leaf_len(&self, i: int) -> nat {
        self.meta@[i].list.len()
    }

    /// The node `i` may be split once it is a full leaf: it is no straddler
    /// bucket, it lies above the maximum depth, and at least one half
    /// extent of its cell is not below the smallest cell size.
    pub closed spec fn splittable(&self, i: int) -> bool {
        self.frame_of(i).can_split_further_spec(self.smallest_cell_size, self.max_depth)
    }

    /// The frame of the node `i`, as a descent from the root computes it.
    pub closed spec fn frame_of(&self, i: int) -> NodeData {
        NodeData::of(i as u32, self.meta@[i].depth, self.meta@[i].cell, self.meta@[i].can_split)
    }

    /// The frame describes a node that is reachable from the root, with the
    /// cell, the depth and the permission to split that the tree knows of it.
    pub closed spec fn frame_ok(&self, nd: NodeData) -> bool {
        &&& self.in_tree(nd.index as int)
        &&& nd.crect == self.meta@[nd.index as int].cell
        &&& nd.depth == self.meta@[nd.index as int].depth
        &&& nd.flags.can_split_spec() == self.meta@[nd.index as int].can_split
    }

    /// The root of the tree is a leaf: the tree has one reachable node.
    pub closed spec fn root_is_leaf(&self) -> bool {
        !self.is_branch_at(0)
    }

    /// What the root node stores.
    pub closed spec fn root_node_spec(&self) -> Node {
        self.nodes@[0]
    }

    /// The indices of the nodes that are reachable from the root.
    pub closed spec fn tree_nodes(&self) -> Set<int> {
        Set::new(|i: int| self.in_tree(i))
    }

    /// The number of the nodes that are reachable from the root.
    pub open spec fn tree_size(&self) -> nat {
        self.tree_nodes().len()
    }

    // ------------------------------------------------------------------
    // The free pool
    // ------------------------------------------------------------------
    /// The group at position `g` of the free pool consists of five nodes
    /// that are not reachable from the root, the first of which links to
    /// the next group.
    pub closed spec fn group_ok(&self, g: int) -> bool {
        let groups = self.free_groups@;
        let first = groups[g];
        &&& 1 <= first
        &&& first % 5 == 1
        &&& first + 4 < self.nodes@.len()
        &&& forall|j: int| first <= j < first + 5 ==> !#[trigger] self.in_tree(j)
        &&& self.nodes@[first as int].first_child_or_element == (if g + 1 < groups.len() {
            groups[g + 1]
        } else {
            free_list::SENTINEL
        })
    }

    /// The node `j` belongs to a group of the free pool.
    pub closed spec fn in_free_pool(&self, j: int) -> bool {
        exists|g: int|
            0 <= g < self.free_groups@.len() && (#[trigger] self.free_groups@[g]) <= j < self.free_groups@[g] + 5
    }

    /// The free pool is a chain of groups of five nodes that are not
    /// reachable from the root, and every node that is not reachable from
    /// the root belongs to one of them. The group from `limbo` on was taken
    /// out of the free pool to become the children of a leaf that is about
    /// to be split.
    #[verifier::opaque]
    pub closed spec fn wf_free(&self, limbo: Option<int>) -> bool {
        let groups = self.free_groups@;
        &&& groups.no_duplicates()
        &&& self.free_node == (if groups.len() > 0 {
            groups[0]
        } else {
            free_list::SENTINEL
        })
        &&& forall|g: int| 0 <= g < groups.len() ==> #[trigger] self.group_ok(g)
        &&& forall|j: int|
            0 <= j < self.nodes@.len() && !self.in_tree(j) ==> #[trigger] self.in_free_pool(j) || (limbo is Some
                && limbo.unwrap() <= j < limbo.unwrap() + 5)
    }

    /// The head of the free pool as stored.
    pub closed spec fn first_free_node_group_spec(&self) -> free_list::IndexType {
        self.free_node
    }

    // ------------------------------------------------------------------
    // The lists of the leaves and the elements
    // ------------------------------------------------------------------
    /// The list of element nodes of the node `i` is a linked list through
    /// the free list of element nodes.
    pub closed spec fn list_ok(&self, i: int) -> bool {
        let list = self.meta@[i].list;
        forall|k: int|
            0 <= k < list.len() ==> {
                let h = #[trigger] list[k];
                &&& self.element_nodes.is_live(h as int)
                &&& self.owner@.dom().contains(h as int)
                &&& self.owner@[h as int] == (i, k)
                &&& self.element_nodes@[h as int].next == (if k > 0 {
                    list[k - 1]
                } else {
                    free_list::SENTINEL
                })
            }
    }

    /// A leaf holds the head and the length of its list of element nodes,
    /// which are no more than a leaf may hold unless the leaf cannot be
    /// split; and a branch has no element nodes, unless it is being split.
    pub closed spec fn holder_ok(&self, i: int, splitting: Option<int>) -> bool {
        if self.is_branch_at(i) {
            splitting != Some(i) ==> self.meta@[i].list.len() == 0
        } else {
            &&& self.nodes@[i].element_count == self.meta@[i].list.len()
            &&& self.nodes@[i].first_child_or_element == head_of(self.meta@[i].list)
            &&& self.meta@[i].list.len() <= self.max_num_elements || !self.splittable(i)
        }
    }

    /// The element node with the handle `h` is in the list of one node of
    /// the tree.
    pub closed spec fn owner_ok(&self, h: int) -> bool {
        let i = self.owner@[h].0;
        let k = self.owner@[h].1;
        &&& self.owner@.dom().contains(h)
        &&& self.in_tree(i)
        &&& 0 <= k < self.meta@[i].list.len()
        &&& self.meta@[i].list[k] == h
    }

    /// Every leaf holds the head and the length of its list of element
    /// nodes, and every element node is in the list of one node. While the
    /// node `splitting` is being split, it is a branch that still owns the
    /// element nodes that have not yet moved to its children.
    #[verifier::opaque]
    pub closed spec fn wf_lists(&self, splitting: Option<int>) -> bool {
        &&& forall|i: int| self.in_tree(i) ==> #[trigger] self.list_ok(i)
        &&& forall|i: int| self.in_tree(i) ==> #[trigger] self.holder_ok(i, splitting)
        &&& forall|h: int| self.element_nodes.is_live(h) ==> #[trigger] self.owner_ok(h)
    }

    /// The node `i` lies on the way that a mutation takes for the rectangle
    /// `rect`: from each branch to the child that the rectangle belongs to.
    pub closed spec fn on_path(&self, i: int, rect: AABB) -> bool {
        let chain = self.meta@[i].chain;
        forall|l: int|
            0 <= l < chain.len() - 1 ==> self.meta@[#[trigger] chain[l + 1]].slot == self.meta@[chain[l]].cell.slot_of(
                &rect,
            )
    }

    /// The leaf that holds the element with handle `e`.
    pub closed spec fn leaf_of(&self, e: int) -> int {
        self.owner@[self.node_of@[e]].0
    }

    /// The element that the element node at position `k` of the list of
    /// the node `leaf` refers to.
    pub closed spec fn element_at(&self, leaf: int, k: int) -> int {
        self.element_nodes@[self.meta@[leaf].list[k] as int].element_idx as int
    }

    /// The element with the handle `e` is the newest element of its leaf.
    pub closed spec fn is_newest_in_leaf(&self, e: int) -> bool {
        let leaf = self.leaf_of(e);
        &&& self.meta@[leaf].list.len() > 0
        &&& self.element_at(leaf, self.meta@[leaf].list.len() - 1) == e
    }

    /// The element node with the handle `h` refers to an element that
    /// refers back to it.
    pub closed spec fn reference_ok(&self, h: int, pending: Option<int>) -> bool {
        let e = self.element_nodes@[h].element_idx as int;
        &&& self.element_ids.is_live(e)
        &&& Some(e) != pending
        &&& self.node_of@.dom().contains(e)
        &&& self.node_of@[e] == h
    }

    /// The element with the handle `e` lies inside the extents of the tree
    /// and, unless it is pending, has an element node in the leaf that its
    /// rectangle belongs to.
    pub closed spec fn element_ok(&self, e: int, pending: Option<int>) -> bool {
        let h = self.node_of@[e];
        &&& self.root_rect.contains_spec(&self.element_rects@[e])
        &&& Some(e) != pending ==> {
            &&& self.node_of@.dom().contains(e)
            &&& self.element_nodes.is_live(h)
            &&& self.element_nodes@[h].element_idx == e
            &&& self.on_path(self.owner@[h].0, self.element_rects@[e])
        }
    }

    /// The three free lists hold the elements in parallel: an ID and a
    /// rectangle under each element handle, and one element node for each
    /// element, in the leaf that the rectangle belongs to. The element with
    /// handle `pending` is being inserted: it has no element node yet.
    #[verifier::opaque]
    pub closed spec fn wf_elements(&self, pending: Option<int>) -> bool {
        &&& self.element_ids.wf()
        &&& self.element_rects.wf()
        &&& self.element_nodes.wf()
        &&& self.element_ids@.dom() == self.element_rects@.dom()
        &&& self.element_ids.free_handles() == self.element_rects.free_handles()
        &&& self.element_ids.capacity_spec() == self.element_rects.capacity_spec()
        &&& self.element_nodes.capacity_spec() - self.element_nodes.free_handles().len() + (if pending is Some {
            1int
        } else {
            0int
        }) == self.element_ids.capacity_spec() - self.element_ids.free_handles().len()
        &&& self.element_nodes.capacity_spec() <= self.element_ids.capacity_spec()
        &&& self.element_ids.capacity_spec() < free_list::SENTINEL
        &&& pending is Some ==> self.element_ids.is_live(pending.unwrap())
        &&& forall|h: int| self.element_nodes.is_live(h) ==> #[trigger] self.reference_ok(h, pending)
        &&& forall|e: int| self.element_ids.is_live(e) ==> #[trigger] self.element_ok(e, pending)
    }

    // ------------------------------------------------------------------
    // Consistency
    // ------------------------------------------------------------------
    /// The representation is consistent, except for what is pending.
    pub closed spec fn wf_during(&self, pending: Option<int>, splitting: Option<int>) -> bool {
        &&& self.wf_config()
        &&& self.wf_shape()
        &&& self.wf_free(None)
        &&& self.wf_lists(splitting)
        &&& self.wf_elements(pending)
    }

    /// The representation is consistent, except for the element that is
    /// pending and for the group of five nodes from `first` on, which is
    /// neither reachable from the root nor in the free pool.
    pub closed spec fn wf_limbo(&self, pending: Option<int>, first: int) -> bool {
        &&& self.wf_config()
        &&& self.wf_shape()
        &&& self.wf_free(Some(first))
        &&& self.wf_lists(None)
        &&& self.wf_elements(pending)
    }

    /// The representation of the tree is consistent.
    ///
    /// The nodes that are reachable from the root form a tree; every other
    /// node lies in the free pool; every leaf holds the linked list of its
    /// element nodes and their number; and every element has one element
    /// node, in the leaf that a descent for its rectangle arrives at.
    pub closed spec fn wf(&self) -> bool {
        self.wf_during(None, None)
    }

    // ------------------------------------------------------------------
    // The model
    // ------------------------------------------------------------------
    /// The elements that the tree holds, each under its handle.
    pub closed spec fn elements(&self) -> Map<int, QuadTreeElement<ElementId>> {
        Map::new(
            |h: int| self.element_ids.is_live(h),
            |h: int| QuadTreeElement { rect: self.element_rects@[h], id: self.element_ids@[h] },
        )
    }

    /// The IDs of the elements that the tree holds.
    pub open spec fn ids(&self) -> Set<ElementId> {
        Set::new(|id: ElementId| exists|h: int| self.holds(h, id))
    }

    /// The tree holds an element with the ID `id` under the handle `h`.
    pub open spec fn holds(&self, h: int, id: ElementId) -> bool {
        self.elements().dom().contains(h) && self.elements()[h].id == id
    }

    /// The tree holds, under the handle `h`, an element with the ID `id`
    /// whose rectangle intersects `rect`.
    pub open spec fn hits(&self, h: int, id: ElementId, rect: AABB) -> bool {
        self.holds(h, id) && rect.intersects(&self.elements()[h].rect)
    }

    /// The IDs of the elements whose rectangle intersects `rect`.
    pub open spec fn ids_intersecting(&self, rect: AABB) -> Set<ElementId> {
        Set::new(|id: ElementId| exists|h: int| self.hits(h, id, rect))
    }

    /// The number of elements that the tree holds.
    pub closed spec fn len_spec(&self) -> int {
        self.element_ids.len_spec()
    }

    /// The number of references from leaves to elements.
    pub closed spec fn reference_count(&self) -> int {
        self.element_nodes.len_spec()
    }

    /// The number of cells in the free lists of the elements.
    pub closed spec fn element_capacity(&self) -> nat {
        self.element_ids.capacity_spec()
    }

    /// The number of nodes in the node vector, reachable or free.
    pub closed spec fn node_count(&self) -> nat {
        self.nodes@.len()
    }

    /// The extents of the tree.
    pub closed spec fn root_rect_spec(&self) -> QuadRect {
        self.root_rect
    }

    /// The maximum depth of the tree.
    pub closed spec fn max_depth_spec(&self) -> u8 {
        self.max_depth
    }

    /// The maximum number of elements of a leaf that can still be split.
    pub closed spec fn max_num_elements_spec(&self) -> u32 {
        self.max_num_elements
    }

    /// The half extent below which a cell is not split.
    pub closed spec fn smallest_cell_size_spec(&self) -> u32 {
        self.smallest_cell_size
    }

    /// There is room for one more insertion: for the element and its
    /// element node below the sentinel handle, and for the nodes of as many
    /// splits as the maximum depth allows.
    pub open spec fn has_room(&self) -> bool {
        &&& self.element_capacity() + 1 < free_list::SENTINEL
        &&& self.node_count() + 5 * self.max_depth_spec() <= node_limit()
    }

    /// The handle under which the next insertion stores its element.
    pub closed spec fn next_handle(&self) -> int {
        self.element_ids.next_handle()
    }

    // ------------------------------------------------------------------
    // Descent
    // ------------------------------------------------------------------
    /// The node `j` lies in the subtree below the node `i`, or is `i`.
    pub closed spec fn under(&self, j: int, i: int) -> bool {
        &&& self.in_tree(i)
        &&& self.in_tree(j)
        &&& self.level(i) <= self.level(j)
        &&& self.meta@[j].chain[self.level(i)] == i
    }

    /// A descent that starts at the node `from` and goes on from a branch
    /// with cell `c` to each child at an offset `k` with `sel(c, k)` arrives
    /// at the node `i`.
    pub closed spec fn reach(&self, i: int, from: int, sel: spec_fn(CenteredAABB, int) -> bool) -> bool {
        &&& self.under(i, from)
        &&& forall|l: int|
            self.level(from) <= l < self.level(i) ==> sel(
                self.meta@[self.meta@[i].chain[l]].cell,
                self.meta@[#[trigger] self.meta@[i].chain[l + 1]].slot,
            )
    }

    /// The frames are frames of nodes of the tree, none of which lies below
    /// another one.
    pub closed spec fn stack_ok(&self, stack: Seq<NodeData>) -> bool {
        &&& forall|k: int| 0 <= k < stack.len() ==> self.frame_ok(#[trigger] stack[k])
        &&& forall|a: int, b: int|
            0 <= a < stack.len() && 0 <= b < stack.len() && a != b ==> !self.under(
                (#[trigger] stack[b]).index as int,
                (#[trigger] stack[a]).index as int,
            )
    }

    /// The work that the frames on the stack stand for.
    pub closed spec fn stack_weight(&self, stack: Seq<NodeData>) -> nat
        decreases stack.len(),
    {
        if stack.len() == 0 {
            0
        } else {
            self.stack_weight(stack.drop_last()) + weight(self.level(stack.last().index as int))
        }
    }

    /// A frame of the node `i` is among the leaves.
    pub closed spec fn in_leaves(&self, leaves: Seq<NodeData>, i: int) -> bool {
        exists|o: int| 0 <= o < leaves.len() && (#[trigger] leaves[o]).index == i
    }

    /// The node `i` lies below a node with a frame on the stack.
    pub closed spec fn covered(&self, stack: Seq<NodeData>, i: int) -> bool {
        exists|a: int| 0 <= a < stack.len() && self.under(i, (#[trigger] stack[a]).index as int)
    }

    /// What a descent from the node `from` knows while frames are on its
    /// stack: it has arrived at the nodes on the stack and at the leaves it
    /// has found, each once; and every leaf that it arrives at is found
    /// already or lies below a node on the stack.
    pub closed spec fn descent_inv(
        &self,
        stack: Seq<NodeData>,
        leaves: Seq<NodeData>,
        from: int,
        sel: spec_fn(CenteredAABB, int) -> bool,
    ) -> bool {
        &&& self.stack_ok(stack)
        &&& forall|k: int|
            0 <= k < stack.len() ==> self.reach((#[trigger] stack[k]).index as int, from, sel)
        &&& self.leaves_found(leaves, from, sel)
        &&& forall|a: int, o: int|
            0 <= a < stack.len() && 0 <= o < leaves.len() ==> !self.under(
                (#[trigger] leaves[o]).index as int,
                (#[trigger] stack[a]).index as int,
            )
        &&& forall|i: int|
            self.in_tree(i) && !self.is_branch_at(i) && #[trigger] self.reach(i, from, sel)
                ==> self.in_leaves(leaves, i) || self.covered(stack, i)
    }

    /// The frames are frames of leaves at which the descent from `from`
    /// arrives, each leaf once.
    pub closed spec fn leaves_found(
        &self,
        leaves: Seq<NodeData>,
        from: int,
        sel: spec_fn(CenteredAABB, int) -> bool,
    ) -> bool {
        &&& forall|o: int|
            0 <= o < leaves.len() ==> {
                &&& self.frame_ok(#[trigger] leaves[o])
                &&& !self.is_branch_at(leaves[o].index as int)
                &&& self.reach(leaves[o].index as int, from, sel)
            }
        &&& forall|a: int, b: int|
            0 <= a < leaves.len() && 0 <= b < leaves.len() && a != b ==> (#[trigger] leaves[a]).index
                != (#[trigger] leaves[b]).index
    }

    /// The leaves are all the leaves at which the descent from `from`
    /// arrives.
    pub closed spec fn leaves_complete(
        &self,
        leaves: Seq<NodeData>,
        from: int,
        sel: spec_fn(CenteredAABB, int) -> bool,
    ) -> bool {
        forall|i: int|
            self.in_tree(i) && !self.is_branch_at(i) && #[trigger] self.reach(i, from, sel)
                ==> self.in_leaves(leaves, i)
    }

    /// The node `i` is the node of one of the frames from the position
    /// `from` on.
    pub closed spec fn in_frames_from(frames: Seq<NodeData>, from: int, i: int) -> bool {
        exists|o: int| from <= o < frames.len() && (#[trigger] frames[o]).index == i
    }

    /// The leaf that holds the elements whose rectangle is `rect`: the leaf
    /// that a descent for a mutation arrives at.
    pub closed spec fn target_leaf(&self, rect: AABB) -> int {
        choose|i: int| self.is_leaf_at(i) && self.reach(i, 0, aabb_selector(rect, FindLeafHint::Mutate))
    }

    /// The handles of the elements of the leaf that holds the elements
    /// whose rectangle is `rect`, the oldest first.
    pub closed spec fn target_elements(&self, rect: AABB) -> Seq<int> {
        Seq::new(
            self.meta@[self.target_leaf(rect)].list.len(),
            |k: int| self.element_at(self.target_leaf(rect), k),
        )
    }

    /// The leaf that holds the elements with the rectangle `rect` has room
    /// for one more element: it is not full, or it cannot be split.
    pub open spec fn room_at_target(&self, rect: AABB) -> bool {
        self.leaf_len(self.target_leaf(rect)) < self.max_num_elements_spec() || !self.splittable(
            self.target_leaf(rect),
        )
    }

    /// A descent for the shape arrives at the leaf of the element with the
    /// handle `h`: the way from the root to that leaf leads through
    /// quadrants whose box the shape intersects and through straddler
    /// buckets only.
    pub closed spec fn shape_reaches<T: Intersects<AABB>>(&self, shape: &T, h: int) -> bool {
        self.reach(self.leaf_of(h), 0, shape_selector(shape))
    }

    // ------------------------------------------------------------------
    // What a step of a mutation keeps
    // ------------------------------------------------------------------
    /// The two records say the same of where a node lies in the tree; they
    /// may differ in its list of element nodes.
    pub closed spec fn same_place(a: NodeMeta, b: NodeMeta) -> bool {
        &&& a.in_tree == b.in_tree
        &&& a.chain == b.chain
        &&& a.slot == b.slot
        &&& a.cell == b.cell
        &&& a.depth == b.depth
        &&& a.can_split == b.can_split
    }

    /// The nodes that are reachable from the root in `before` lie in this
    /// tree where they lie in `before`.
    pub closed spec fn keeps_places(&self, before: &Self) -> bool {
        &&& before.meta@.len() <= self.meta@.len()
        &&& forall|j: int| before.in_tree(j) ==> Self::same_place(#[trigger] self.meta@[j], before.meta@[j])
    }

    /// The two trees have the same nodes in the same places, and the same
    /// of them are branches; they may hold different elements.
    pub closed spec fn same_tree_as(&self, other: &Self) -> bool {
        &&& self.nodes@.len() == other.nodes@.len()
        &&& self.meta@.len() == other.meta@.len()
        &&& self.max_num_elements == other.max_num_elements
        &&& self.smallest_cell_size == other.smallest_cell_size
        &&& self.max_depth == other.max_depth
        &&& forall|j: int|
            0 <= j < self.meta@.len() ==> Self::same_place(#[trigger] self.meta@[j], other.meta@[j])
                && self.is_branch_at(j) == other.is_branch_at(j)
    }

    /// Everything but the node vector and the free pool is as it is in
    /// `before`, and so is every node that `before` has, but for the five
    /// nodes from `first` on.
    pub closed spec fn same_but_group(&self, before: &Self, first: int) -> bool {
        &&& self.element_ids == before.element_ids
        &&& self.element_rects == before.element_rects
        &&& self.element_nodes == before.element_nodes
        &&& self.root_rect == before.root_rect
        &&& self.max_num_elements == before.max_num_elements
        &&& self.smallest_cell_size == before.smallest_cell_size
        &&& self.max_depth == before.max_depth
        &&& self.owner == before.owner
        &&& self.node_of == before.node_of
        &&& before.nodes@.len() <= self.nodes@.len() <= before.nodes@.len() + 5
        &&& self.meta@.len() == self.nodes@.len()
        &&& forall|j: int|
            0 <= j < before.nodes@.len() && !(first <= j < first + 5) ==> #[trigger] self.nodes@[j]
                == before.nodes@[j]
        &&& forall|j: int| 0 <= j < before.meta@.len() ==> #[trigger] self.meta@[j] == before.meta@[j]
    }

    /// The nodes from the index `from` on are empty leaves that are not
    /// reachable from the root.
    pub closed spec fn fresh_from(nodes: Seq<Node>, meta: Seq<NodeMeta>, from: int) -> bool {
        &&& nodes.len() == meta.len()
        &&& forall|j: int| from <= j < nodes.len() ==> !(#[trigger] meta[j]).in_tree && nodes[j] == Node::empty_leaf()
    }

    /// The list of the node `i` is the list that `before` has for it with
    /// the handle `h` behind it, and the lists of the other nodes are as
    /// they are in `before`.
    pub closed spec fn pushed_to_list(&self, before: &Self, i: int, h: IndexType) -> bool {
        &&& self.meta@.len() == before.meta@.len()
        &&& forall|j: int|
            0 <= j < before.meta@.len() ==> Self::same_place(#[trigger] self.meta@[j], before.meta@[j])
        &&& forall|j: int| 0 <= j < before.meta@.len() && j != i ==> (#[trigger] self.meta@[j]).list == before.meta@[j].list
        &&& self.meta@[i].list == before.meta@[i].list.push(h)
    }

    /// Each child of the node `parent`, which is being split, has room for
    /// the element nodes that the node still holds.
    pub closed spec fn room_in_children(&self, parent: int) -> bool {
        forall|k: int|
            0 <= k < 5 ==> (#[trigger] self.meta@[self.child(parent, k)]).list.len() + self.meta@[parent].list.len()
                <= self.max_num_elements
    }

    /// What is known about the child at offset `k` of the leaf `parent` at
    /// the moment at which that leaf becomes a branch with the children
    /// from the index `first` on: the child is a leaf without elements.
    pub closed spec fn new_child_meta(&self, parent: int, first: int, k: int) -> NodeMeta {
        NodeMeta {
            in_tree: true,
            chain: self.meta@[parent].chain.push(first + k),
            slot: k,
            cell: self.meta@[parent].cell.child_cell(k),
            depth: if k == 0 {
                self.meta@[parent].depth
            } else {
                (self.meta@[parent].depth + 1) as u8
            },
            can_split: k != 0,
            list: Seq::empty(),
        }
    }

    // ------------------------------------------------------------------
    // Queries
    // ------------------------------------------------------------------
    /// The element with the handle `e` has the ID `id`, and the shape
    /// intersects its rectangle.
    pub closed spec fn hit_by<T: Intersects<AABB>>(&self, shape: &T, e: int, id: ElementId) -> bool {
        &&& self.element_ids.is_live(e)
        &&& self.element_ids@[e] == id
        &&& shape.intersects_spec(&self.element_rects@[e])
    }

    /// The IDs are those of the elements with the given handles, in their
    /// order; each of the elements is intersected by the shape and lies in
    /// a leaf that `in_scope` holds of; and no handle occurs twice.
    pub closed spec fn hit_list<T: Intersects<AABB>>(
        &self,
        shape: &T,
        ids: Seq<ElementId>,
        handles: Seq<int>,
        in_scope: spec_fn(int) -> bool,
    ) -> bool {
        &&& ids.len() == handles.len()
        &&& handles.no_duplicates()
        &&& forall|t: int|
            0 <= t < handles.len() ==> self.hit_by(shape, #[trigger] handles[t], ids[t]) && in_scope(
                self.leaf_of(handles[t]),
            )
    }

    /// The handles are those of all elements that the shape intersects and
    /// that lie in a leaf that `in_scope` holds of.
    pub closed spec fn hit_list_complete<T: Intersects<AABB>>(
        &self,
        shape: &T,
        handles: Seq<int>,
        in_scope: spec_fn(int) -> bool,
    ) -> bool {
        forall|e: int|
            self.element_ids.is_live(e) && shape.intersects_spec(&#[trigger] self.element_rects@[e])
                && in_scope(self.leaf_of(e)) ==> handles.contains(e)
    }

    /// The IDs are those of the elements with the handles `added`, which
    /// are the elements behind the position `k` in the list of the node
    /// `leaf` that the shape intersects, each once.
    pub closed spec fn leaf_hits<T: Intersects<AABB>>(
        &self,
        shape: &T,
        leaf: int,
        k: int,
        added: Seq<int>,
        ids: Seq<ElementId>,
    ) -> bool {
        &&& ids.len() == added.len()
        &&& added.no_duplicates()
        &&& forall|t: int|
            0 <= t < added.len() ==> {
                &&& self.hit_by(shape, #[trigger] added[t], ids[t])
                &&& self.leaf_of(added[t]) == leaf
                &&& self.owner@[self.node_of@[added[t]]].1 > k
            }
        &&& forall|pos: int|
            k < pos < self.meta@[leaf].list.len() && shape.intersects_spec(
                &self.element_rects@[#[trigger] self.element_at(leaf, pos)],
            ) ==> added.contains(self.element_at(leaf, pos))
    }

    /// The IDs are those of the elements with the given handles, in their
    /// order, each of which the shape intersects; no handle occurs twice.
    pub open spec fn lists_hits<T: Intersects<AABB>>(
        &self,
        shape: &T,
        ids: Seq<ElementId>,
        handles: Seq<int>,
    ) -> bool {
        &&& ids.len() == handles.len()
        &&& handles.no_duplicates()
        &&& forall|t: int|
            0 <= t < handles.len() ==> self.holds(#[trigger] handles[t], ids[t]) && shape.intersects_spec(
                &self.elements()[handles[t]].rect,
            )
    }

    /// The handles are those of the elements whose rectangle intersects
    /// `rect`, each once, and the IDs are the IDs of these elements.
    pub open spec fn lists_intersecting(&self, rect: AABB, ids: Seq<ElementId>, handles: Seq<int>) -> bool {
        &&& self.lists_hits(&rect, ids, handles)
        &&& forall|h: int|
            self.elements().dom().contains(h) && rect.intersects(&(#[trigger] self.elements()[h]).rect)
                ==> handles.contains(h)
    }

    /// The handles are those of the elements whose rectangle the shape
    /// intersects and whose leaf a descent for the shape arrives at, each
    /// once, and the IDs are the IDs of these elements.
    pub open spec fn lists_reached<T: Intersects<AABB>>(
        &self,
        shape: &T,
        ids: Seq<ElementId>,
        handles: Seq<int>,
    ) -> bool {
        &&& self.lists_hits(shape, ids, handles)
        &&& forall|t: int| 0 <= t < handles.len() ==> self.shape_reaches(shape, #[trigger] handles[t])
        &&& forall|h: int|
            self.elements().dom().contains(h) && shape.intersects_spec(&(#[trigger] self.elements()[h]).rect)
                && self.shape_reaches(shape, h) ==> handles.contains(h)
    }

    /// The IDs of the elements that a query for the shape finds: those
    /// whose rectangle the shape intersects and whose leaf a descent for
    /// the shape arrives at.
    pub open spec fn ids_reached<T: Intersects<AABB>>(&self, shape: &T) -> Set<ElementId> {
        Set::new(
            |id: ElementId|
                exists|h: int|
                    self.holds(h, id) && shape.intersects_spec(&self.elements()[h].rect) && #[trigger] self.shape_reaches(
                        shape,
                        h,
                    ),
        )
    }

    /// The handles are those of the element nodes in the lists of the
    /// leaves with the frames from the position `from` on, each once.
    pub closed spec fn references_seen(&self, all: Seq<NodeData>, from: int, seen: Seq<int>) -> bool {
        &&& seen.no_duplicates()
        &&& forall|t: int|
            0 <= t < seen.len() ==> self.element_nodes.is_live(#[trigger] seen[t]) && Self::in_frames_from(
                all,
                from,
                self.owner@[seen[t]].0,
            )
        &&& forall|x: int|
            self.element_nodes.is_live(x) && Self::in_frames_from(all, from, (#[trigger] self.owner@[x]).0)
                ==> seen.contains(x)
    }

    // ------------------------------------------------------------------
    // Removal
    // ------------------------------------------------------------------
    /// The position of the newest among the first `n` of the elements with
    /// the given handles that has the ID `id`, or -1 if none of them has.
    pub open spec fn newest_with_id(&self, handles: Seq<int>, id: ElementId, n: int) -> int
        decreases n,
    {
        if n <= 0 {
            -1
        } else if self.elements()[handles[n - 1]].id == id {
            n - 1
        } else {
            self.newest_with_id(handles, id, n - 1)
        }
    }

    /// The handle of the element that `remove` takes out for `element`:
    /// the newest element with the ID of `element` in the leaf that holds
    /// the elements with the rectangle of `element`, if there is one.
    pub open spec fn removal_candidate(&self, element: QuadTreeElement<ElementId>) -> Option<int> {
        let handles = self.target_elements(element.rect);
        let k = self.newest_with_id(handles, element.id, handles.len() as int);
        if k >= 0 {
            Some(handles[k])
        } else {
            None
        }
    }

    // ------------------------------------------------------------------
    // Compaction
    // ------------------------------------------------------------------
    /// The node `b` is a branch of the tree whose five children are leaves
    /// without elements: the group of its children can be folded back into
    /// the free pool.
    pub closed spec fn compactable(&self, b: int) -> bool {
        &&& self.in_tree(b)
        &&& self.is_branch_at(b)
        &&& forall|k: int| 0 <= k < 5 ==> (#[trigger] self.nodes@[self.child(b, k)]).element_count == 0
    }

    /// No group of five sibling leaves without elements is left in the
    /// tree: the tree is as small as it can be for what it holds.
    pub closed spec fn is_minimal(&self) -> bool {
        forall|b: int| !#[trigger] self.compactable(b)
    }

    /// The frames of the nodes with the given indices.
    pub closed spec fn index_frames(&self, stack: Seq<u32>) -> Seq<NodeData> {
        Seq::new(stack.len(), |a: int| self.frame_of(stack[a] as int))
    }

    /// The group of the children of a compactable branch was folded back
    /// into the free pool: the branch is an empty leaf, its five children
    /// have left the tree and are the first group of the free pool, and
    /// nothing else has changed.
    pub closed spec fn folded_from(&self, before: &Self, b: int) -> bool {
        let first = before.child(b, 0);
        &&& self.element_ids == before.element_ids
        &&& self.element_rects == before.element_rects
        &&& self.element_nodes == before.element_nodes
        &&& self.root_rect == before.root_rect
        &&& self.max_num_elements == before.max_num_elements
        &&& self.smallest_cell_size == before.smallest_cell_size
        &&& self.max_depth == before.max_depth
        &&& self.owner == before.owner
        &&& self.node_of == before.node_of
        &&& self.free_node == first
        &&& self.free_groups@ == seq![first as u32] + before.free_groups@
        &&& self.nodes@ == before.nodes@.update(
            first,
            Node { first_child_or_element: before.free_node, element_count: before.nodes@[first].element_count },
        ).update(b, Node::empty_leaf())
        &&& self.meta@.len() == before.meta@.len()
        &&& forall|j: int|
            0 <= j < before.meta@.len() ==> {
                &&& (#[trigger] self.meta@[j]).chain == before.meta@[j].chain
                &&& self.meta@[j].slot == before.meta@[j].slot
                &&& self.meta@[j].cell == before.meta@[j].cell
                &&& self.meta@[j].depth == before.meta@[j].depth
                &&& self.meta@[j].can_split == before.meta@[j].can_split
                &&& self.meta@[j].list == before.meta@[j].list
                &&& self.meta@[j].in_tree == (before.meta@[j].in_tree && !(first <= j < first + 5))
            }
    }

    /// The indices of the children at the given offsets of a branch whose
    /// children start at the index `first`.
    pub closed spec fn child_indices(first: u32, slots: Seq<int>) -> Seq<u32> {
        Seq::new(slots.len(), |t: int| (first + slots[t]) as u32)
    }

    /// The stack of a compaction holds branches of the tree, none of which
    /// lies below another one.
    pub closed spec fn branch_stack(&self, stack: Seq<u32>) -> bool {
        &&& self.stack_ok(self.index_frames(stack))
        &&& forall|a: int| 0 <= a < stack.len() ==> self.is_branch_at(#[trigger] stack[a] as int)
    }

    /// Every branch whose children can be folded lies below a branch on
    /// the stack, or is one.
    pub closed spec fn folds_ahead(&self, stack: Seq<u32>) -> bool {
        forall|b: int| #[trigger] self.compactable(b) ==> self.covered(self.index_frames(stack), b)
    }
}

impl<ElementId> QuadTree<ElementId> where ElementId: ElementIdType {
    // ------------------------------------------------------------------
    // Construction
    // ------------------------------------------------------------------
    /// Constructs the empty tree with the default extents and policy: a
    /// maximum depth of 8, 16 elements per leaf, and a smallest cell size
    /// of 1.
    pub fn default() -> (tree: Self)
        ensures
            tree.wf(),
            tree.elements() == Map::<int, QuadTreeElement<ElementId>>::empty(),
            tree.len_spec() == 0,
            tree.root_is_leaf(),
            tree.root_node_spec() == Node::empty_leaf(),
            tree.first_free_node_group_spec() == free_list::SENTINEL,
            tree.node_count() == 1,
            tree.tree_size() == 1,
            tree.element_capacity() == 0,
            tree.max_depth_spec() == 8,
            tree.max_num_elements_spec() == 16,
            tree.smallest_cell_size_spec() == 1,
            tree.root_rect_spec().left() == -0x4000_0000,
            tree.root_rect_spec().top() == -0x4000_0000,
            tree.root_rect_spec().width() == i32::MAX,
            tree.root_rect_spec().height() == i32::MAX,
    {
        Self::new(QuadRect::default(), 8, 16, 1)
    }

    /// Constructs the empty tree with the given extents and policy. Its one
    /// node is the root, a leaf without elements.
    pub fn new(root_rect: QuadRect, max_depth: u8, max_num_elements: u32, smallest_cell_size: u32) -> (tree:
        Self)
        requires
            max_num_elements > 0,
            smallest_cell_size > 0,
        ensures
            tree.wf(),
            tree.elements() == Map::<int, QuadTreeElement<ElementId>>::empty(),
            tree.len_spec() == 0,
            tree.root_is_leaf(),
            tree.root_node_spec() == Node::empty_leaf(),
            tree.first_free_node_group_spec() == free_list::SENTINEL,
            tree.node_count() == 1,
            tree.tree_size() == 1,
            tree.element_capacity() == 0,
            tree.root_rect_spec() == root_rect,
            tree.max_depth_spec() == max_depth,
            tree.max_num_elements_spec() == max_num_elements,
            tree.smallest_cell_size_spec() == smallest_cell_size,
    {
        let cell = root_rect.to_centered();
        let mut nodes: Vec<Node> = Vec::new();
        nodes.push(Node::default());
        let ghost root_meta = NodeMeta {
            in_tree: true,
            chain: Seq::empty().push(0int),
            slot: 0,
            cell,
            depth: 0,
            can_split: true,
            list: Seq::empty(),
        };
        let tree = Self {
            element_ids: FreeList::default(),
            element_rects: FreeList::default(),
            element_nodes: FreeList::default(),
            nodes,
            root_rect,
            free_node: free_list::SENTINEL,
            max_depth,
            max_num_elements,
            smallest_cell_size,
            meta: Ghost(Seq::empty().push(root_meta)),
            free_groups: Ghost(Seq::empty()),
            owner: Ghost(Map::empty()),
            node_of: Ghost(Map::empty()),
        };
        proof {
            reveal(QuadTree::<_>::wf_shape);
            reveal(QuadTree::<_>::wf_free);
            reveal(QuadTree::<_>::wf_lists);
            reveal(QuadTree::<_>::wf_elements);
            assert(tree.nodes@.len() == 1);
            assert(tree.in_tree(0));
            assert(tree.node_ok(0));
            assert(tree.wf_shape());
            assert(tree.wf_free(None));
            assert(tree.list_ok(0));
            assert(tree.holder_ok(0, None));
            assert(tree.wf_lists(None));
            assert(tree.wf_elements(None));
            assert(tree.elements() =~= Map::<int, QuadTreeElement<ElementId>>::empty());
            tree.lemma_tree_nodes();
        }
        tree
    }

    // ------------------------------------------------------------------
    // Insertion
    // ------------------------------------------------------------------
    /// Tests whether there is room for one more insertion.
    pub fn can_insert(&self) -> (room: bool)
        ensures
            room == self.has_room(),
    {
        let nodes = self.nodes.len() as u64;
        let elements = self.element_ids.capacity() as u64;
        let stacks = (usize::MAX / 128) as u64;
        let limit: u64 = if stacks <= 0xFFFF_FFFF {
            stacks - 1
        } else {
            0xFFFF_FFFF
        };
        elements < 0xFFFF_FFFE && nodes <= limit && nodes + 5 * (self.max_depth as u64) <= limit
    }

    /// Inserts the element, unless its rectangle does not lie inside the
    /// extents of the tree.
    ///
    /// The element is stored under the handle that the free list of the
    /// elements hands out next. A reference to it goes to the one leaf
    /// that a descent for its rectangle arrives at; a leaf that is full
    /// and may be split is split on the way, as often as it takes.
    pub fn insert(&mut self, element: QuadTreeElement<ElementId>) -> (result: Result<(), InsertError>)
        requires
            old(self).wf(),
            old(self).has_room(),
        ensures
            final(self).wf(),
            final(self).root_rect_spec() == old(self).root_rect_spec(),
            final(self).max_depth_spec() == old(self).max_depth_spec(),
            final(self).max_num_elements_spec() == old(self).max_num_elements_spec(),
            final(self).smallest_cell_size_spec() == old(self).smallest_cell_size_spec(),
            result is Ok <==> old(self).root_rect_spec().contains_spec(&element.rect),
            result is Err ==> {
                &&& result == Err::<(), InsertError>(InsertError::OutOfBounds)
                &&& final(self).elements() == old(self).elements()
                &&& final(self).len_spec() == old(self).len_spec()
                &&& final(self).reference_count() == old(self).reference_count()
                &&& final(self).node_count() == old(self).node_count()
                &&& final(self).element_capacity() == old(self).element_capacity()
                &&& final(self).root_is_leaf() == old(self).root_is_leaf()
                &&& *final(self) == *old(self)
            },
            result is Ok ==> {
                &&& !old(self).elements().dom().contains(old(self).next_handle())
                &&& final(self).elements() == old(self).elements().insert(old(self).next_handle(), element)
                &&& final(self).len_spec() == old(self).len_spec() + 1
                &&& final(self).reference_count() == old(self).reference_count() + 1
                &&& old(self).node_count() <= final(self).node_count() <= old(self).node_count() + 5
                    * old(self).max_depth_spec()
                &&& old(self).element_capacity() <= final(self).element_capacity() <= old(
                    self,
                ).element_capacity() + 1
                &&& final(self).removal_candidate(element) == Some(old(self).next_handle())
                &&& forall|i: int| #[trigger]
                    old(self).in_tree(i) ==> {
                        &&& final(self).in_tree(i)
                        &&& final(self).frame_of(i) == old(self).frame_of(i)
                        &&& old(self).is_branch_at(i) ==> final(self).is_branch_at(i)
                    }
                &&& old(self).room_at_target(element.rect) ==> final(self).same_tree_as(old(self))
                &&& !old(self).room_at_target(element.rect) ==> final(self).tree_size() >= old(self).tree_size()
                    + 5
            },
    {
        let element_coords = element.rect;
        if !self.root_rect.contains(&element_coords) {
            return Err(InsertError::OutOfBounds);
        }
        let max_num_elements = self.max_num_elements;
        proof {
            reveal(QuadTree::<_>::wf_elements);
            self.element_ids.lemma_handles();
            self.element_rects.lemma_handles();
            self.lemma_shape();
        }

        // Insert the actual element.
        let element_idx = self.element_ids.insert(element.id);
        let element_rect_idx = self.element_rects.insert(element.rect);
        let ghost e = element_idx as int;
        let ghost pending = Some(e);
        proof {
            assert(element_idx == element_rect_idx);
            assert forall|j: int| 0 <= j < self.nodes@.len() && !self.in_tree(j) implies #[trigger] self.spare_ok(
                j,
            ) by {
                old(self).lemma_node_free(j);
            }
            self.lemma_shape_frame(old(self));
            self.lemma_free_frame(old(self));
            self.lemma_same_lists(old(self), None);
            assert(self.element_ids@.dom() =~= self.element_rects@.dom());
            assert forall|x: int| self.element_nodes.is_live(x) implies #[trigger] self.reference_ok(x, pending) by {
                assert(old(self).reference_ok(x, None));
            }
            assert forall|x: int| self.element_ids.is_live(x) implies #[trigger] self.element_ok(x, pending) by {
                if x != e {
                    assert(old(self).element_ok(x, None));
                }
            }
            assert(self.wf_elements(pending));
            assert(self.elements() =~= old(self).elements().insert(e, element));
        }
        let ghost stored = *self;

        let mut to_process = NodeList::default();
        let root = self.get_root_node_data();
        to_process.push_back(root);
        let ghost mut next_split_depth: int = 0;
        let ghost mut splits: int = 0;
        let ghost bound: int = old(self).nodes@.len() + 5 * old(self).max_depth;
        proof {
            assert(to_process@ =~= seq![root]);
            assert(self.on_path(0, element_coords));
            assert(stored.same_tree_as(old(self))) by {
                assert forall|j: int| 0 <= j < stored.meta@.len() implies Self::same_place(
                    #[trigger] stored.meta@[j],
                    old(self).meta@[j],
                ) && stored.is_branch_at(j) == old(self).is_branch_at(j) by {}
            }
            stored.lemma_same_tree_as(old(self));
            assert(stored.keeps_places(&stored)) by {
                assert forall|j: int| stored.in_tree(j) implies Self::same_place(
                    #[trigger] stored.meta@[j],
                    stored.meta@[j],
                ) by {}
            }
            stored.lemma_same_tree_refl();
        }

        while !to_process.is_empty()
            invariant
                to_process@.len() <= 1,
                to_process@.len() == 0 ==> self.wf(),
                to_process@.len() == 1 ==> {
                    &&& self.wf_during(pending, None)
                    &&& self.frame_ok(to_process@[0])
                    &&& self.on_path(to_process@[0].index as int, element_coords)
                    &&& next_split_depth <= to_process@[0].depth + (if self.is_branch_at(
                        to_process@[0].index as int,
                    ) {
                        1int
                    } else {
                        0int
                    })
                    &&& self.element_nodes.capacity_spec() == stored.element_nodes.capacity_spec()
                    &&& self.element_nodes.free_handles() == stored.element_nodes.free_handles()
                },
                to_process@.len() == 0 ==> {
                    &&& self.element_nodes.capacity_spec() - self.element_nodes.free_handles().len()
                        == stored.element_nodes.capacity_spec() - stored.element_nodes.free_handles().len() + 1
                    &&& self.is_newest_in_leaf(e)
                },
                0 <= next_split_depth <= self.max_depth,
                0 <= splits,
                stored.wf_shape(),
                self.keeps_places(&stored),
                forall|j: int| stored.in_tree(j) && stored.is_branch_at(j) ==> #[trigger] self.is_branch_at(j),
                self.tree_size() == stored.tree_size() + 5 * splits,
                splits == 0 ==> self.same_tree_as(&stored),
                splits == 0 && to_process@.len() == 1 ==> *self == stored && to_process@[0].index == 0,
                splits > 0 || to_process@.len() == 0 ==> (stored.room_at_target(element_coords) <==> splits == 0),
                self.nodes@.len() + 5 * (self.max_depth - next_split_depth) <= bound,
                bound <= node_limit(),
                bound == old(self).nodes@.len() + 5 * old(self).max_depth,
                old(self).nodes@.len() <= self.nodes@.len(),
                self.element_ids == stored.element_ids,
                self.element_rects == stored.element_rects,
                self.root_rect == stored.root_rect,
                self.max_depth == stored.max_depth,
                self.max_num_elements == stored.max_num_elements,
                self.smallest_cell_size == stored.smallest_cell_size,
                max_num_elements == self.max_num_elements,
                element_coords == self.element_rects@[e],
                element_idx == e,
                pending == Some(e),
            decreases
                    (if to_process@.len() == 0 {
                        0int
                    } else {
                        self.max_depth - next_split_depth + 1
                    }),
        {
            let ghost frame = to_process@[0];
            let node_data = to_process.pop_back();
            assert(node_data == frame);

            // Find the leaf that the element belongs to.
            let mut leaves = self.find_leaves_aabb(node_data, &element_coords, FindLeafHint::Mutate);
            let ghost found = leaves@;
            let leaf = leaves.pop_back();
            proof {
                let sel = aabb_selector(element_coords, FindLeafHint::Mutate);
                let from = node_data.index as int;
                assert(leaf == found[0]);
                assert(self.frame_ok(found[0]));
                self.lemma_on_path_reach(from, leaf.index as int, element_coords);
                self.lemma_node_ok(leaf.index as int);
                assert(self.under(leaf.index as int, from));
                self.lemma_depth_below(leaf.index as int, from);
            }

            let element_count = self.nodes[leaf.index as usize].element_count;

            let can_split = leaf.can_split_further(self.smallest_cell_size, self.max_depth);
            let node_is_full = element_count >= max_num_elements;

            let must_store_element = !node_is_full || !can_split;
            proof {
                self.lemma_holder(leaf.index as int, pending, None);
                self.lemma_frame_of(leaf.index as int);
                assert(self.splittable(leaf.index as int) == leaf.can_split_further_spec(
                    self.smallest_cell_size,
                    self.max_depth,
                ));
                if splits == 0 {
                    // The first leaf found is the leaf of the rectangle.
                    stored.lemma_target_exists(element_coords);
                    stored.lemma_target_unique(
                        stored.target_leaf(element_coords),
                        leaf.index as int,
                        element_coords,
                    );
                    assert(stored.room_at_target(element_coords) == must_store_element);
                }
            }
            let ghost before = *self;
            if must_store_element {
                // This leaf takes the element reference without further splitting.
                self.insert_element_in_child_node(leaf.index, element_idx);
                proof {
                    let list = self.meta@[leaf.index as int].list;
                    assert(list.last() == list[list.len() - 1]);
                    before.lemma_shape();
                    self.lemma_same_tree_as(&before);
                    self.lemma_same_tree_keeps(&before);
                    self.lemma_keeps_places_trans(&before, &stored);
                    if splits == 0 {
                        self.lemma_same_tree_trans(&before, &stored);
                    }
                    assert forall|j: int| stored.in_tree(j) && stored.is_branch_at(j) implies #[trigger] self.is_branch_at(
                        j,
                    ) by {
                        assert(before.is_branch_at(j));
                        assert(Self::same_place(before.meta@[j], stored.meta@[j]));
                        assert(before.in_tree(j));
                    }
                }
            } else {
                // At this point we have to split the current node.
                // We push the leaf back onto the stack in order to try to
                // find a better insertion candidate from there.
                proof {
                    assert(leaf.depth >= next_split_depth);
                }
                self.distribute_elements_to_child_nodes(&leaf, Ghost(pending));
                to_process.push_back(leaf);
                proof {
                    self.lemma_on_path_frame(&before, leaf.index as int, element_coords);
                    next_split_depth = leaf.depth + 1;
                    assert(to_process@ =~= seq![leaf]);
                    self.lemma_keeps_places_trans(&before, &stored);
                    assert forall|j: int| stored.in_tree(j) && stored.is_branch_at(j) implies #[trigger] self.is_branch_at(
                        j,
                    ) by {
                        assert(before.is_branch_at(j));
                        assert(Self::same_place(before.meta@[j], stored.meta@[j]));
                        assert(before.in_tree(j));
                    }
                    splits = splits + 1;
                }
            }
        }
        proof {
            assert(self.elements()[e] == element);
            self.lemma_newest_is_candidate(e, element);
            assert forall|i: int| #[trigger] old(self).in_tree(i) implies {
                &&& self.in_tree(i)
                &&& self.frame_of(i) == old(self).frame_of(i)
                &&& old(self).is_branch_at(i) ==> self.is_branch_at(i)
            } by {
                assert(stored.in_tree(i));
                assert(Self::same_place(self.meta@[i], stored.meta@[i]));
            }
            if splits == 0 {
                self.lemma_same_tree_trans(&stored, old(self));
            }
        }
        Ok(())
    }

    // ------------------------------------------------------------------
    // Removal
    // ------------------------------------------------------------------
    /// Removes the specified element.
    ///
    /// The element is located using its bounding box and identified using
    /// the ID: the newest element with that ID in the leaf that a descent
    /// for the bounding box arrives at is taken out. Because of that, the
    /// bounding box of the element must not change until it was removed
    /// from the tree. Returns whether an element was taken out.
    ///
    /// # Arguments
    /// * [`element`] - The element to remove.
    pub fn remove(&mut self, element: &QuadTreeElement<ElementId>) -> (found: bool)
        requires
            old(self).wf(),
        ensures
            final(self).wf(),
            final(self).root_rect_spec() == old(self).root_rect_spec(),
            final(self).max_depth_spec() == old(self).max_depth_spec(),
            final(self).max_num_elements_spec() == old(self).max_num_elements_spec(),
            final(self).smallest_cell_size_spec() == old(self).smallest_cell_size_spec(),
            final(self).node_count() == old(self).node_count(),
            final(self).element_capacity() == old(self).element_capacity(),
            final(self).root_is_leaf() == old(self).root_is_leaf(),
            found ==> {
                &&& exists|h: int| #[trigger]
                    old(self).elements().dom().contains(h) && final(self).elements() == old(
                        self,
                    ).elements().remove(h)
                &&& final(self).len_spec() == old(self).len_spec() - 1
                &&& final(self).reference_count() == old(self).reference_count() - 1
            },
            !found ==> {
                &&& final(self).elements() == old(self).elements()
                &&& final(self).len_spec() == old(self).len_spec()
                &&& final(self).reference_count() == old(self).reference_count()
                &&& *final(self) == *old(self)
            },
            final(self).same_tree_as(old(self)),
            obeys_concrete_eq::<ElementId>() ==> match old(self).removal_candidate(*element) {
                Some(h) => found && final(self).elements() == old(self).elements().remove(h),
                None => !found,
            },
    {
        // Find the leaf containing the element.
        let element_coords = element.rect;
        let root = self.get_root_node_data();
        let ghost sel = aabb_selector(element_coords, FindLeafHint::Mutate);

        let mut leaves = self.find_leaves_aabb(root, &element_coords, FindLeafHint::Mutate);
        let ghost all = leaves@;
        let leaf = leaves.pop_back();
        proof {
            assert(leaf == all[0]);
            assert(self.frame_ok(all[0]));
            assert(self.is_leaf_at(leaf.index as int));
            let target = self.target_leaf(element_coords);
            assert(self.is_leaf_at(target) && self.reach(target, 0, sel));
            self.lemma_target_unique(target, leaf.index as int, element_coords);
            self.lemma_holder(leaf.index as int, None, None);
        }
        let ghost c = leaf.index as int;
        let ghost list = self.meta@[c].list;
        let ghost handles = self.target_elements(element_coords);
        let leaf_node_data = self.nodes[leaf.index as usize];

        // Find the element in question.
        let mut element_node_idx = leaf_node_data.first_child_or_element;
        let mut prev_element_node_idx = element_node_idx;
        let mut element_found = false;
        let ghost mut k: int = list.len() - 1;
        let mut found_element_idx = free_list::SENTINEL;

        while element_node_idx != free_list::SENTINEL && !element_found
            invariant
                self.wf(),
                *self == *old(self),
                self.is_leaf_at(c),
                list == self.meta@[c].list,
                handles == self.target_elements(element_coords),
                handles.len() == list.len(),
                c == self.target_leaf(element_coords),
                -1 <= k < list.len(),
                element_node_idx == (if k >= 0 {
                    list[k]
                } else {
                    free_list::SENTINEL
                }),
                k + 1 < list.len() ==> prev_element_node_idx == list[k + 1],
                obeys_concrete_eq::<ElementId>() ==> self.newest_with_id(handles, element.id, list.len() as int)
                    == self.newest_with_id(handles, element.id, k + 1),
                element_found ==> {
                    &&& k >= 0
                    &&& found_element_idx == self.element_at(c, k)
                    &&& obeys_concrete_eq::<ElementId>() ==> self.element_ids@[self.element_at(c, k)]
                        == element.id
                },
            decreases
                    (if element_found {
                        0
                    } else {
                        k + 2
                    }),
        {
            proof {
                self.lemma_list_entry(c, k, None, None);
                reveal(obeys_concrete_eq);
                assert(handles[k] == self.element_at(c, k));
            }
            let elem_node = *self.element_nodes.at(element_node_idx);
            let elem_id = self.element_ids.at(elem_node.element_idx);

            if *elem_id == element.id {
                // We assume that a user never inserts the same element
                // twice, therefore there is no need to visit the other
                // elements of this node once we found the correct one.
                element_found = true;
                found_element_idx = elem_node.element_idx;
            } else {
                prev_element_node_idx = element_node_idx;
                element_node_idx = elem_node.next;
                proof {
                    k = k - 1;
                }
            }
        }
        proof {
            if k >= 0 {
                self.lemma_list_entry(c, k, None, None);
                assert(handles[k] == self.element_at(c, k));
            }
        }

        if element_found {
            proof {
                self.lemma_list_entry(c, k, None, None);
                assert(self.elements().dom().contains(found_element_idx as int));
            }
            let ghost e = found_element_idx as int;
            self.unlink_element_node(leaf.index, element_node_idx, prev_element_node_idx, Ghost(k));
            let ghost unlinked = *self;
            proof {
                reveal(QuadTree::<_>::wf_elements);
                self.element_ids.lemma_handles();
            }
            self.element_ids.erase(found_element_idx);
            self.element_rects.erase(found_element_idx);
            proof {
                assert forall|j: int| 0 <= j < self.nodes@.len() && !self.in_tree(j) implies #[trigger] self.spare_ok(
                    j,
                ) by {
                    unlinked.lemma_node_free(j);
                }
                unlinked.lemma_shape();
                self.lemma_shape_frame(&unlinked);
                self.lemma_free_frame(&unlinked);
                self.lemma_same_lists(&unlinked, None);
                assert(self.element_ids@.dom() =~= self.element_rects@.dom());
                assert forall|x: int| self.element_nodes.is_live(x) implies #[trigger] self.reference_ok(x, None) by {
                    assert(unlinked.reference_ok(x, Some(e)));
                }
                assert forall|x: int| self.element_ids.is_live(x) implies #[trigger] self.element_ok(x, None) by {
                    assert(unlinked.element_ok(x, Some(e)));
                    let y = unlinked.node_of@[x];
                    unlinked.lemma_element_entry(x, Some(e), None);
                    self.lemma_on_path_frame(&unlinked, unlinked.leaf_of(x), self.element_rects@[x]);
                }
                assert(self.wf_elements(None));
                assert(self.elements() =~= old(self).elements().remove(e));
                assert(self.same_tree_as(&unlinked)) by {
                    assert forall|j: int| 0 <= j < self.meta@.len() implies Self::same_place(
                        #[trigger] self.meta@[j],
                        unlinked.meta@[j],
                    ) && self.is_branch_at(j) == unlinked.is_branch_at(j) by {}
                }
                self.lemma_same_tree_trans(&unlinked, old(self));
            }
            true
        } else {
            proof {
                if k >= 0 {
                    self.lemma_list_entry(c, k, None, None);
                }
                self.lemma_same_tree_refl();
            }
            false
        }
    }

    // ------------------------------------------------------------------
    // Compaction
    // ------------------------------------------------------------------
    /// Prunes unused child nodes from the tree.
    ///
    /// Wherever the five children of a branch are leaves without elements,
    /// the group of the children goes to the free pool and the branch
    /// becomes an empty leaf. One call folds the groups that can be folded
    /// when the descent comes upon them; a branch whose children become
    /// foldable by that is folded by a later call. Returns whether the
    /// tree changed, which it does exactly if some group could be folded.
    ///
    /// # Remarks
    /// The tree is never pruned automatically for performance reasons. Call
    /// this method after all elements were removed or updated.
    pub fn cleanup(&mut self) -> (changed: bool)
        requires
            old(self).wf(),
        ensures
            final(self).wf(),
            final(self).elements() == old(self).elements(),
            final(self).len_spec() == old(self).len_spec(),
            final(self).reference_count() == old(self).reference_count(),
            final(self).root_rect_spec() == old(self).root_rect_spec(),
            final(self).max_depth_spec() == old(self).max_depth_spec(),
            final(self).max_num_elements_spec() == old(self).max_num_elements_spec(),
            final(self).smallest_cell_size_spec() == old(self).smallest_cell_size_spec(),
            final(self).node_count() == old(self).node_count(),
            final(self).element_capacity() == old(self).element_capacity(),
            changed == !old(self).is_minimal(),
            !changed ==> final(self).is_minimal() && final(self).root_is_leaf() == old(self).root_is_leaf()
                && final(self).tree_size() == old(self).tree_size(),
            changed ==> final(self).tree_size() + 5 <= old(self).tree_size(),
    {
        proof {
            self.lemma_shape();
        }
        // Only process the root if it is not a leaf.
        if self.nodes[0].is_leaf() {
            proof {
                self.lemma_root_leaf_minimal();
            }
            return false;
        }
        let mut tree_compacted = false;

        // Initialize the stack of nodes to be processed with the index of the root node.
        let mut to_process = NodeIndexStack::new();
        to_process.push(0);
        proof {
            assert(to_process@ =~= seq![0u32]);
            let frames = self.index_frames(to_process@);
            self.lemma_frame_of(0);
            assert(frames =~= seq![self.frame_of(0)]);
            self.lemma_descent_start(self.frame_of(0), all_selector());
            assert forall|b: int| #[trigger] self.compactable(b) implies self.covered(frames, b) by {
                self.lemma_reach_all(b);
                assert(self.under(b, frames[0].index as int));
            }
        }

        while !to_process.is_empty()
            invariant
                self.wf(),
                self.branch_stack(to_process@),
                !tree_compacted ==> *self == *old(self) && self.folds_ahead(to_process@),
                tree_compacted ==> !old(self).is_minimal(),
                tree_compacted ==> self.tree_size() + 5 <= old(self).tree_size(),
                self.tree_size() <= old(self).tree_size(),
                self.elements() == old(self).elements(),
                self.element_ids == old(self).element_ids,
                self.element_nodes == old(self).element_nodes,
                self.root_rect == old(self).root_rect,
                self.max_depth == old(self).max_depth,
                self.max_num_elements == old(self).max_num_elements,
                self.smallest_cell_size == old(self).smallest_cell_size,
                self.nodes@.len() == old(self).nodes@.len(),
            decreases self.stack_weight(self.index_frames(to_process@)),
        {
            let ghost stack = to_process@;
            let node_index = to_process.pop().unwrap();
            let ghost rest = to_process@;
            let ghost e = node_index as int;
            proof {
                assert(stack =~= rest.push(node_index));
                assert(stack[stack.len() - 1] == node_index);
                assert(self.frame_ok(self.index_frames(stack)[stack.len() - 1]));
                self.lemma_frame_of(e);
                self.lemma_node_ok(e);
                self.lemma_child(e, 4);
                self.lemma_shape();
                assert(self.index_frames(stack) =~= self.index_frames(rest).push(self.frame_of(e)));
                self.lemma_stack_room(self.index_frames(rest), self.frame_of(e));
            }
            let first_child_index = self.nodes[node_index as usize].get_first_child_node_index();

            // Loop through the children.
            let mut num_empty_leaves: usize = 0;
            let ghost mut slots: Seq<int> = Seq::empty();
            let mut j: u32 = 0;
            proof {
                assert(to_process@ =~= rest + Self::child_indices(first_child_index, slots));
            }
            while j < 5
                invariant
                    0 <= j <= 5,
                    self.wf(),
                    self.in_tree(e),
                    self.is_branch_at(e),
                    e == node_index,
                    first_child_index == self.nodes@[e].first_child_or_element,
                    first_child_index + 4 < self.nodes@.len(),
                    self.nodes@.len() <= free_list::SENTINEL,
                    rest.len() + 5 < stack_limit(),
                    to_process@ == rest + Self::child_indices(first_child_index, slots),
                    slots.len() <= j,
                    forall|t: int| 0 <= t < slots.len() ==> 0 <= #[trigger] slots[t] < j,
                    slots.no_duplicates(),
                    forall|k: int|
                        0 <= k < j ==> (slots.contains(k) <==> self.is_branch_at(#[trigger] self.child(e, k))),
                    num_empty_leaves <= j,
                    (num_empty_leaves == j) <==> (forall|k: int|
                        0 <= k < j ==> (#[trigger] self.nodes@[self.child(e, k)]).element_count == 0),
                    num_empty_leaves == j ==> slots.len() == 0,
                decreases 5 - j,
            {
                let child_index = first_child_index + j;
                let child = &self.nodes[child_index as usize];
                let ghost before_slots = slots;
                let ghost before_empty = num_empty_leaves;
                proof {
                    assert(self.child(e, j as int) == child_index);
                }

                // Increment empty leaf count if the child is an empty
                // leaf. Otherwise if the child is a branch, add it to
                // the stack to be processed in the next iteration.
                if child.is_empty() {
                    num_empty_leaves += 1;
                } else if child.is_branch() {
                    to_process.push(child_index);
                    proof {
                        slots = slots.push(j as int);
                        assert(to_process@ =~= rest + Self::child_indices(first_child_index, slots));
                    }
                }
                proof {
                    assert forall|k: int| 0 <= k < j + 1 implies (slots.contains(k) <==> self.is_branch_at(
                        #[trigger] self.child(e, k),
                    )) by {
                        if slots.contains(k) {
                            let t = choose|t: int| 0 <= t < slots.len() && slots[t] == k;
                            if t < before_slots.len() {
                                assert(before_slots[t] == k);
                                assert(before_slots.contains(k));
                            }
                        }
                        if self.is_branch_at(self.child(e, k)) {
                            if k < j {
                                assert(before_slots.contains(k));
                                let t = choose|t: int| 0 <= t < before_slots.len() && before_slots[t] == k;
                                assert(slots[t] == k);
                            } else {
                                assert(slots[slots.len() - 1] == k);
                            }
                        }
                    }
                    if before_empty == j {
                        assert forall|k: int| 0 <= k < j implies (#[trigger] self.nodes@[self.child(
                            e,
                            k,
                        )]).element_count == 0 by {}
                    }
                    if num_empty_leaves == j + 1 {
                        assert(before_empty == j);
                        assert forall|k: int| 0 <= k < j + 1 implies (#[trigger] self.nodes@[self.child(
                            e,
                            k,
                        )]).element_count == 0 by {
                            if k < j {
                            }
                        }
                    } else {
                        if before_empty == j {
                            assert(self.nodes@[self.child(e, j as int)].element_count != 0);
                        } else {
                            let w = choose|k: int|
                                0 <= k < j && (#[trigger] self.nodes@[self.child(e, k)]).element_count != 0;
                            assert(self.nodes@[self.child(e, w)].element_count != 0);
                        }
                    }
                }
                j = j + 1;
            }
            proof {
                self.lemma_branch_step(rest, node_index, slots);
            }

            // If all the children were empty leaves, remove them and
            // make this node the new empty leaf.
            if num_empty_leaves == 5 {
                let ghost before = *self;
                proof {
                    assert(self.compactable(e));
                    assert(slots.len() == 0);
                    assert(to_process@ =~= rest);
                    if !tree_compacted {
                        assert(old(self).compactable(e));
                    }
                }
                // Push all 5 children to the free list.
                // (We don't change the indexes of the 2nd to 5th child because
                // child nodes are always processed together.)
                let head = self.nodes[first_child_index as usize];
                self.nodes[first_child_index as usize] = Node {
                    first_child_or_element: self.free_node,
                    element_count: head.element_count,
                };
                self.free_node = first_child_index;

                // Make this node the new empty leaf.
                self.nodes[node_index as usize].make_empty_leaf();
                proof {
                    let first = first_child_index as int;
                    let old_meta = self.meta@;
                    self.meta@ = Seq::new(
                        old_meta.len(),
                        |x: int|
                            NodeMeta {
                                in_tree: old_meta[x].in_tree && !(first <= x < first + 5),
                                chain: old_meta[x].chain,
                                slot: old_meta[x].slot,
                                cell: old_meta[x].cell,
                                depth: old_meta[x].depth,
                                can_split: old_meta[x].can_split,
                                list: old_meta[x].list,
                            },
                    );
                    self.free_groups@ = seq![first_child_index] + self.free_groups@;
                    assert(self.nodes@ =~= before.nodes@.update(
                        first,
                        Node {
                            first_child_or_element: before.free_node,
                            element_count: before.nodes@[first].element_count,
                        },
                    ).update(e, Node::empty_leaf()));
                    assert(self.folded_from(&before, e));
                    self.lemma_fold(&before, e);
                    self.lemma_fold_stack(&before, rest, node_index);
                }
                tree_compacted = true;
            }
        }
        proof {
            if !tree_compacted {
                assert forall|b: int| !#[trigger] self.compactable(b) by {
                    if self.compactable(b) {
                        assert(self.covered(self.index_frames(to_process@), b));
                    }
                }
            }
        }
        tree_compacted
    }

    // ------------------------------------------------------------------
    // Queries
    // ------------------------------------------------------------------
    /// Returns the set of IDs that occupy space within the
    /// specified bounding box: the IDs of the elements whose rectangle
    /// intersects `rect`.
    ///
    /// # Arguments
    /// * [`rect`] - The rectangle to test for.
    pub fn intersect_aabb(&self, rect: &AABB) -> (ids: HashSet<ElementId>)
        requires
            self.wf(),
        ensures
            obeys_key_model::<ElementId>() ==> ids@ == self.ids_intersecting(*rect),
    {
        let root = self.get_root_node_data();
        let leaves = self.find_leaves_aabb(root, rect, FindLeafHint::Query);
        let capacity = self.capacity_hint(leaves.len());
        let hits = self.collect_aabb(rect, leaves);
        Self::to_id_set(hits.0, capacity)
    }

    /// Lists the ID of each element whose rectangle intersects `rect`,
    /// once for each element, in the order in which the query comes upon
    /// the elements.
    ///
    /// # Arguments
    /// * [`rect`] - The rectangle to test for.
    pub fn intersect_aabb_vec(&self, rect: &AABB) -> (ids: Vec<ElementId>)
        requires
            self.wf(),
        ensures
            exists|handles: Seq<int>| self.lists_intersecting(*rect, ids@, handles),
            ids@.to_set() == self.ids_intersecting(*rect),
    {
        let root = self.get_root_node_data();
        let leaves = self.find_leaves_aabb(root, rect, FindLeafHint::Query);
        let hits = self.collect_aabb(rect, leaves);
        hits.0
    }

    /// Calls a function for each ID that occupies space within the
    /// specified bounding box: once for each element that
    /// `intersect_aabb_vec` lists, in that order.
    ///
    /// # Arguments
    /// * [`rect`] - The rectangle to test for.
    /// * [`candidate_fn`] - The function called for each candidate element's ID.
    pub fn intersect_aabb_fn<F>(&self, rect: &AABB, mut candidate_fn: F) where F: FnMut(ElementId)
        requires
            self.wf(),
            forall|id: ElementId| call_requires(candidate_fn, (id,)),
    {
        let hits = self.intersect_aabb_vec(rect);
        let mut i: usize = 0;
        while i < hits.len()
            invariant
                forall|id: ElementId| call_requires(candidate_fn, (id,)),
            decreases hits.len() - i,
        {
            candidate_fn(hits[i]);
            i = i + 1;
        }
    }

    /// Returns the set of IDs of the elements that a query for the shape
    /// finds: those whose rectangle the shape intersects, in the leaves at
    /// which a descent for the shape arrives.
    ///
    /// # Arguments
    /// * [`element`] - The element to test for.
    pub fn intersect_generic<T>(&self, element: &T) -> (ids: HashSet<ElementId>) where T: Intersects<AABB>
        requires
            self.wf(),
        ensures
            obeys_key_model::<ElementId>() ==> ids@ == self.ids_reached(element),
    {
        let root = self.get_root_node_data();
        let leaves = self.find_leaves_generic(root, element);
        let capacity = self.capacity_hint(leaves.len());
        let hits = self.collect_generic(element, leaves);
        Self::to_id_set(hits.0, capacity)
    }

    /// Lists the ID of each element that a query for the shape finds, once
    /// for each element, in the order in which the query comes upon the
    /// elements.
    ///
    /// # Arguments
    /// * [`element`] - The element to test for.
    pub fn intersect_generic_vec<T>(&self, element: &T) -> (ids: Vec<ElementId>) where T: Intersects<AABB>
        requires
            self.wf(),
        ensures
            exists|handles: Seq<int>| self.lists_reached(element, ids@, handles),
            ids@.to_set() == self.ids_reached(element),
    {
        let root = self.get_root_node_data();
        let leaves = self.find_leaves_generic(root, element);
        let hits = self.collect_generic(element, leaves);
        hits.0
    }

    /// Calls a function for each ID that a query for the shape finds: once
    /// for each element that `intersect_generic_vec` lists, in that order.
    ///
    /// # Arguments
    /// * [`element`] - The element to test for.
    /// * [`candidate_fn`] - The function called for each candidate element's ID.
    pub fn intersect_generic_fn<T, F>(&self, element: &T, mut candidate_fn: F) where
        T: Intersects<AABB>,
        F: FnMut(ElementId),

        requires
            self.wf(),
            forall|id: ElementId| call_requires(candidate_fn, (id,)),
    {
        let hits = self.intersect_generic_vec(element);
        let mut i: usize = 0;
        while i < hits.len()
            invariant
                forall|id: ElementId| call_requires(candidate_fn, (id,)),
            decreases hits.len() - i,
        {
            candidate_fn(hits[i]);
            i = i + 1;
        }
    }

    /// Collects all element IDs stored in the tree by visiting all cells.
    pub fn collect_ids(&self) -> (ids: HashSet<ElementId>)
        requires
            self.wf(),
        ensures
            obeys_key_model::<ElementId>() ==> ids@ == self.ids_intersecting(self.root_rect_spec().aabb_spec()),
    {
        let aabb: AABB = self.root_rect.to_aabb();
        self.intersect_aabb(&aabb)
    }

    // ------------------------------------------------------------------
    // Inspection
    // ------------------------------------------------------------------
    /// Lists the leaves of the tree, each with its cell, its depth and the
    /// number of its elements.
    pub fn leaves(&self) -> (infos: Vec<NodeInfo>)
        requires
            self.wf(),
        ensures
            forall|t: int|
                0 <= t < infos@.len() ==> {
                    &&& self.is_leaf_at((#[trigger] infos@[t]).nd.index as int)
                    &&& self.frame_ok(infos@[t].nd)
                    &&& infos@[t].nd.crect.is_valid()
                    &&& infos@[t].element_count == self.leaf_len(infos@[t].nd.index as int)
                    &&& infos@[t].element_count <= self.max_num_elements_spec() || !infos@[t].nd.can_split_further_spec(
                        self.smallest_cell_size_spec(),
                        self.max_depth_spec(),
                    )
                },
            forall|a: int, b: int|
                0 <= a < infos@.len() && 0 <= b < infos@.len() && a != b ==> (#[trigger] infos@[a]).nd.index
                    != (#[trigger] infos@[b]).nd.index,
            forall|i: int|
                self.is_leaf_at(i) ==> exists|t: int| 0 <= t < infos@.len() && (#[trigger] infos@[t]).nd.index == i,
    {
        let mut found = self.find_leaves_all();
        let ghost all = found@;
        let mut infos: Vec<NodeInfo> = Vec::new();
        while !found.is_empty()
            invariant
                self.wf(),
                self.leaves_found(all, 0, all_selector()),
                found@.len() <= all.len(),
                found@ == all.take(found@.len() as int),
                infos@.len() == all.len() - found@.len(),
                forall|t: int|
                    0 <= t < infos@.len() ==> {
                        &&& (#[trigger] infos@[t]).nd == all[all.len() - 1 - t]
                        &&& infos@[t].element_count == self.leaf_len(infos@[t].nd.index as int)
                    },
            decreases found@.len(),
        {
            let ghost rem = found@.len() as int;
            let nd = found.pop_back();
            proof {
                assert(nd == all[rem - 1]);
                assert(self.frame_ok(all[rem - 1]));
                assert(found@ =~= all.take(rem - 1));
                self.lemma_holder(nd.index as int, None, None);
            }
            let count = self.nodes[nd.index as usize].element_count;
            infos.push(NodeInfo::from(nd, count));
        }
        proof {
            assert forall|t: int| 0 <= t < infos@.len() implies {
                &&& self.is_leaf_at((#[trigger] infos@[t]).nd.index as int)
                &&& self.frame_ok(infos@[t].nd)
                &&& infos@[t].nd.crect.is_valid()
                &&& infos@[t].element_count == self.leaf_len(infos@[t].nd.index as int)
                &&& infos@[t].element_count <= self.max_num_elements_spec() || !infos@[t].nd.can_split_further_spec(
                    self.smallest_cell_size_spec(),
                    self.max_depth_spec(),
                )
            } by {
                let o = all.len() - 1 - t;
                assert(self.frame_ok(all[o]));
                self.lemma_node_ok(all[o].index as int);
                self.lemma_leaf_capacity(all[o].index as int);
                self.lemma_frame_of(all[o].index as int);
            }
            assert forall|i: int| self.is_leaf_at(i) implies exists|t: int|
                0 <= t < infos@.len() && (#[trigger] infos@[t]).nd.index == i by {
                assert(self.in_leaves(all, i));
                let o = choose|o: int| 0 <= o < all.len() && (#[trigger] all[o]).index == i;
                assert(infos@[all.len() - 1 - o].nd == all[o]);
            }
        }
        infos
    }

    /// Calls a function for each leaf of the tree: once for each leaf that
    /// `leaves` lists, in that order.
    pub fn visit_leaves<F>(&self, mut visit: F) where F: FnMut(NodeInfo)
        requires
            self.wf(),
            forall|info: NodeInfo| call_requires(visit, (info,)),
    {
        let infos = self.leaves();
        let mut i: usize = 0;
        while i < infos.len()
            invariant
                forall|info: NodeInfo| call_requires(visit, (info,)),
            decreases infos.len() - i,
        {
            visit(infos[i]);
            i = i + 1;
        }
    }

    /// Counts the total number of references from leaves to elements. It
    /// is the number of the elements: every element is referenced from one
    /// leaf.
    pub fn count_element_references(&self) -> (count: usize)
        requires
            self.wf(),
        ensures
            count == self.reference_count(),
            count == self.len_spec(),
    {
        let mut found = self.find_leaves_all();
        let ghost all = found@;
        let ghost mut seen: Seq<int> = Seq::empty();
        let mut count: usize = 0;
        while !found.is_empty()
            invariant
                self.wf(),
                self.leaves_found(all, 0, all_selector()),
                forall|i: int| self.is_leaf_at(i) ==> self.in_leaves(all, i),
                found@.len() <= all.len(),
                found@ == all.take(found@.len() as int),
                count == seen.len(),
                self.references_seen(all, found@.len() as int, seen),
            decreases found@.len(),
        {
            let ghost rem = found@.len() as int;
            let nd = found.pop_back();
            proof {
                assert(nd == all[rem - 1]);
                assert(self.frame_ok(all[rem - 1]));
                assert(found@ =~= all.take(rem - 1));
                self.lemma_holder(nd.index as int, None, None);
                self.lemma_references_step(all, rem, seen);
                let list = self.meta@[nd.index as int].list;
                seen = seen + Seq::new(list.len(), |k: int| list[k] as int);
                self.lemma_references_bound(seen);
            }
            count += self.nodes[nd.index as usize].element_count as usize;
        }
        proof {
            self.lemma_references_bound(seen);
            assert forall|x: int| self.element_nodes.is_live(x) implies seen.contains(x) by {
                reveal(QuadTree::<_>::wf_lists);
                assert(self.owner_ok(x));
                let leaf = self.owner@[x].0;
                self.lemma_list_owner_is_leaf(leaf);
                assert(self.is_leaf_at(leaf));
                assert(self.in_leaves(all, leaf));
                let o = choose|o: int| 0 <= o < all.len() && (#[trigger] all[o]).index == leaf;
                assert(all[o].index == leaf);
                assert(Self::in_frames_from(all, 0, self.owner@[x].0));
            }
            reveal(QuadTree::<_>::wf_elements);
        }
        count
    }

    /// Returns the root node: a leaf with its element count, or a branch.
    pub fn root_node(&self) -> (node: Node)
        requires
            self.wf(),
        ensures
            node == self.root_node_spec(),
            node.is_leaf_spec() == self.root_is_leaf(),
            node.is_leaf_spec() ==> node.element_count == self.len_spec(),
    {
        proof {
            self.lemma_shape();
            if !self.is_branch_at(0) {
                self.lemma_single_leaf();
            }
        }
        self.nodes[0]
    }

    /// Returns the index of the first node of the group of five nodes that
    /// the next split takes from the free pool, or `free_list::SENTINEL` if
    /// the free pool is empty.
    pub fn first_free_node_group(&self) -> (first: free_list::IndexType)
        ensures
            first == self.first_free_node_group_spec(),
    {
        self.free_node
    }
}

} // verus!
