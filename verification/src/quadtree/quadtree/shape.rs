//! The shape of the tree: what follows from it, and what keeps it.

use crate::quadtree::aabb::AABB;
use crate::quadtree::centered_aabb::CenteredAABB;
use crate::quadtree::free_list::{self};
use crate::quadtree::node::Node;
use crate::quadtree::node_data::NodeData;
use crate::quadtree::quadtree::{node_limit, QuadTree, level_limit};
use crate::quadtree::quadtree_element::{ElementIdType};
use vstd::prelude::*;

verus! {

impl<ElementId> QuadTree<ElementId> where ElementId: ElementIdType {
    /// The frame of the root node.
    pub(crate) fn get_root_node_data(&self) -> (nd: NodeData)
        requires
            self.wf_shape(),
        ensures
            self.frame_ok(nd),
            nd.index == 0,
            nd.crect.is_valid(),
    {
        proof {
            self.lemma_shape();
        }
        NodeData::new_from_root(&self.root_rect, true)
    }

    /// What the shape of the tree says of the node vector and of the root.
    pub(crate) proof fn lemma_shape(&self)
        requires
            self.wf_shape(),
        ensures
            1 <= self.nodes@.len() <= free_list::SENTINEL,
            self.nodes@.len() <= node_limit(),
            self.nodes@.len() < crate::quadtree::node_list::stack_limit(),
            (self.nodes@.len() - 1) % 5 == 0,
            self.meta@.len() == self.nodes@.len(),
            self.in_tree(0),
            self.node_ok(0),
            self.level(0) == 0,
            self.meta@[0].cell == self.root_rect.centered_spec(),
            self.meta@[0].depth == 0,
            self.meta@[0].can_split,
    {
        reveal(QuadTree::<_>::wf_shape);
    }

    /// What the shape of the tree says of a node that is reachable from
    /// the root.
    pub(crate) proof fn lemma_node_ok(&self, i: int)
        requires
            self.wf_shape(),
            self.in_tree(i),
        ensures
            self.node_ok(i),
            0 <= i < self.nodes@.len(),
            self.meta@.len() == self.nodes@.len(),
            0 <= self.level(i) < level_limit(),
    {
        reveal(QuadTree::<_>::wf_shape);
    }

    /// What the shape of the tree says of a node that is not reachable
    /// from the root.
    pub(crate) proof fn lemma_node_free(&self, i: int)
        requires
            self.wf_shape(),
            0 <= i < self.nodes@.len(),
            !self.in_tree(i),
        ensures
            self.spare_ok(i),
            self.nodes@[i].element_count == 0,
            i % 5 != 1 ==> self.nodes@[i] == Node::empty_leaf(),
    {
        reveal(QuadTree::<_>::wf_shape);
        assert(self.spare_ok(i));
    }

    /// The nodes on the way from the root to a node are nodes of the tree,
    /// and the way to each of them is the beginning of that way.
    pub(crate) proof fn lemma_chain_prefix(&self, j: int, l: int)
        requires
            self.wf_shape(),
            self.in_tree(j),
            0 <= l <= self.level(j),
        ensures
            self.in_tree(self.meta@[j].chain[l]),
            self.meta@[self.meta@[j].chain[l]].chain == self.meta@[j].chain.take(l + 1),
            self.level(self.meta@[j].chain[l]) == l,
            self.under(j, self.meta@[j].chain[l]),
        decreases self.level(j) - l,
    {
        let chain = self.meta@[j].chain;
        self.lemma_node_ok(j);
        if l == self.level(j) {
            assert(chain.take(l + 1) == chain);
        } else {
            let p = chain[chain.len() - 2];
            self.lemma_chain_prefix(p, l);
            assert(chain.drop_last().take(l + 1) == chain.take(l + 1));
        }
    }

    /// The children of a branch of the tree are nodes of the tree, one
    /// level below the branch.
    pub(crate) proof fn lemma_child(&self, i: int, k: int)
        requires
            self.wf_shape(),
            self.in_tree(i),
            self.is_branch_at(i),
            0 <= k < 5,
        ensures
            self.in_tree(self.child(i, k)),
            self.child(i, k) != 0,
            self.child(i, k) < self.nodes@.len(),
            self.level(self.child(i, k)) == self.level(i) + 1,
            self.level(i) + 1 < level_limit(),
            self.under(self.child(i, k), i),
            self.meta@[self.child(i, k)] == self.child_meta(i, k),
            self.meta@[i].cell.is_valid(),
            self.meta@[i].depth < self.max_depth,
            k == 0 ==> !self.is_branch_at(self.child(i, k)),
    {
        self.lemma_node_ok(i);
        let c = self.child(i, k);
        assert(self.meta@[c] == self.child_meta(i, k));
        assert(self.in_tree(c));
        self.lemma_node_ok(c);
        assert(self.meta@[c].chain[self.level(i)] == self.meta@[i].chain[self.level(i)]);
    }

    /// A node below another node lies below one of the children of that
    /// node, which is a branch.
    pub(crate) proof fn lemma_under_child(&self, j: int, i: int)
        requires
            self.wf_shape(),
            self.under(j, i),
            j != i,
        ensures
            self.level(i) < self.level(j),
            self.is_branch_at(i),
            ({
                let c = self.meta@[j].chain[self.level(i) + 1];
                &&& 0 <= self.meta@[c].slot < 5
                &&& c == self.child(i, self.meta@[c].slot)
                &&& self.under(j, c)
                &&& self.level(c) == self.level(i) + 1
            }),
    {
        self.lemma_node_ok(j);
        self.lemma_node_ok(i);
        let li = self.level(i);
        if self.level(j) == li {
            assert(self.meta@[j].chain.last() == j);
        }
        let c = self.meta@[j].chain[li + 1];
        self.lemma_chain_prefix(j, li + 1);
        self.lemma_chain_prefix(j, li);
        self.lemma_node_ok(c);
        let chain_c = self.meta@[c].chain;
        assert(chain_c == self.meta@[j].chain.take(li + 2));
        assert(chain_c[chain_c.len() - 2] == i);
    }

    /// A node that lies below a node which lies below a third one lies
    /// below the third one.
    pub(crate) proof fn lemma_under_trans(&self, a: int, b: int, c: int)
        requires
            self.wf_shape(),
            self.under(a, b),
            self.under(b, c),
        ensures
            self.under(a, c),
    {
        self.lemma_node_ok(c);
        self.lemma_chain_prefix(a, self.level(b));
    }

    /// Of two nodes on one level, neither lies below the other.
    pub(crate) proof fn lemma_under_same_level(&self, a: int, b: int)
        requires
            self.wf_shape(),
            self.under(a, b),
            self.level(a) == self.level(b),
        ensures
            a == b,
    {
        self.lemma_node_ok(a);
    }

    /// A child lies below what its parent lies below, itself excepted.
    pub(crate) proof fn lemma_under_parent(&self, e: int, k: int, s: int)
        requires
            self.wf_shape(),
            self.in_tree(e),
            self.is_branch_at(e),
            0 <= k < 5,
            self.under(self.child(e, k), s),
            s != self.child(e, k),
        ensures
            self.under(e, s),
    {
        self.lemma_child(e, k);
        let c = self.child(e, k);
        self.lemma_node_ok(s);
        if self.level(s) == self.level(c) {
            self.lemma_under_same_level(c, s);
        }
        assert(self.meta@[c].chain == self.meta@[e].chain.push(c));
        assert(self.meta@[c].chain[self.level(s)] == self.meta@[e].chain[self.level(s)]);
    }

    /// The frame of a node of the tree describes that node.
    pub(crate) proof fn lemma_frame_of(&self, i: int)
        requires
            self.wf_shape(),
            self.in_tree(i),
        ensures
            self.frame_ok(self.frame_of(i)),
            self.frame_of(i).index == i,
    {
        self.lemma_shape();
        self.lemma_node_ok(i);
        NodeData::lemma_of_can_split(i as u32, self.meta@[i].depth, self.meta@[i].cell, self.meta@[i].can_split);
    }

    /// The nodes of the tree are finitely many.
    pub(crate) proof fn lemma_tree_nodes_finite(&self)
        requires
            self.wf_shape(),
        ensures
            self.tree_nodes().finite(),
            self.tree_size() <= self.nodes@.len(),
    {
        self.lemma_shape();
        let n = self.nodes@.len() as int;
        let nodes = self.tree_nodes();
        vstd::set_lib::lemma_int_range(0, n);
        assert(nodes.subset_of(vstd::set_lib::set_int_range(0, n)));
        vstd::set_lib::lemma_len_subset(nodes, vstd::set_lib::set_int_range(0, n));
    }

    /// A tree whose root is a leaf has no branch.
    pub(crate) proof fn lemma_root_leaf_minimal(&self)
        requires
            self.wf_shape(),
            !self.is_branch_at(0),
        ensures
            self.is_minimal(),
            forall|i: int| self.in_tree(i) ==> i == 0,
    {
        self.lemma_shape();
        assert forall|i: int| self.in_tree(i) implies i == 0 by {
            self.lemma_node_ok(i);
            if i != 0 {
                assert(self.under(i, 0));
                self.lemma_under_child(i, 0);
            }
        }
    }

    /// Whether a node lies on the way of a rectangle depends on the places
    /// of the nodes only.
    pub(crate) proof fn lemma_on_path_frame(&self, before: &Self, i: int, rect: AABB)
        requires
            before.wf_shape(),
            before.in_tree(i),
            self.keeps_places(before),
        ensures
            self.on_path(i, rect) == before.on_path(i, rect),
    {
        let chain = before.meta@[i].chain;
        assert(self.meta@[i].chain == chain);
        assert forall|l: int| 0 <= l < chain.len() - 1 implies (self.meta@[#[trigger] chain[l + 1]].slot
            == self.meta@[chain[l]].cell.slot_of(&rect)) == (before.meta@[chain[l + 1]].slot
            == before.meta@[chain[l]].cell.slot_of(&rect)) by {
            before.lemma_chain_prefix(i, l);
            before.lemma_chain_prefix(i, l + 1);
        }
    }

    /// A tree that differs from a consistent tree in nodes that are not
    /// reachable from the root only has the shape of a tree.
    pub(crate) proof fn lemma_same_shape(&self, before: &Self)
        requires
            before.wf_shape(),
            self.root_rect == before.root_rect,
            self.max_depth == before.max_depth,
            before.nodes@.len() <= self.nodes@.len() <= node_limit(),
            (self.nodes@.len() - 1) % 5 == 0,
            self.meta@.len() == self.nodes@.len(),
            forall|j: int| 0 <= j < before.meta@.len() ==> #[trigger] self.meta@[j] == before.meta@[j],
            forall|j: int| before.meta@.len() <= j < self.meta@.len() ==> !(#[trigger] self.meta@[j]).in_tree,
            forall|j: int| before.in_tree(j) ==> #[trigger] self.nodes@[j] == before.nodes@[j],
            forall|j: int| 0 <= j < self.nodes@.len() && !self.in_tree(j) ==> #[trigger] self.spare_ok(j),
        ensures
            self.wf_shape(),
            self.keeps_places(before),
            forall|j: int| self.in_tree(j) <==> before.in_tree(j),
    {
        reveal(QuadTree::<_>::wf_shape);
        assert forall|j: int| self.in_tree(j) <==> before.in_tree(j) by {
            if 0 <= j < before.meta@.len() {
                assert(self.meta@[j] == before.meta@[j]);
            }
        }
        assert forall|i: int| self.in_tree(i) implies #[trigger] self.node_ok(i) by {
            assert(before.node_ok(i));
            let m = self.meta@[i];
            if i != 0 {
                let p = m.chain[m.chain.len() - 2];
                assert(before.in_tree(p));
                assert(self.nodes@[p] == before.nodes@[p]);
            }
            if self.is_branch_at(i) {
                assert forall|k: int| 0 <= k < 5 implies #[trigger] self.meta@[self.child(i, k)]
                    == self.child_meta(i, k) by {
                    assert(before.meta@[before.child(i, k)] == before.child_meta(i, k));
                }
            }
        }
    }

    /// A tree that differs from a consistent tree in nodes that are not
    /// reachable from the root only has consistent lists.
    pub(crate) proof fn lemma_same_lists(&self, before: &Self, splitting: Option<int>)
        requires
            before.wf_shape(),
            before.wf_lists(splitting),
            self.element_nodes == before.element_nodes,
            self.owner == before.owner,
            self.max_num_elements == before.max_num_elements,
            self.smallest_cell_size == before.smallest_cell_size,
            self.max_depth == before.max_depth,
            before.meta@.len() <= self.meta@.len(),
            self.meta@.len() == self.nodes@.len(),
            forall|j: int| 0 <= j < before.meta@.len() ==> #[trigger] self.meta@[j] == before.meta@[j],
            forall|j: int| before.in_tree(j) ==> #[trigger] self.nodes@[j] == before.nodes@[j],
            forall|j: int| self.in_tree(j) <==> before.in_tree(j),
        ensures
            self.wf_lists(splitting),
    {
        reveal(QuadTree::<_>::wf_lists);
        before.lemma_shape();
        assert forall|i: int| self.in_tree(i) implies #[trigger] self.list_ok(i) by {
            assert(before.list_ok(i));
            assert(self.meta@[i] == before.meta@[i]);
        }
        assert forall|i: int| self.in_tree(i) implies #[trigger] self.holder_ok(i, splitting) by {
            assert(before.in_tree(i));
            assert(before.holder_ok(i, splitting));
            assert(before.nodes@[i] == self.nodes@[i]);
            assert(self.meta@[i] == before.meta@[i]);
        }
        assert forall|h: int| self.element_nodes.is_live(h) implies #[trigger] self.owner_ok(h) by {
            assert(before.owner_ok(h));
            let i = before.owner@[h].0;
            assert(before.in_tree(i));
            assert(self.meta@[i] == before.meta@[i]);
        }
    }

    /// A tree that keeps the free lists of a consistent tree, and the
    /// places of its nodes, holds its elements consistently.
    pub(crate) proof fn lemma_same_elements(
        &self,
        before: &Self,
        pending: Option<int>,
        splitting: Option<int>,
    )
        requires
            before.wf_shape(),
            before.wf_lists(splitting),
            before.wf_elements(pending),
            self.element_ids == before.element_ids,
            self.element_rects == before.element_rects,
            self.element_nodes == before.element_nodes,
            self.root_rect == before.root_rect,
            self.owner == before.owner,
            self.node_of == before.node_of,
            self.keeps_places(before),
        ensures
            self.wf_elements(pending),
    {
        reveal(QuadTree::<_>::wf_elements);
        reveal(QuadTree::<_>::wf_lists);
        assert forall|h: int| self.element_nodes.is_live(h) implies #[trigger] self.reference_ok(h, pending) by {
            assert(before.reference_ok(h, pending));
        }
        assert forall|e: int| self.element_ids.is_live(e) implies #[trigger] self.element_ok(e, pending) by {
            assert(before.element_ok(e, pending));
            if Some(e) != pending {
                let h = before.node_of@[e];
                assert(before.owner_ok(h));
                let leaf = before.owner@[h].0;
                self.lemma_on_path_frame(before, leaf, before.element_rects@[e]);
            }
        }
    }

    /// A tree that keeps the places of the nodes of a consistent tree, its
    /// branches, and which of its nodes are leaves, has the shape of a tree.
    pub(crate) proof fn lemma_shape_frame(&self, before: &Self)
        requires
            before.wf_shape(),
            self.root_rect == before.root_rect,
            self.max_depth == before.max_depth,
            self.nodes@.len() == before.nodes@.len(),
            self.meta@.len() == before.meta@.len(),
            forall|j: int|
                0 <= j < before.meta@.len() ==> Self::same_place(#[trigger] self.meta@[j], before.meta@[j]),
            forall|j: int|
                before.in_tree(j) ==> {
                    &&& #[trigger] self.is_branch_at(j) == before.is_branch_at(j)
                    &&& before.is_branch_at(j) ==> self.nodes@[j] == before.nodes@[j]
                },
            forall|j: int| 0 <= j < self.nodes@.len() && !self.in_tree(j) ==> #[trigger] self.spare_ok(j),
        ensures
            self.wf_shape(),
            self.keeps_places(before),
            forall|j: int| self.in_tree(j) <==> before.in_tree(j),
    {
        reveal(QuadTree::<_>::wf_shape);
        assert forall|j: int| self.in_tree(j) <==> before.in_tree(j) by {
            if 0 <= j < before.meta@.len() {
                assert(Self::same_place(self.meta@[j], before.meta@[j]));
            }
        }
        assert(Self::same_place(self.meta@[0], before.meta@[0]));
        assert forall|i: int| self.in_tree(i) implies #[trigger] self.node_ok(i) by {
            assert(before.node_ok(i));
            assert(Self::same_place(self.meta@[i], before.meta@[i]));
            assert(self.is_branch_at(i) == before.is_branch_at(i));
            let m = self.meta@[i];
            if i != 0 {
                let p = m.chain[m.chain.len() - 2];
                assert(before.in_tree(p));
                assert(self.is_branch_at(p) == before.is_branch_at(p));
                assert(Self::same_place(self.meta@[p], before.meta@[p]));
            }
            if self.is_branch_at(i) {
                assert forall|k: int| 0 <= k < 5 implies #[trigger] self.meta@[self.child(i, k)]
                    == self.child_meta(i, k) by {
                    let c = before.child(i, k);
                    assert(before.meta@[c] == before.child_meta(i, k));
                    assert(Self::same_place(self.meta@[c], before.meta@[c]));
                }
            }
        }
    }

    /// A tree that keeps the free pool of a consistent tree and the nodes
    /// that are not reachable from the root has a consistent free pool.
    pub(crate) proof fn lemma_free_frame(&self, before: &Self)
        requires
            before.wf_free(None),
            self.free_node == before.free_node,
            self.free_groups == before.free_groups,
            before.nodes@.len() == self.nodes@.len(),
            before.meta@.len() == before.nodes@.len(),
            forall|j: int| 0 <= j < before.nodes@.len() ==> (#[trigger] self.in_tree(j) <==> before.in_tree(j)),
            forall|j: int|
                0 <= j < before.nodes@.len() && !before.in_tree(j) ==> #[trigger] self.nodes@[j]
                    == before.nodes@[j],
        ensures
            self.wf_free(None),
    {
        reveal(QuadTree::<_>::wf_free);
        let groups = self.free_groups@;
        assert forall|g: int| 0 <= g < groups.len() implies #[trigger] self.group_ok(g) by {
            assert(before.group_ok(g));
            let first = groups[g];
            assert(!before.in_tree(first as int));
            assert forall|j: int| first <= j < first + 5 implies !#[trigger] self.in_tree(j) by {
                assert(!before.in_tree(j));
            }
        }
        assert forall|j: int| 0 <= j < self.nodes@.len() && !self.in_tree(j) implies #[trigger] self.in_free_pool(
            j,
        ) by {
            assert(!before.in_tree(j));
            assert(before.in_free_pool(j));
            let g = choose|g: int|
                0 <= g < groups.len() && (#[trigger] groups[g]) <= j < groups[g] + 5;
            assert(self.free_groups@[g] <= j < self.free_groups@[g] + 5);
        }
    }

    /// Keeping the places of the nodes is transitive.
    pub(crate) proof fn lemma_keeps_places_trans(&self, mid: &Self, before: &Self)
        requires
            self.keeps_places(mid),
            mid.keeps_places(before),
        ensures
            self.keeps_places(before),
    {
        assert forall|j: int| before.in_tree(j) implies Self::same_place(
            #[trigger] self.meta@[j],
            before.meta@[j],
        ) by {
            assert(Self::same_place(mid.meta@[j], before.meta@[j]));
            assert(mid.in_tree(j));
            assert(Self::same_place(self.meta@[j], mid.meta@[j]));
        }
    }

    /// Every tree has the same nodes as itself.
    pub(crate) proof fn lemma_same_tree_refl(&self)
        ensures
            self.same_tree_as(self),
    {
        assert forall|j: int| 0 <= j < self.meta@.len() implies Self::same_place(
            #[trigger] self.meta@[j],
            self.meta@[j],
        ) by {}
    }

    /// Having the same nodes is transitive.
    pub(crate) proof fn lemma_same_tree_trans(&self, mid: &Self, other: &Self)
        requires
            self.same_tree_as(mid),
            mid.same_tree_as(other),
        ensures
            self.same_tree_as(other),
    {
        assert forall|j: int| 0 <= j < self.meta@.len() implies Self::same_place(
            #[trigger] self.meta@[j],
            other.meta@[j],
        ) && self.is_branch_at(j) == other.is_branch_at(j) by {
            assert(Self::same_place(self.meta@[j], mid.meta@[j]));
            assert(Self::same_place(mid.meta@[j], other.meta@[j]));
        }
    }

    /// A tree with the same nodes keeps the places of the nodes.
    pub(crate) proof fn lemma_same_tree_keeps(&self, other: &Self)
        requires
            self.same_tree_as(other),
        ensures
            self.keeps_places(other),
    {
        assert forall|j: int| other.in_tree(j) implies Self::same_place(
            #[trigger] self.meta@[j],
            other.meta@[j],
        ) by {}
    }

    /// A descent arrives at the same nodes in trees with the same nodes.
    pub(crate) proof fn lemma_same_reach(&self, other: &Self, i: int, sel: spec_fn(CenteredAABB, int) -> bool)
        requires
            self.wf_shape(),
            other.wf_shape(),
            self.same_tree_as(other),
            self.in_tree(i),
        ensures
            self.reach(i, 0, sel) == other.reach(i, 0, sel),
            self.is_leaf_at(i) == other.is_leaf_at(i),
    {
        self.lemma_shape();
        other.lemma_shape();
        self.lemma_node_ok(i);
        assert(Self::same_place(self.meta@[i], other.meta@[i]));
        assert(Self::same_place(self.meta@[0], other.meta@[0]));
        let chain = self.meta@[i].chain;
        assert forall|l: int| 0 <= l <= self.level(i) implies Self::same_place(
            self.meta@[#[trigger] chain[l]],
            other.meta@[chain[l]],
        ) by {
            self.lemma_chain_prefix(i, l);
        }
        assert forall|l: int| self.level(0) <= l < self.level(i) implies sel(
            self.meta@[chain[l]].cell,
            self.meta@[#[trigger] chain[l + 1]].slot,
        ) == sel(other.meta@[chain[l]].cell, other.meta@[chain[l + 1]].slot) by {
            assert(Self::same_place(self.meta@[chain[l]], other.meta@[chain[l]]));
            assert(Self::same_place(self.meta@[chain[l + 1]], other.meta@[chain[l + 1]]));
        }
    }

    /// The work that frames stand for does not depend on which nodes are
    /// reachable from the root.
    pub(crate) proof fn lemma_weight_same(&self, before: &Self, frames: Seq<NodeData>)
        requires
            self.meta@.len() == before.meta@.len(),
            forall|j: int| 0 <= j < before.meta@.len() ==> (#[trigger] self.meta@[j]).chain == before.meta@[j].chain,
            forall|k: int| 0 <= k < frames.len() ==> (#[trigger] frames[k]).index < before.meta@.len(),
        ensures
            self.stack_weight(frames) == before.stack_weight(frames),
        decreases frames.len(),
    {
        if frames.len() > 0 {
            self.lemma_weight_same(before, frames.drop_last());
            assert(frames.last() == frames[frames.len() - 1]);
            let j = frames.last().index as int;
            assert(self.meta@[j].chain == before.meta@[j].chain);
        }
    }
}

} // verus!
