//! What holds of every consistent tree, and of what its operations do to it.

use crate::quadtree::aabb::AABB;
use crate::quadtree::quadtree::{FindLeafHint, QuadTree, aabb_selector};
use crate::quadtree::quadtree_element::{ElementIdType, QuadTreeElement};
use vstd::prelude::*;

verus! {

impl<ElementId> QuadTree<ElementId> where ElementId: ElementIdType {
    /// The nodes of the tree are finitely many, the root among them; the
    /// root is a leaf exactly if it is the only one.
    pub proof fn lemma_tree_nodes(&self)
        requires
            self.wf(),
        ensures
            self.tree_nodes().finite(),
            self.tree_size() >= 1,
            self.tree_size() <= self.node_count(),
            self.root_is_leaf() <==> self.tree_size() == 1,
    {
        self.lemma_shape();
        let n = self.nodes@.len() as int;
        let nodes = self.tree_nodes();
        vstd::set_lib::lemma_int_range(0, n);
        assert(nodes.subset_of(vstd::set_lib::set_int_range(0, n)));
        vstd::set_lib::lemma_len_subset(nodes, vstd::set_lib::set_int_range(0, n));
        assert(nodes.contains(0));
        if self.root_is_leaf() {
            self.lemma_root_leaf_minimal();
            assert(nodes =~= set![0int]);
        } else {
            self.lemma_child(0, 0);
            let c = self.child(0, 0);
            assert(nodes.contains(c));
            assert(nodes.remove(0).contains(c));
        }
    }

    /// A leaf holds no more elements than a leaf may hold, unless it cannot
    /// be split.
    pub proof fn lemma_leaf_capacity(&self, i: int)
        requires
            self.wf(),
            self.is_leaf_at(i),
        ensures
            self.leaf_len(i) <= self.max_num_elements_spec() || !self.splittable(i),
    {
        reveal(QuadTree::<_>::wf_lists);
        assert(self.holder_ok(i, None));
    }

    /// Every node of the node vector is reachable from the root or lies in
    /// the free pool, and none is both.
    pub proof fn lemma_reachable_or_free(&self, j: int)
        requires
            self.wf(),
            0 <= j < self.node_count(),
        ensures
            self.in_tree(j) != self.in_free_pool(j),
    {
        reveal(QuadTree::<_>::wf_free);
        if self.in_free_pool(j) {
            let g = choose|g: int|
                0 <= g < self.free_groups@.len() && (#[trigger] self.free_groups@[g]) <= j < self.free_groups@[g]
                    + 5;
            assert(self.group_ok(g));
        }
    }

    /// The leaves hold one reference for each element: the number of the
    /// references is the number of the elements.
    pub proof fn lemma_reference_count(&self)
        requires
            self.wf(),
        ensures
            self.elements().dom().finite(),
            self.len_spec() == self.elements().dom().len(),
            self.reference_count() == self.len_spec(),
            self.reference_count() >= self.elements().dom().len(),
    {
        reveal(QuadTree::<_>::wf_elements);
        self.element_ids.lemma_live_count();
        assert(self.elements().dom() =~= self.element_ids@.dom());
    }

    /// Every element of the tree lies inside the extents of the tree.
    pub proof fn lemma_elements_inside(&self, h: int)
        requires
            self.wf(),
            self.elements().dom().contains(h),
        ensures
            self.root_rect_spec().is_valid(),
            self.root_rect_spec().contains_spec(&self.elements()[h].rect),
    {
        reveal(QuadTree::<_>::wf_elements);
        assert(self.element_ok(h, None));
    }

    /// A query for the extents of the tree finds the IDs of all elements of
    /// the tree, provided that the rectangles of the elements are
    /// rectangles: that their corners are in order.
    pub proof fn lemma_full_query(&self)
        requires
            self.wf(),
            forall|h: int| self.elements().dom().contains(h) ==> (#[trigger] self.elements()[h]).rect.is_valid(),
        ensures
            self.ids_intersecting(self.root_rect_spec().aabb_spec()) == self.ids(),
    {
        let root = self.root_rect_spec().aabb_spec();
        assert forall|id: ElementId| self.ids_intersecting(root).contains(id) <==> self.ids().contains(id) by {
            if self.ids_intersecting(root).contains(id) {
                let h = choose|h: int| self.hits(h, id, root);
                assert(self.holds(h, id));
            }
            if self.ids().contains(id) {
                let h = choose|h: int| self.holds(h, id);
                self.lemma_elements_inside(h);
                crate::quadtree::quad_rect::lemma_contained_intersects(
                    self.root_rect_spec(),
                    self.elements()[h].rect,
                );
                assert(self.hits(h, id, root));
            }
        }
        assert(self.ids_intersecting(root) =~= self.ids());
    }

    /// A query for the rectangle of an element that was inserted finds the
    /// ID of that element, provided that the rectangle is a rectangle: that
    /// its corners are in order.
    pub proof fn lemma_insert_then_query(before: &Self, inserted: &Self, element: QuadTreeElement<ElementId>)
        requires
            inserted.elements() == before.elements().insert(before.next_handle(), element),
            element.rect.is_valid(),
        ensures
            inserted.ids_intersecting(element.rect).contains(element.id),
    {
        crate::quadtree::aabb::lemma_intersects_reflexive(element.rect);
        assert(inserted.hits(before.next_handle(), element.id, element.rect));
    }

    /// The search for the newest element with an ID finds one if there is
    /// one, and the newest one.
    pub proof fn lemma_newest_with_id(&self, handles: Seq<int>, id: ElementId, n: int)
        requires
            0 <= n <= handles.len(),
        ensures
            -1 <= self.newest_with_id(handles, id, n) < n,
            self.newest_with_id(handles, id, n) >= 0 ==> self.elements()[handles[self.newest_with_id(
                handles,
                id,
                n,
            )]].id == id,
            forall|k: int|
                self.newest_with_id(handles, id, n) < k < n ==> (#[trigger] self.elements()[handles[k]]).id
                    != id,
        decreases n,
    {
        if n > 0 && self.elements()[handles[n - 1]].id != id {
            self.lemma_newest_with_id(handles, id, n - 1);
        }
    }

    /// An element whose ID no other element has is the one that `remove`
    /// takes out for its ID and its rectangle.
    pub proof fn lemma_removal_finds_stored(&self, h: int, element: QuadTreeElement<ElementId>)
        requires
            self.wf(),
            self.elements().dom().contains(h),
            self.elements()[h] == element,
            forall|other: int|
                self.elements().dom().contains(other) && other != h ==> (#[trigger] self.elements()[other]).id
                    != element.id,
        ensures
            self.removal_candidate(element) == Some(h),
    {
        self.lemma_leaf_is_target(h);
        let handles = self.target_elements(element.rect);
        let n = handles.len() as int;
        let pos = self.owner@[self.node_of@[h]].1;
        self.lemma_newest_with_id(handles, element.id, n);
        let k = self.newest_with_id(handles, element.id, n);
        assert(self.elements()[handles[pos]].id == element.id);
        assert(k >= pos);
        let leaf = self.target_leaf(element.rect);
        self.lemma_list_entry(leaf, k, None, None);
        assert(handles[k] == self.element_at(leaf, k));
    }

    /// Removing an element right after it was inserted gives back the
    /// elements that the tree held before: what `insert` stores is what
    /// `remove` takes out, so that every query answers as before.
    pub proof fn lemma_insert_then_remove(
        before: &Self,
        inserted: &Self,
        removed: &Self,
        element: QuadTreeElement<ElementId>,
    )
        requires
            !before.elements().dom().contains(before.next_handle()),
            inserted.elements() == before.elements().insert(before.next_handle(), element),
            inserted.removal_candidate(element) == Some(before.next_handle()),
            removed.elements() == inserted.elements().remove(before.next_handle()),
        ensures
            removed.elements() == before.elements(),
            removed.ids() == before.ids(),
            forall|rect: AABB| #[trigger] removed.ids_intersecting(rect) == before.ids_intersecting(rect),
    {
        assert(removed.elements() =~= before.elements());
        assert(removed.ids() =~= before.ids()) by {
            assert forall|id: ElementId| removed.ids().contains(id) <==> before.ids().contains(id) by {
                if removed.ids().contains(id) {
                    let h = choose|h: int| removed.holds(h, id);
                    assert(before.holds(h, id));
                }
                if before.ids().contains(id) {
                    let h = choose|h: int| before.holds(h, id);
                    assert(removed.holds(h, id));
                }
            }
        }
        assert forall|rect: AABB| #[trigger] removed.ids_intersecting(rect) == before.ids_intersecting(rect) by {
            assert forall|id: ElementId|
                removed.ids_intersecting(rect).contains(id) <==> before.ids_intersecting(rect).contains(id) by {
                if removed.ids_intersecting(rect).contains(id) {
                    let h = choose|h: int| removed.hits(h, id, rect);
                    assert(before.hits(h, id, rect));
                }
                if before.ids_intersecting(rect).contains(id) {
                    let h = choose|h: int| before.hits(h, id, rect);
                    assert(removed.hits(h, id, rect));
                }
            }
            assert(removed.ids_intersecting(rect) =~= before.ids_intersecting(rect));
        }
    }

    /// A tree without elements in which nothing is left to fold consists
    /// of its root alone, which is a leaf without elements.
    pub proof fn lemma_minimal_empty_tree(&self)
        requires
            self.wf(),
            self.is_minimal(),
            self.len_spec() == 0,
        ensures
            self.root_is_leaf(),
            self.root_node_spec().is_leaf_spec(),
            self.root_node_spec().element_count == 0,
    {
        self.lemma_shape();
        if self.is_branch_at(0) {
            let c = self.lemma_find_foldable(0);
            assert(!self.compactable(c));
        }
        self.lemma_single_leaf();
    }

    /// A descent for a mutation arrives at a leaf.
    pub proof fn lemma_target_exists(&self, rect: AABB)
        requires
            self.wf_shape(),
        ensures
            self.is_leaf_at(self.target_leaf(rect)),
            self.reach(self.target_leaf(rect), 0, aabb_selector(rect, FindLeafHint::Mutate)),
    {
        self.lemma_shape();
        self.lemma_reach_self(0, aabb_selector(rect, FindLeafHint::Mutate));
        let leaf = self.lemma_descend(0, rect);
    }

    /// What trees with the same nodes have in common.
    pub proof fn lemma_same_tree_as(&self, other: &Self)
        requires
            self.wf_shape(),
            other.wf_shape(),
            self.same_tree_as(other),
        ensures
            self.node_count() == other.node_count(),
            self.tree_nodes() == other.tree_nodes(),
            self.tree_size() == other.tree_size(),
            self.root_is_leaf() == other.root_is_leaf(),
            forall|i: int| #[trigger] self.in_tree(i) == other.in_tree(i),
            forall|i: int| self.in_tree(i) ==> #[trigger] self.is_branch_at(i) == other.is_branch_at(i),
            forall|i: int| self.in_tree(i) ==> #[trigger] self.frame_of(i) == other.frame_of(i),
            forall|i: int| self.in_tree(i) ==> #[trigger] self.splittable(i) == other.splittable(i),
            forall|rect: AABB| #[trigger] self.target_leaf(rect) == other.target_leaf(rect),
    {
        self.lemma_shape();
        other.lemma_shape();
        assert forall|i: int| #[trigger] self.in_tree(i) == other.in_tree(i) by {
            if 0 <= i < self.meta@.len() {
                assert(Self::same_place(self.meta@[i], other.meta@[i]));
            }
        }
        assert(self.tree_nodes() =~= other.tree_nodes());
        assert forall|i: int| self.in_tree(i) implies #[trigger] self.is_branch_at(i) == other.is_branch_at(i)
            && self.frame_of(i) == other.frame_of(i) && self.splittable(i) == other.splittable(i) by {
            assert(Self::same_place(self.meta@[i], other.meta@[i]));
        }
        assert(Self::same_place(self.meta@[0], other.meta@[0]));
        assert forall|rect: AABB| #[trigger] self.target_leaf(rect) == other.target_leaf(rect) by {
            let sel = aabb_selector(rect, FindLeafHint::Mutate);
            assert forall|i: int|
                (self.is_leaf_at(i) && self.reach(i, 0, sel)) == (other.is_leaf_at(i) && other.reach(i, 0, sel)) by {
                if self.in_tree(i) {
                    self.lemma_same_reach(other, i, sel);
                }
            }
            let mine = self.target_leaf(rect);
            let theirs = other.target_leaf(rect);
            if exists|i: int| self.is_leaf_at(i) && self.reach(i, 0, sel) {
                assert(self.is_leaf_at(mine) && self.reach(mine, 0, sel));
                assert(other.is_leaf_at(mine) && other.reach(mine, 0, sel));
                assert(other.is_leaf_at(theirs) && other.reach(theirs, 0, sel));
                other.lemma_target_unique(mine, theirs, rect);
            } else {
                // No leaf is the target: both choices are the choice among nothing.
                assert forall|i: int| !(other.is_leaf_at(i) && other.reach(i, 0, sel)) by {
                    assert((self.is_leaf_at(i) && self.reach(i, 0, sel)) == (other.is_leaf_at(i) && other.reach(
                        i,
                        0,
                        sel,
                    )));
                }
                self.lemma_target_exists(rect);
            }
        }
    }
}

} // verus!
