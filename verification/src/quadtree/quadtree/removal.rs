//! Taking an element node out of the list of its leaf.

use crate::quadtree::free_list::{self, IndexType};
use crate::quadtree::node::Node;
use crate::quadtree::quadtree::{FindLeafHint, NodeMeta, QuadTree, aabb_selector};
use crate::quadtree::quadtree_element::{ElementIdType, QuadTreeElement, QuadTreeElementNode};
use vstd::prelude::*;

verus! {

impl<ElementId> QuadTree<ElementId> where ElementId: ElementIdType {
    /// Takes the element node at position `k` out of the list of a leaf
    /// and erases it. Its element stays behind without an element node.
    pub(crate) fn unlink_element_node(
        &mut self,
        leaf: u32,
        element_node: free_list::IndexType,
        prev_element_node: free_list::IndexType,
        Ghost(k): Ghost<int>,
    )
        requires
            old(self).wf(),
            old(self).is_leaf_at(leaf as int),
            0 <= k < old(self).meta@[leaf as int].list.len(),
            old(self).meta@[leaf as int].list[k] == element_node,
            k + 1 < old(self).meta@[leaf as int].list.len() ==> old(self).meta@[leaf as int].list[k + 1]
                == prev_element_node,
        ensures
            final(self).wf_during(Some(old(self).element_at(leaf as int, k)), None),
            final(self).element_ids == old(self).element_ids,
            final(self).element_rects == old(self).element_rects,
            final(self).root_rect == old(self).root_rect,
            final(self).max_depth == old(self).max_depth,
            final(self).max_num_elements == old(self).max_num_elements,
            final(self).smallest_cell_size == old(self).smallest_cell_size,
            final(self).nodes@.len() == old(self).nodes@.len(),
            final(self).is_branch_at(0) == old(self).is_branch_at(0),
            final(self).same_tree_as(old(self)),
            final(self).element_nodes.capacity_spec() == old(self).element_nodes.capacity_spec(),
            final(self).element_nodes.free_handles().len() == old(self).element_nodes.free_handles().len() + 1,
    {
        proof {
            self.lemma_holder(leaf as int, None, None);
            self.lemma_list_entry(leaf as int, k, None, None);
            if k + 1 < self.meta@[leaf as int].list.len() {
                self.lemma_list_entry(leaf as int, k + 1, None, None);
            }
            self.lemma_shape();
        }
        let ghost c = leaf as int;
        let ghost list = self.meta@[c].list;
        let ghost h = element_node as int;
        let ghost e = self.element_at(c, k);
        let elem_node = *self.element_nodes.at(element_node);
        let first = self.nodes[leaf as usize].first_child_or_element;
        let count = self.nodes[leaf as usize].element_count;

        // If the element to be deleted is the first element,
        // we need to update the leaf.
        let mut new_first = first;
        if first == element_node {
            new_first = elem_node.next;
            proof {
                assert(self.owner@[list[list.len() - 1] as int] == (c, (list.len() - 1) as int)) by {
                    self.lemma_list_entry(c, list.len() - 1, None, None);
                }
                assert(k == list.len() - 1);
            }
        } else {
            // Update the previous node.
            proof {
                assert(k + 1 < list.len());
            }
            let prev_node = *self.element_nodes.at(prev_element_node);
            self.element_nodes.set(
                prev_element_node,
                QuadTreeElementNode { element_idx: prev_node.element_idx, next: elem_node.next },
            );
        }

        // Remove the reference from this leaf.
        self.element_nodes.erase(element_node);
        self.nodes[leaf as usize] = Node { first_child_or_element: new_first, element_count: count - 1 };
        proof {
            let m = self.meta@[c];
            let new_list = list.remove(k);
            self.meta@ = self.meta@.update(
                c,
                NodeMeta {
                    in_tree: m.in_tree,
                    chain: m.chain,
                    slot: m.slot,
                    cell: m.cell,
                    depth: m.depth,
                    can_split: m.can_split,
                    list: new_list,
                },
            );
            let old_owner = self.owner@;
            self.owner@ = Map::new(
                |x: int| old_owner.dom().contains(x),
                |x: int|
                    if old_owner[x].0 == c && old_owner[x].1 > k {
                        (c, old_owner[x].1 - 1)
                    } else {
                        old_owner[x]
                    },
            );
            // The shape and the free pool.
            assert forall|j: int| 0 <= j < self.nodes@.len() && !self.in_tree(j) implies #[trigger] self.spare_ok(
                j,
            ) by {
                old(self).lemma_node_free(j);
            }
            self.lemma_shape_frame(old(self));
            self.lemma_free_frame(old(self));
            assert(self.same_tree_as(old(self))) by {
                assert forall|j: int| 0 <= j < self.meta@.len() implies Self::same_place(
                    #[trigger] self.meta@[j],
                    old(self).meta@[j],
                ) && self.is_branch_at(j) == old(self).is_branch_at(j) by {}
            }
            reveal(QuadTree::<_>::wf_lists);
            reveal(QuadTree::<_>::wf_elements);
            self.element_nodes.lemma_handles();
            old(self).element_nodes.lemma_handles();
            old(self).lemma_list_len(c, None);
            // The lists.
            assert forall|i: int| self.in_tree(i) implies #[trigger] self.list_ok(i) by {
                assert(old(self).list_ok(i));
                let l = self.meta@[i].list;
                assert forall|t: int| 0 <= t < l.len() implies {
                    let x = #[trigger] l[t];
                    &&& self.element_nodes.is_live(x as int)
                    &&& self.owner@.dom().contains(x as int)
                    &&& self.owner@[x as int] == (i, t)
                    &&& self.element_nodes@[x as int].next == (if t > 0 {
                        l[t - 1]
                    } else {
                        free_list::SENTINEL
                    })
                } by {
                    if i == c {
                        if t < k {
                            assert(l[t] == list[t]);
                            assert(old_owner[list[t] as int] == (c, t));
                            assert(old_owner[list[k] as int] == (c, k));
                            if k + 1 < list.len() {
                                assert(old_owner[list[k + 1] as int] == (c, k + 1));
                            }
                        } else {
                            assert(l[t] == list[t + 1]);
                            assert(old_owner[list[t + 1] as int] == (c, t + 1));
                            assert(old_owner[list[k] as int] == (c, k));
                            if t > k {
                                assert(l[t - 1] == list[t]);
                                assert(old_owner[list[k + 1] as int] == (c, k + 1));
                            }
                        }
                    } else {
                        let x = old(self).meta@[i].list[t];
                        assert(old_owner[x as int] == (i, t));
                        assert(old_owner[list[k] as int] == (c, k));
                        if k + 1 < list.len() {
                            assert(old_owner[list[k + 1] as int] == (c, k + 1));
                        }
                    }
                }
            }
            assert forall|i: int| self.in_tree(i) implies #[trigger] self.holder_ok(i, None) by {
                assert(old(self).holder_ok(i, None));
                if i == c {
                    if k == list.len() - 1 {
                        assert(new_list =~= list.drop_last());
                    } else {
                        assert(new_list.last() == list.last());
                    }
                }
            }
            assert forall|x: int| self.element_nodes.is_live(x) implies #[trigger] self.owner_ok(x) by {
                assert(old(self).element_nodes.is_live(x));
                assert(old(self).owner_ok(x));
                let i = old_owner[x].0;
                let t = old_owner[x].1;
                if i == c {
                    assert(list[t] == x);
                    if t > k {
                        assert(new_list[t - 1] == list[t]);
                    } else {
                        assert(t != k);
                        assert(new_list[t] == list[t]);
                    }
                }
            }
            assert(self.wf_lists(None));
            // The elements.
            assert(old(self).reference_ok(h, None));
            assert forall|x: int| self.element_nodes.is_live(x) implies #[trigger] self.reference_ok(x, Some(e)) by {
                assert(old(self).reference_ok(x, None));
            }
            assert forall|x: int| self.element_ids.is_live(x) implies #[trigger] self.element_ok(x, Some(e)) by {
                assert(old(self).element_ok(x, None));
                if x != e {
                    let y = old(self).node_of@[x];
                    assert(old(self).owner_ok(y));
                    self.lemma_on_path_frame(old(self), old_owner[y].0, self.element_rects@[x]);
                }
            }
            assert(self.wf_elements(Some(e)));
        }
    }

    /// The leaf of an element is the leaf that holds the elements with its
    /// rectangle.
    pub(crate) proof fn lemma_leaf_is_target(&self, e: int)
        requires
            self.wf(),
            self.element_ids.is_live(e),
        ensures
            self.target_leaf(self.element_rects@[e]) == self.leaf_of(e),
            self.is_leaf_at(self.leaf_of(e)),
            0 <= self.owner@[self.node_of@[e]].1 < self.target_elements(self.element_rects@[e]).len(),
            self.target_elements(self.element_rects@[e])[self.owner@[self.node_of@[e]].1] == e,
    {
        let rect = self.element_rects@[e];
        let leaf = self.leaf_of(e);
        self.lemma_element_entry(e, None, None);
        self.lemma_list_owner_is_leaf(leaf);
        self.lemma_on_path_is_reach(leaf, rect);
        let sel = aabb_selector(rect, FindLeafHint::Mutate);
        assert(self.is_leaf_at(leaf) && self.reach(leaf, 0, sel));
        let target = self.target_leaf(rect);
        assert(self.is_leaf_at(target) && self.reach(target, 0, sel));
        self.lemma_target_unique(target, leaf, rect);
    }

    /// The newest element of a leaf is the one that `remove` takes out for
    /// its ID and its rectangle.
    pub(crate) proof fn lemma_newest_is_candidate(&self, e: int, element: QuadTreeElement<ElementId>)
        requires
            self.wf(),
            self.element_ids.is_live(e),
            self.elements()[e] == element,
            self.is_newest_in_leaf(e),
        ensures
            self.removal_candidate(element) == Some(e),
    {
        self.lemma_leaf_is_target(e);
        let handles = self.target_elements(element.rect);
        assert(handles[handles.len() - 1] == e);
    }
}

} // verus!
