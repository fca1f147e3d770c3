//! Placing an element in a leaf, and splitting a leaf that is full.

use crate::quadtree::aabb::AABB;
use crate::quadtree::free_list::{self, IndexType};
use crate::quadtree::node::Node;
use crate::quadtree::node_data::NodeData;
use crate::quadtree::quadtree::{node_limit, NodeMeta, QuadTree, head_of};
use crate::quadtree::quadtree_element::{ElementIdType, QuadTreeElementNode};
use vstd::prelude::*;

verus! {

impl<ElementId> QuadTree<ElementId> where ElementId: ElementIdType {
    /// One more empty leaf behind fresh nodes.
    pub(crate) proof fn lemma_fresh_push(nodes: Seq<Node>, meta: Seq<NodeMeta>, from: int, fresh: NodeMeta)
        requires
            nodes.len() == meta.len(),
            from == nodes.len() || Self::fresh_from(nodes, meta, from),
            0 <= from <= nodes.len(),
            !fresh.in_tree,
        ensures
            Self::fresh_from(nodes.push(Node::empty_leaf()), meta.push(fresh), from),
    {
        let more_nodes = nodes.push(Node::empty_leaf());
        let more_meta = meta.push(fresh);
        assert forall|j: int| from <= j < more_nodes.len() implies !(#[trigger] more_meta[j]).in_tree
            && more_nodes[j] == Node::empty_leaf() by {
            if j < nodes.len() {
                assert(more_meta[j] == meta[j]);
                assert(more_nodes[j] == nodes[j]);
            }
        }
    }

    /// What holds of a fresh node.
    pub(crate) proof fn lemma_fresh_at(nodes: Seq<Node>, meta: Seq<NodeMeta>, from: int, j: int)
        requires
            Self::fresh_from(nodes, meta, from),
            from <= j < nodes.len(),
        ensures
            !meta[j].in_tree,
            nodes[j] == Node::empty_leaf(),
    {
        let m = meta[j];
        assert(!m.in_tree && nodes[j] == Node::empty_leaf());
    }

    /// Recycles child nodes from the free list or creates
    /// new child nodes if needed.
    ///
    /// Returns the index of the first of five empty leaves that are neither
    /// reachable from the root nor in the free pool.
    pub(crate) fn ensure_child_nodes_exist(
        &mut self,
        Ghost(pending): Ghost<Option<int>>,
    ) -> (first: u32)
        requires
            old(self).wf_during(pending, None),
            old(self).nodes@.len() + 5 <= node_limit(),
        ensures
            final(self).wf_limbo(pending, first as int),
            final(self).same_but_group(old(self), first as int),
            1 <= first,
            first % 5 == 1,
            first + 4 < final(self).nodes@.len(),
            forall|j: int|
                first <= j < first + 5 ==> {
                    &&& !#[trigger] final(self).in_tree(j)
                    &&& final(self).nodes@[j] == Node::empty_leaf()
                },
            forall|g: int| 0 <= g < final(self).free_groups@.len() ==> #[trigger] final(self).free_groups@[g] != first,
            old(self).nodes@.len() < final(self).nodes@.len() ==> first == old(self).nodes@.len()
                && final(self).nodes@.len() == first + 5,
    {
        proof {
            reveal(QuadTree::<_>::wf_free);
            self.lemma_shape();
        }
        if self.free_node != free_list::SENTINEL {
            let node_index = self.free_node;
            let ghost groups = self.free_groups@;
            proof {
                assert(groups.len() > 0 && groups[0] == node_index);
                assert(self.group_ok(0));
            }
            let next_free_node = self.nodes[node_index as usize].first_child_or_element;
            self.nodes[node_index as usize] = Node::default();
            self.free_node = next_free_node;
            self.free_groups = Ghost(groups.drop_first());
            proof {
                let first = node_index as int;
                assert forall|j: int| first <= j < first + 5 implies !#[trigger] self.in_tree(j) && self.nodes@[j]
                    == Node::empty_leaf() by {
                    assert(!old(self).in_tree(j));
                    old(self).lemma_node_free(j);
                    if j != first {
                        assert(self.nodes@[j] == old(self).nodes@[j]);
                    }
                }
                assert forall|j: int| 0 <= j < self.nodes@.len() && !self.in_tree(j) implies #[trigger] self.spare_ok(
                    j,
                ) by {
                    assert(!old(self).in_tree(j));
                    old(self).lemma_node_free(j);
                }
                self.lemma_same_shape(old(self));
                self.lemma_same_lists(old(self), None);
                self.lemma_same_elements(old(self), pending, None);
                let new_groups = self.free_groups@;
                assert forall|g: int| 0 <= g < new_groups.len() implies #[trigger] new_groups[g] != node_index by {
                    assert(new_groups[g] == groups[g + 1]);
                }
                assert forall|g: int| 0 <= g < new_groups.len() implies #[trigger] self.group_ok(g) by {
                    assert(old(self).group_ok(g + 1));
                    assert(new_groups[g] == groups[g + 1]);
                    if g + 1 < new_groups.len() {
                        assert(new_groups[g + 1] == groups[g + 2]);
                    }
                    let other = new_groups[g];
                    assert forall|j: int| other <= j < other + 5 implies !#[trigger] self.in_tree(j) by {
                        assert(!old(self).in_tree(j));
                    }
                }
                assert forall|j: int| 0 <= j < self.nodes@.len() && !self.in_tree(j) implies #[trigger] self.in_free_pool(
                    j,
                ) || first <= j < first + 5 by {
                    assert(!old(self).in_tree(j));
                    assert(old(self).in_free_pool(j));
                    let g = choose|g: int|
                        0 <= g < groups.len() && (#[trigger] groups[g]) <= j < groups[g] + 5;
                    if g > 0 {
                        assert(new_groups[g - 1] == groups[g]);
                    }
                }
                assert(self.wf_free(Some(first)));
            }
            node_index
        } else {
            let node_index = self.nodes.len() as IndexType;
            let ghost free_meta = NodeMeta {
                in_tree: false,
                chain: Seq::empty(),
                slot: 0,
                cell: self.meta@[0].cell,
                depth: 0,
                can_split: false,
                list: Seq::empty(),
            };
            // The first node captures all elements spanning more than one child.
            self.nodes.push(Node::default());
            self.meta = Ghost(self.meta@.push(free_meta));
            proof {
                Self::lemma_fresh_push(old(self).nodes@, old(self).meta@, old(self).nodes@.len() as int, free_meta);
            }
            // The four childs.
            let mut added: usize = 0;
            while added < 4
                invariant
                    added <= 4,
                    self.nodes@.len() == old(self).nodes@.len() + 1 + added,
                    self.meta@.len() == self.nodes@.len(),
                    old(self).nodes@.len() + 5 <= node_limit(),
                    old(self).meta@.len() == old(self).nodes@.len(),
                    forall|j: int| 0 <= j < old(self).nodes@.len() ==> #[trigger] self.nodes@[j] == old(self).nodes@[j],
                    forall|j: int| 0 <= j < old(self).meta@.len() ==> #[trigger] self.meta@[j] == old(self).meta@[j],
                    Self::fresh_from(self.nodes@, self.meta@, old(self).nodes@.len() as int),
                    self.element_ids == old(self).element_ids,
                    self.element_rects == old(self).element_rects,
                    self.element_nodes == old(self).element_nodes,
                    self.root_rect == old(self).root_rect,
                    self.max_num_elements == old(self).max_num_elements,
                    self.smallest_cell_size == old(self).smallest_cell_size,
                    self.max_depth == old(self).max_depth,
                    self.owner == old(self).owner,
                    self.node_of == old(self).node_of,
                    self.free_node == old(self).free_node,
                    self.free_groups == old(self).free_groups,
                    !free_meta.in_tree,
                decreases 4 - added,
            {
                let ghost nodes_before = self.nodes@;
                let ghost meta_before = self.meta@;
                self.nodes.push(Node::default());
                self.meta = Ghost(self.meta@.push(free_meta));
                proof {
                    Self::lemma_fresh_push(nodes_before, meta_before, old(self).nodes@.len() as int, free_meta);
                }
                added = added + 1;
            }
            proof {
                assert forall|j: int| old(self).nodes@.len() <= j < self.nodes@.len() implies !(
                #[trigger] self.meta@[j]).in_tree && self.nodes@[j] == Node::empty_leaf() by {
                    Self::lemma_fresh_at(self.nodes@, self.meta@, old(self).nodes@.len() as int, j);
                }
                assert forall|j: int| 0 <= j < self.nodes@.len() && !self.in_tree(j) implies #[trigger] self.spare_ok(
                    j,
                ) by {
                    if j < old(self).nodes@.len() {
                        assert(self.meta@[j] == old(self).meta@[j]);
                        old(self).lemma_node_free(j);
                    } else {
                        assert(!self.meta@[j].in_tree);
                    }
                }
                self.lemma_same_shape(old(self));
                self.lemma_same_lists(old(self), None);
                self.lemma_same_elements(old(self), pending, None);
                let groups = self.free_groups@;
                if groups.len() > 0 {
                    assert(old(self).group_ok(0));
                }
                assert(groups.len() == 0);
                assert forall|j: int| 0 <= j < self.nodes@.len() && !self.in_tree(j) implies #[trigger] self.in_free_pool(
                    j,
                ) || node_index <= j < node_index + 5 by {
                    if j < old(self).nodes@.len() {
                        assert(self.meta@[j] == old(self).meta@[j]);
                        assert(!old(self).in_tree(j));
                        assert(old(self).in_free_pool(j));
                    }
                }
                assert(self.wf_free(Some(node_index as int)));
                assert forall|j: int| node_index <= j < node_index + 5 implies !#[trigger] self.in_tree(j)
                    && self.nodes@[j] == Node::empty_leaf() by {
                    assert(!self.meta@[j].in_tree);
                }
            }
            node_index
        }
    }

    /// Puts the element that is being inserted into a leaf: a new element
    /// node for it becomes the head of the list of the leaf.
    pub(crate) fn insert_element_in_child_node(&mut self, child_index: u32, element: free_list::IndexType)
        requires
            old(self).wf_during(Some(element as int), None),
            old(self).in_tree(child_index as int),
            !old(self).is_branch_at(child_index as int),
            old(self).on_path(child_index as int, old(self).element_rects@[element as int]),
            old(self).meta@[child_index as int].list.len() < old(self).max_num_elements || !old(self).splittable(
                child_index as int,
            ),
        ensures
            final(self).wf(),
            final(self).element_ids == old(self).element_ids,
            final(self).element_rects == old(self).element_rects,
            final(self).root_rect == old(self).root_rect,
            final(self).max_depth == old(self).max_depth,
            final(self).max_num_elements == old(self).max_num_elements,
            final(self).smallest_cell_size == old(self).smallest_cell_size,
            final(self).nodes@.len() == old(self).nodes@.len(),
            final(self).pushed_to_list(
                old(self),
                child_index as int,
                old(self).element_nodes.next_handle() as IndexType,
            ),
            !final(self).is_branch_at(child_index as int),
            final(self).leaf_of(element as int) == child_index,
            final(self).node_of@[element as int] == old(self).element_nodes.next_handle(),
            final(self).element_nodes@[old(self).element_nodes.next_handle()].element_idx == element,
            final(self).element_nodes.capacity_spec() - final(self).element_nodes.free_handles().len() == old(
                self,
            ).element_nodes.capacity_spec() - old(self).element_nodes.free_handles().len() + 1,
            final(self).is_newest_in_leaf(element as int),
            final(self).same_tree_as(old(self)),
    {
        proof {
            reveal(QuadTree::<_>::wf_elements);
            reveal(QuadTree::<_>::wf_lists);
            self.lemma_shape();
            self.lemma_node_ok(child_index as int);
            self.lemma_list_len(child_index as int, None);
            self.element_nodes.lemma_handles();
            self.element_ids.lemma_handles();
            assert(self.holder_ok(child_index as int, None));
        }
        let ghost c = child_index as int;
        let ghost e = element as int;
        let ghost list = self.meta@[c].list;
        let first = self.nodes[child_index as usize].first_child_or_element;
        let count = self.nodes[child_index as usize].element_count;
        let element_node_index = self.element_nodes.insert(
            QuadTreeElementNode { element_idx: element, next: first },
        );
        let ghost h = element_node_index as int;
        self.nodes[child_index as usize] = Node {
            first_child_or_element: element_node_index,
            element_count: count + 1,
        };
        proof {
            let m = self.meta@[c];
            self.meta@ = self.meta@.update(
                c,
                NodeMeta {
                    in_tree: m.in_tree,
                    chain: m.chain,
                    slot: m.slot,
                    cell: m.cell,
                    depth: m.depth,
                    can_split: m.can_split,
                    list: m.list.push(element_node_index),
                },
            );
            self.owner@ = self.owner@.insert(h, (c, list.len() as int));
            self.node_of@ = self.node_of@.insert(e, h);
            // The shape and the free pool.
            assert forall|j: int| 0 <= j < self.nodes@.len() && !self.in_tree(j) implies #[trigger] self.spare_ok(
                j,
            ) by {
                old(self).lemma_node_free(j);
            }
            self.lemma_shape_frame(old(self));
            self.lemma_free_frame(old(self));
            assert(self.same_tree_as(old(self))) by {
                assert forall|j: int| 0 <= j < self.meta@.len() implies Self::same_place(
                    #[trigger] self.meta@[j],
                    old(self).meta@[j],
                ) && self.is_branch_at(j) == old(self).is_branch_at(j) by {}
            }
            // The lists.
            self.element_nodes.lemma_handles();
            assert forall|i: int| self.in_tree(i) implies #[trigger] self.list_ok(i) by {
                assert(old(self).list_ok(i));
                let l = self.meta@[i].list;
                assert forall|k: int| 0 <= k < l.len() implies {
                    let x = #[trigger] l[k];
                    &&& self.element_nodes.is_live(x as int)
                    &&& self.owner@.dom().contains(x as int)
                    &&& self.owner@[x as int] == (i, k)
                    &&& self.element_nodes@[x as int].next == (if k > 0 {
                        l[k - 1]
                    } else {
                        free_list::SENTINEL
                    })
                } by {
                    if i == c && k == list.len() {
                    } else {
                        let x = old(self).meta@[i].list[k];
                        assert(l[k] == x);
                        assert(old(self).element_nodes.is_live(x as int));
                    }
                }
            }
            assert forall|i: int| self.in_tree(i) implies #[trigger] self.holder_ok(i, None) by {
                assert(old(self).holder_ok(i, None));
            }
            assert forall|x: int| self.element_nodes.is_live(x) implies #[trigger] self.owner_ok(x) by {
                if x != h {
                    assert(old(self).owner_ok(x));
                }
            }
            assert(self.wf_lists(None));
            // The elements.
            assert forall|x: int| self.element_nodes.is_live(x) implies #[trigger] self.reference_ok(x, None) by {
                if x != h {
                    assert(old(self).reference_ok(x, Some(e)));
                }
            }
            assert forall|x: int| self.element_ids.is_live(x) implies #[trigger] self.element_ok(x, None) by {
                assert(old(self).element_ok(x, Some(e)));
                if x == e {
                    self.lemma_on_path_frame(old(self), c, self.element_rects@[e]);
                } else {
                    let y = old(self).node_of@[x];
                    assert(old(self).owner_ok(y));
                    self.lemma_on_path_frame(old(self), old(self).owner@[y].0, self.element_rects@[x]);
                }
            }
            assert(self.wf_elements(None));
        }
    }

    /// Moves the newest of the element nodes that the node `parent`, which
    /// is being split, still holds to the list of one of its children.
    pub(crate) fn insert_element_node_in_child_node(
        &mut self,
        child_index: u32,
        element_node: free_list::IndexType,
        Ghost(pending): Ghost<Option<int>>,
        Ghost(parent): Ghost<int>,
        Ghost(k): Ghost<int>,
    )
        requires
            old(self).wf_during(pending, Some(parent)),
            old(self).in_tree(parent),
            old(self).is_branch_at(parent),
            0 <= k < 5,
            child_index == old(self).child(parent, k),
            !old(self).is_branch_at(child_index as int),
            old(self).meta@[parent].list.len() > 0,
            old(self).meta@[parent].list.last() == element_node,
            k == old(self).meta@[parent].cell.slot_of(
                &old(self).element_rects@[old(self).element_nodes@[element_node as int].element_idx as int],
            ),
            old(self).room_in_children(parent),
        ensures
            final(self).wf_during(pending, Some(parent)),
            final(self).room_in_children(parent),
            final(self).element_ids == old(self).element_ids,
            final(self).element_rects == old(self).element_rects,
            final(self).root_rect == old(self).root_rect,
            final(self).max_depth == old(self).max_depth,
            final(self).max_num_elements == old(self).max_num_elements,
            final(self).smallest_cell_size == old(self).smallest_cell_size,
            final(self).node_of == old(self).node_of,
            final(self).free_groups == old(self).free_groups,
            final(self).nodes@.len() == old(self).nodes@.len(),
            final(self).element_nodes.capacity_spec() == old(self).element_nodes.capacity_spec(),
            final(self).element_nodes.free_handles() == old(self).element_nodes.free_handles(),
            final(self).keeps_places(old(self)),
            old(self).keeps_places(final(self)),
            forall|j: int| 0 <= j < old(self).nodes@.len() ==> #[trigger] final(self).is_branch_at(j) == old(self).is_branch_at(j),
            forall|j: int|
                0 <= j < old(self).nodes@.len() && old(self).is_branch_at(j) ==> #[trigger] final(self).nodes@[j]
                    == old(self).nodes@[j],
            final(self).meta@[parent].list == old(self).meta@[parent].list.drop_last(),
    {
        proof {
            reveal(QuadTree::<_>::wf_elements);
            reveal(QuadTree::<_>::wf_lists);
            self.lemma_shape();
            self.lemma_child(parent, k);
            self.lemma_node_ok(child_index as int);
            self.lemma_two_lists_len(child_index as int, parent, Some(parent));
            self.element_nodes.lemma_handles();
            self.element_ids.lemma_handles();
            assert(self.holder_ok(child_index as int, Some(parent)));
            assert(self.list_ok(parent));
        }
        let ghost c = child_index as int;
        let ghost h = element_node as int;
        let ghost list = self.meta@[c].list;
        let ghost rest = self.meta@[parent].list.drop_last();
        let first = self.nodes[child_index as usize].first_child_or_element;
        let count = self.nodes[child_index as usize].element_count;
        let element_idx = self.element_nodes.at(element_node).element_idx;
        let ghost e = element_idx as int;
        self.element_nodes.set(element_node, QuadTreeElementNode { element_idx, next: first });
        self.nodes[child_index as usize] = Node { first_child_or_element: element_node, element_count: count + 1 };
        proof {
            let m = self.meta@[c];
            let mp = self.meta@[parent];
            self.meta@ = self.meta@.update(
                c,
                NodeMeta {
                    in_tree: m.in_tree,
                    chain: m.chain,
                    slot: m.slot,
                    cell: m.cell,
                    depth: m.depth,
                    can_split: m.can_split,
                    list: m.list.push(element_node),
                },
            ).update(
                parent,
                NodeMeta {
                    in_tree: mp.in_tree,
                    chain: mp.chain,
                    slot: mp.slot,
                    cell: mp.cell,
                    depth: mp.depth,
                    can_split: mp.can_split,
                    list: rest,
                },
            );
            self.owner@ = self.owner@.insert(h, (c, list.len() as int));
            // The shape and the free pool.
            assert forall|j: int| 0 <= j < self.nodes@.len() && !self.in_tree(j) implies #[trigger] self.spare_ok(
                j,
            ) by {
                old(self).lemma_node_free(j);
            }
            self.lemma_shape_frame(old(self));
            self.lemma_free_frame(old(self));
            assert(old(self).keeps_places(self)) by {
                assert forall|j: int| self.in_tree(j) implies Self::same_place(
                    #[trigger] old(self).meta@[j],
                    self.meta@[j],
                ) by {
                    assert(Self::same_place(self.meta@[j], old(self).meta@[j]));
                }
            }
            // The lists.
            self.element_nodes.lemma_handles();
            assert forall|i: int| self.in_tree(i) implies #[trigger] self.list_ok(i) by {
                assert(old(self).list_ok(i));
                let l = self.meta@[i].list;
                assert forall|t: int| 0 <= t < l.len() implies {
                    let x = #[trigger] l[t];
                    &&& self.element_nodes.is_live(x as int)
                    &&& self.owner@.dom().contains(x as int)
                    &&& self.owner@[x as int] == (i, t)
                    &&& self.element_nodes@[x as int].next == (if t > 0 {
                        l[t - 1]
                    } else {
                        free_list::SENTINEL
                    })
                } by {
                    if i == c && t == list.len() {
                    } else {
                        let x = old(self).meta@[i].list[t];
                        assert(l[t] == x);
                        assert(old(self).owner@[x as int] == (i, t));
                        assert(old(self).owner@[h] == (parent, rest.len() as int));
                    }
                }
            }
            assert forall|i: int| self.in_tree(i) implies #[trigger] self.holder_ok(i, Some(parent)) by {
                assert(old(self).holder_ok(i, Some(parent)));
            }
            assert forall|x: int| self.element_nodes.is_live(x) implies #[trigger] self.owner_ok(x) by {
                assert(old(self).element_nodes.is_live(x));
                assert(old(self).owner_ok(x));
                if x != h {
                    let i = old(self).owner@[x].0;
                    let t = old(self).owner@[x].1;
                    if i == parent {
                        assert(old(self).owner@[h] == (parent, rest.len() as int));
                        assert(t != rest.len());
                    }
                }
            }
            assert(self.wf_lists(Some(parent)));
            // The elements.
            assert forall|x: int| self.element_nodes.is_live(x) implies #[trigger] self.reference_ok(x, pending) by {
                assert(old(self).reference_ok(x, pending));
            }
            assert(old(self).reference_ok(h, pending));
            assert forall|x: int| self.element_ids.is_live(x) implies #[trigger] self.element_ok(x, pending) by {
                assert(old(self).element_ok(x, pending));
                if Some(x) != pending {
                    let y = old(self).node_of@[x];
                    assert(old(self).owner_ok(y));
                    if y == h {
                        assert(x == e);
                        old(self).lemma_on_path_child(parent, k, self.element_rects@[e]);
                        self.lemma_on_path_frame(old(self), c, self.element_rects@[e]);
                    } else {
                        self.lemma_on_path_frame(old(self), old(self).owner@[y].0, self.element_rects@[x]);
                    }
                }
            }
            assert(self.wf_elements(pending));
            assert forall|t: int| 0 <= t < 5 implies (#[trigger] self.meta@[self.child(parent, t)]).list.len()
                + self.meta@[parent].list.len() <= self.max_num_elements by {
                old(self).lemma_child(parent, t);
                assert(self.nodes@[parent] == old(self).nodes@[parent]);
                let other = old(self).child(parent, t);
                assert(old(self).meta@[other].list.len() + old(self).meta@[parent].list.len()
                    <= old(self).max_num_elements);
            }
        }
    }

    /// Assigns an element to the child nodes starting at `first_child_index`.
    ///
    /// The element node moves to the straddler bucket if the rectangle of
    /// its element crosses a center line of the parent (or reaches no
    /// quadrant), else to the one quadrant that the rectangle lies in.
    ///
    /// # Params
    /// * [`mx`] - The center X coordinate of the parent node.
    /// * [`my`] - The center Y coordinate of the parent node.
    /// * [`first_child_index`] - The index of the first child node.
    /// * [`element_node`] - The handle of the element node.
    /// * [`element_rect`] - The rectangle of the element.
    pub(crate) fn assign_element_to_child_nodes(
        &mut self,
        mx: i32,
        my: i32,
        first_child_index: free_list::IndexType,
        element_node: free_list::IndexType,
        element_rect: &AABB,
        Ghost(pending): Ghost<Option<int>>,
        Ghost(parent): Ghost<int>,
    )
        requires
            old(self).wf_during(pending, Some(parent)),
            old(self).in_tree(parent),
            old(self).is_branch_at(parent),
            first_child_index == old(self).child(parent, 0),
            forall|k: int| 0 <= k < 5 ==> !old(self).is_branch_at(#[trigger] old(self).child(parent, k)),
            old(self).meta@[parent].list.len() > 0,
            old(self).meta@[parent].list.last() == element_node,
            mx == old(self).meta@[parent].cell.center_x,
            my == old(self).meta@[parent].cell.center_y,
            *element_rect == old(self).element_rects@[old(self).element_nodes@[element_node as int].element_idx as int],
            old(self).room_in_children(parent),
        ensures
            final(self).wf_during(pending, Some(parent)),
            final(self).room_in_children(parent),
            final(self).element_ids == old(self).element_ids,
            final(self).element_rects == old(self).element_rects,
            final(self).root_rect == old(self).root_rect,
            final(self).max_depth == old(self).max_depth,
            final(self).max_num_elements == old(self).max_num_elements,
            final(self).smallest_cell_size == old(self).smallest_cell_size,
            final(self).node_of == old(self).node_of,
            final(self).free_groups == old(self).free_groups,
            final(self).nodes@.len() == old(self).nodes@.len(),
            final(self).element_nodes.capacity_spec() == old(self).element_nodes.capacity_spec(),
            final(self).element_nodes.free_handles() == old(self).element_nodes.free_handles(),
            final(self).keeps_places(old(self)),
            old(self).keeps_places(final(self)),
            forall|j: int| 0 <= j < old(self).nodes@.len() ==> #[trigger] final(self).is_branch_at(j) == old(self).is_branch_at(j),
            forall|j: int|
                0 <= j < old(self).nodes@.len() && old(self).is_branch_at(j) ==> #[trigger] final(self).nodes@[j]
                    == old(self).nodes@[j],
            final(self).meta@[parent].list == old(self).meta@[parent].list.drop_last(),
    {
        proof {
            self.lemma_shape();
            self.lemma_child(parent, 4);
            self.lemma_child(parent, 0);
        }
        let insert_left = element_rect.tl.x <= mx;
        let insert_right = element_rect.br.x > mx;
        let insert_top = element_rect.tl.y <= my;
        let insert_bottom = element_rect.br.y > my;

        // If an element covers more than one child node, we store it separately.
        let covers_many = (insert_top && insert_bottom) || (insert_left && insert_right);
        let offset: u32 = if covers_many {
            0
        } else if insert_top && insert_left {
            1
        } else if insert_top && insert_right {
            2
        } else if insert_bottom && insert_left {
            3
        } else if insert_bottom && insert_right {
            4
        } else {
            0
        };
        proof {
            let k = offset as int;
            assert(self.child(parent, k) == first_child_index + offset);
            assert(!self.is_branch_at(self.child(parent, k)));
            assert(k == self.meta@[parent].cell.slot_of(element_rect));
        }
        self.insert_element_node_in_child_node(
            first_child_index + offset,
            element_node,
            Ghost(pending),
            Ghost(parent),
            Ghost(offset as int),
        );
    }

    /// A leaf that becomes a branch with five empty leaves as its children
    /// leaves the tree consistent; the element nodes of the leaf wait to be
    /// moved to the children.
    pub(crate) proof fn lemma_split_start(&self, before: &Self, parent: int, first: int, pending: Option<int>)
        requires
            before.wf_limbo(pending, first),
            before.in_tree(parent),
            !before.is_branch_at(parent),
            before.meta@[parent].can_split,
            before.meta@[parent].depth < before.max_depth,
            1 <= first,
            first % 5 == 1,
            first + 4 < before.nodes@.len(),
            forall|j: int|
                first <= j < first + 5 ==> {
                    &&& !#[trigger] before.in_tree(j)
                    &&& before.nodes@[j] == Node::empty_leaf()
                },
            forall|g: int| 0 <= g < before.free_groups@.len() ==> #[trigger] before.free_groups@[g] != first,
            self.element_ids == before.element_ids,
            self.element_rects == before.element_rects,
            self.element_nodes == before.element_nodes,
            self.root_rect == before.root_rect,
            self.max_num_elements == before.max_num_elements,
            self.smallest_cell_size == before.smallest_cell_size,
            self.max_depth == before.max_depth,
            self.owner == before.owner,
            self.node_of == before.node_of,
            self.free_node == before.free_node,
            self.free_groups == before.free_groups,
            self.nodes@ == before.nodes@.update(parent, Node::branch(first as u32)),
            self.meta@.len() == before.meta@.len(),
            forall|j: int|
                0 <= j < before.meta@.len() && !(first <= j < first + 5) ==> #[trigger] self.meta@[j]
                    == before.meta@[j],
            forall|k: int| 0 <= k < 5 ==> self.meta@[first + k] == #[trigger] before.new_child_meta(parent, first, k),
        ensures
            self.wf_during(pending, Some(parent)),
            self.keeps_places(before),
            self.in_tree(parent),
            self.is_branch_at(parent),
            self.child(parent, 0) == first,
            forall|k: int| 0 <= k < 5 ==> !self.is_branch_at(#[trigger] self.child(parent, k)),
            self.meta@[parent] == before.meta@[parent],
            self.tree_nodes() == before.tree_nodes().insert(first).insert(first + 1).insert(first + 2).insert(
                first + 3,
            ).insert(first + 4),
            forall|j: int|
                before.in_tree(j) && j != parent ==> #[trigger] self.is_branch_at(j) == before.is_branch_at(j),
    {
        before.lemma_shape();
        before.lemma_node_ok(parent);
        assert forall|j: int| 0 <= j < self.meta@.len() implies (#[trigger] self.in_tree(j) <==> (before.in_tree(j)
            || first <= j < first + 5)) by {
            if first <= j < first + 5 {
                assert(self.meta@[first + (j - first)] == before.new_child_meta(parent, first, j - first));
            } else {
                assert(self.meta@[j] == before.meta@[j]);
            }
        }
        assert(self.keeps_places(before)) by {
            assert forall|j: int| before.in_tree(j) implies Self::same_place(
                #[trigger] self.meta@[j],
                before.meta@[j],
            ) by {
                assert(self.meta@[j] == before.meta@[j]);
            }
        }
        assert(self.meta@[parent] == before.meta@[parent]);
        assert(self.tree_nodes() =~= before.tree_nodes().insert(first).insert(first + 1).insert(first + 2).insert(
            first + 3,
        ).insert(first + 4));
        assert forall|k: int| 0 <= k < 5 implies !self.is_branch_at(#[trigger] self.child(parent, k)) by {
            assert(!before.in_tree(first + k));
            assert(before.nodes@[first + k] == Node::empty_leaf());
            assert(self.nodes@[first + k] == before.nodes@[first + k]);
        }
        // The shape.
        assert(self.wf_shape()) by {
            reveal(QuadTree::<_>::wf_shape);
            assert forall|i: int| self.in_tree(i) implies #[trigger] self.node_ok(i) by {
                if first <= i < first + 5 {
                    let k = i - first;
                    assert(self.meta@[first + k] == before.new_child_meta(parent, first, k));
                    crate::quadtree::centered_aabb::lemma_child_cell_inside(before.meta@[parent].cell, k);
                    let m = self.meta@[i];
                    assert(m.chain.drop_last() =~= before.meta@[parent].chain);
                    assert(!before.in_tree(i));
                    assert(before.nodes@[i] == Node::empty_leaf());
                    assert(self.nodes@[i] == before.nodes@[i]);
                } else if i == parent {
                    assert(before.node_ok(i));
                    let m = self.meta@[i];
                    if i != 0 {
                        let q = m.chain[m.chain.len() - 2];
                        assert(before.in_tree(q));
                        assert(q != parent);
                        assert(self.meta@[q] == before.meta@[q]);
                    }
                    assert forall|k: int| 0 <= k < 5 implies #[trigger] self.meta@[self.child(i, k)]
                        == self.child_meta(i, k) by {
                        assert(self.meta@[first + k] == before.new_child_meta(parent, first, k));
                    }
                } else {
                    assert(before.in_tree(i));
                    assert(before.node_ok(i));
                    assert(self.meta@[i] == before.meta@[i]);
                    let m = self.meta@[i];
                    if i != 0 {
                        let q = m.chain[m.chain.len() - 2];
                        assert(before.in_tree(q));
                        assert(q != parent);
                        assert(self.meta@[q] == before.meta@[q]);
                    }
                    if self.is_branch_at(i) {
                        assert forall|k: int| 0 <= k < 5 implies #[trigger] self.meta@[self.child(i, k)]
                            == self.child_meta(i, k) by {
                            let c = before.child(i, k);
                            assert(before.meta@[c] == before.child_meta(i, k));
                            assert(before.in_tree(c));
                            assert(self.meta@[c] == before.meta@[c]);
                        }
                    }
                }
            }
            assert forall|j: int| 0 <= j < self.nodes@.len() && !self.in_tree(j) implies #[trigger] self.spare_ok(
                j,
            ) by {
                assert(!before.in_tree(j));
                assert(before.spare_ok(j));
            }
        }
        // The free pool.
        assert(self.wf_free(None)) by {
            reveal(QuadTree::<_>::wf_free);
            let groups = self.free_groups@;
            assert forall|g: int| 0 <= g < groups.len() implies #[trigger] self.group_ok(g) by {
                assert(before.group_ok(g));
                let other = groups[g];
                assert(other != first);
                assert(!before.in_tree(other as int));
                assert forall|j: int| other <= j < other + 5 implies !#[trigger] self.in_tree(j) by {
                    assert(!before.in_tree(j));
                }
            }
            assert forall|j: int| 0 <= j < self.nodes@.len() && !self.in_tree(j) implies #[trigger] self.in_free_pool(
                j,
            ) by {
                assert(!before.in_tree(j));
                assert(before.in_free_pool(j));
                let g = choose|g: int|
                    0 <= g < groups.len() && (#[trigger] groups[g]) <= j < groups[g] + 5;
                assert(self.free_groups@[g] <= j < self.free_groups@[g] + 5);
            }
        }
        // The lists.
        assert(self.wf_lists(Some(parent))) by {
            reveal(QuadTree::<_>::wf_lists);
            assert forall|i: int| self.in_tree(i) implies #[trigger] self.list_ok(i) by {
                if first <= i < first + 5 {
                    let k = i - first;
                    assert(self.meta@[first + k] == before.new_child_meta(parent, first, k));
                } else {
                    assert(before.in_tree(i));
                    assert(before.list_ok(i));
                    assert(self.meta@[i] == before.meta@[i]);
                }
            }
            assert forall|i: int| self.in_tree(i) implies #[trigger] self.holder_ok(i, Some(parent)) by {
                if first <= i < first + 5 {
                    let k = i - first;
                    assert(self.meta@[first + k] == before.new_child_meta(parent, first, k));
                    assert(!before.in_tree(i));
                    assert(before.nodes@[i] == Node::empty_leaf());
                    assert(self.nodes@[i] == before.nodes@[i]);
                } else {
                    assert(before.in_tree(i));
                    assert(before.holder_ok(i, None));
                    assert(self.meta@[i] == before.meta@[i]);
                }
            }
            assert forall|h: int| self.element_nodes.is_live(h) implies #[trigger] self.owner_ok(h) by {
                assert(before.owner_ok(h));
                let i = before.owner@[h].0;
                assert(before.in_tree(i));
                assert(self.meta@[i] == before.meta@[i]);
            }
        }
        self.lemma_same_elements(before, pending, None);
    }

    /// Once the last element node of a node that is being split has moved
    /// to a child, the split is over.
    pub(crate) proof fn lemma_split_end(&self, parent: int, pending: Option<int>)
        requires
            self.wf_during(pending, Some(parent)),
            self.meta@[parent].list.len() == 0,
        ensures
            self.wf_during(pending, None),
    {
        reveal(QuadTree::<_>::wf_lists);
        assert forall|i: int| self.in_tree(i) implies #[trigger] self.holder_ok(i, None) by {
            assert(self.holder_ok(i, Some(parent)));
        }
    }

    /// Splits the specified [`parent`] node into five and distributes its
    /// elements onto the newly created children: each element goes to the
    /// straddler bucket if its rectangle crosses a center line of the
    /// parent, else to the quadrant that it lies in.
    pub(crate) fn distribute_elements_to_child_nodes(
        &mut self,
        parent: &NodeData,
        Ghost(pending): Ghost<Option<int>>,
    )
        requires
            old(self).wf_during(pending, None),
            old(self).frame_ok(*parent),
            !old(self).is_branch_at(parent.index as int),
            parent.can_split_further_spec(old(self).smallest_cell_size, old(self).max_depth),
            old(self).nodes@.len() + 5 <= node_limit(),
        ensures
            final(self).wf_during(pending, None),
            final(self).frame_ok(*parent),
            final(self).is_branch_at(parent.index as int),
            final(self).keeps_places(old(self)),
            final(self).element_ids == old(self).element_ids,
            final(self).element_rects == old(self).element_rects,
            final(self).root_rect == old(self).root_rect,
            final(self).max_depth == old(self).max_depth,
            final(self).max_num_elements == old(self).max_num_elements,
            final(self).smallest_cell_size == old(self).smallest_cell_size,
            final(self).element_nodes.capacity_spec() == old(self).element_nodes.capacity_spec(),
            final(self).element_nodes.free_handles() == old(self).element_nodes.free_handles(),
            old(self).nodes@.len() <= final(self).nodes@.len() <= old(self).nodes@.len() + 5,
            final(self).tree_size() == old(self).tree_size() + 5,
            forall|j: int|
                old(self).in_tree(j) && old(self).is_branch_at(j) ==> #[trigger] final(self).is_branch_at(j),
    {
        let ghost p = parent.index as int;
        let first_child_index = self.ensure_child_nodes_exist(Ghost(pending));
        let ghost first = first_child_index as int;
        let ghost mid = *self;
        proof {
            assert forall|j: int| first <= j < first + 5 implies !#[trigger] mid.in_tree(j) && mid.nodes@[j]
                == Node::empty_leaf() by {}
            assert forall|g: int| 0 <= g < mid.free_groups@.len() implies #[trigger] mid.free_groups@[g]
                != first by {}
            self.lemma_shape();
            assert(old(self).in_tree(p));
            old(self).lemma_node_ok(p);
            assert(self.meta@[p] == old(self).meta@[p]);
            assert(self.in_tree(p));
            assert(!(first <= p < first + 5));
            assert(self.nodes@[p] == old(self).nodes@[p]);
            self.lemma_node_ok(p);
        }

        let mut element_node_index = self.nodes[parent.index as usize].get_first_element_node_index();
        self.nodes[parent.index as usize].make_branch(first_child_index);

        let mx = parent.crect.center_x;
        let my = parent.crect.center_y;
        proof {
            let before_meta = self.meta@;
            self.meta@ = Seq::new(
                before_meta.len(),
                |j: int|
                    if first <= j < first + 5 {
                        mid.new_child_meta(p, first, j - first)
                    } else {
                        before_meta[j]
                    },
            );
            assert forall|k: int| 0 <= k < 5 implies self.meta@[first + k] == #[trigger] mid.new_child_meta(
                p,
                first,
                k,
            ) by {}
            assert(self.nodes@ =~= mid.nodes@.update(p, Node::branch(first_child_index)));
            self.lemma_split_start(&mid, p, first, pending);
            self.lemma_keeps_places_trans(&mid, old(self));
            assert(mid.tree_nodes() =~= old(self).tree_nodes()) by {
                assert forall|j: int| mid.in_tree(j) == old(self).in_tree(j) by {
                    if 0 <= j < old(self).meta@.len() {
                        assert(mid.meta@[j] == old(self).meta@[j]);
                    } else if 0 <= j < mid.meta@.len() {
                        old(self).lemma_shape();
                        assert(first <= j < first + 5);
                        assert(!mid.in_tree(j));
                    }
                }
            }
            old(self).lemma_tree_nodes_finite();
            assert(self.tree_size() == old(self).tree_size() + 5) by {
                let t0 = mid.tree_nodes();
                assert(!t0.contains(first) && !t0.contains(first + 1) && !t0.contains(first + 2) && !t0.contains(
                    first + 3,
                ) && !t0.contains(first + 4));
            }
            assert forall|j: int| old(self).in_tree(j) && old(self).is_branch_at(j) implies #[trigger] self.is_branch_at(
                j,
            ) by {
                assert(mid.meta@[j] == old(self).meta@[j]);
                assert(mid.in_tree(j));
                assert(!(first <= j < first + 5));
                assert(mid.nodes@[j] == old(self).nodes@[j]);
                assert(j != p);
                assert(self.is_branch_at(j) == mid.is_branch_at(j));
            }
            reveal(QuadTree::<_>::wf_lists);
            assert(mid.holder_ok(p, None));
            NodeData::lemma_of_can_split(p as u32, mid.meta@[p].depth, mid.meta@[p].cell, mid.meta@[p].can_split);
            assert(mid.splittable(p));
            assert forall|k: int| 0 <= k < 5 implies (#[trigger] self.meta@[self.child(p, k)]).list.len()
                + self.meta@[p].list.len() <= self.max_num_elements by {
                assert(self.meta@[first + k] == mid.new_child_meta(p, first, k));
            }
        }

        // For each element in the list ...
        while element_node_index != free_list::SENTINEL
            invariant
                self.wf_during(pending, Some(p)),
                self.in_tree(p),
                self.is_branch_at(p),
                self.child(p, 0) == first_child_index,
                forall|k: int| 0 <= k < 5 ==> !self.is_branch_at(#[trigger] self.child(p, k)),
                self.room_in_children(p),
                mx == self.meta@[p].cell.center_x,
                my == self.meta@[p].cell.center_y,
                element_node_index == head_of(self.meta@[p].list),
                self.frame_ok(*parent),
                p == parent.index,
                self.keeps_places(old(self)),
                self.element_ids == old(self).element_ids,
                self.element_rects == old(self).element_rects,
                self.root_rect == old(self).root_rect,
                self.max_depth == old(self).max_depth,
                self.max_num_elements == old(self).max_num_elements,
                self.smallest_cell_size == old(self).smallest_cell_size,
                self.element_nodes.capacity_spec() == old(self).element_nodes.capacity_spec(),
                self.element_nodes.free_handles() == old(self).element_nodes.free_handles(),
                old(self).nodes@.len() <= self.nodes@.len() <= old(self).nodes@.len() + 5,
                self.tree_size() == old(self).tree_size() + 5,
                forall|j: int| old(self).in_tree(j) && old(self).is_branch_at(j) ==> #[trigger] self.is_branch_at(j),
            decreases self.meta@[p].list.len(),
        {
            let ghost before = *self;
            proof {
                reveal(QuadTree::<_>::wf_lists);
                reveal(QuadTree::<_>::wf_elements);
                self.element_nodes.lemma_handles();
                assert(self.list_ok(p));
                let list = self.meta@[p].list;
                if list.len() == 0 {
                    assert(element_node_index == free_list::SENTINEL);
                }
                assert(list[list.len() - 1] == element_node_index);
                assert(self.element_nodes.is_live(element_node_index as int));
                assert(self.reference_ok(element_node_index as int, pending));
            }
            let element_node = *self.element_nodes.at(element_node_index);
            let element = *self.element_rects.at(element_node.element_idx);

            self.assign_element_to_child_nodes(
                mx,
                my,
                first_child_index,
                element_node_index,
                &element,
                Ghost(pending),
                Ghost(p),
            );
            proof {
                before.lemma_node_ok(p);
                self.lemma_keeps_places_trans(&before, old(self));
                assert(self.tree_nodes() =~= before.tree_nodes()) by {
                    assert forall|j: int| self.in_tree(j) == before.in_tree(j) by {
                        if before.in_tree(j) {
                            assert(Self::same_place(self.meta@[j], before.meta@[j]));
                        }
                        if self.in_tree(j) {
                            assert(Self::same_place(before.meta@[j], self.meta@[j]));
                        }
                    }
                }
                assert forall|j: int| old(self).in_tree(j) && old(self).is_branch_at(j) implies #[trigger] self.is_branch_at(
                    j,
                ) by {
                    assert(before.is_branch_at(j));
                    assert(Self::same_place(before.meta@[j], old(self).meta@[j]));
                    before.lemma_node_ok(j);
                    assert(self.is_branch_at(j) == before.is_branch_at(j));
                }
                assert(Self::same_place(self.meta@[p], before.meta@[p]));
                assert forall|k: int| 0 <= k < 5 implies !self.is_branch_at(#[trigger] self.child(p, k)) by {
                    before.lemma_child(p, k);
                    assert(self.nodes@[p] == before.nodes@[p]);
                    assert(self.is_branch_at(before.child(p, k)) == before.is_branch_at(before.child(p, k)));
                }
                before.lemma_node_ok(p);
                assert(self.is_branch_at(p) == before.is_branch_at(p));
                assert(self.nodes@[p] == before.nodes@[p]);
            }

            // The element node now belongs to a child; go on with the
            // node behind it in the list of the former leaf.
            element_node_index = element_node.next;
        }
        proof {
            if self.meta@[p].list.len() > 0 {
                reveal(QuadTree::<_>::wf_lists);
                reveal(QuadTree::<_>::wf_elements);
                assert(self.list_ok(p));
                self.element_nodes.lemma_handles();
                let list = self.meta@[p].list;
                assert(self.element_nodes.is_live(list[list.len() - 1] as int));
            }
            self.lemma_split_end(p, pending);
        }
    }
}

} // verus!
