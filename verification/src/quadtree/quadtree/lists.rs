//! The lists of element nodes of the leaves.

use crate::quadtree::free_list::{self};
use crate::quadtree::node_data::NodeData;
use crate::quadtree::quadtree::{QuadTree, all_selector, head_of};
use crate::quadtree::quadtree_element::{ElementIdType};
use vstd::prelude::*;

verus! {

impl<ElementId> QuadTree<ElementId> where ElementId: ElementIdType {
    /// The list of a node holds no more element nodes than the free list
    /// of the element nodes has live cells.
    pub(crate) proof fn lemma_list_len(&self, i: int, splitting: Option<int>)
        requires
            self.wf_lists(splitting),
            self.element_nodes.wf(),
            self.in_tree(i),
        ensures
            self.meta@[i].list.len() + self.element_nodes.free_handles().len()
                <= self.element_nodes.capacity_spec(),
            self.meta@[i].list.no_duplicates(),
    {
        reveal(QuadTree::<_>::wf_lists);
        let list = self.meta@[i].list;
        let free = self.element_nodes.free_handles();
        assert(self.list_ok(i));
        self.element_nodes.lemma_handles();
        let handles = Seq::new(list.len() + free.len(), |k: int| if k < list.len() { list[k] as int } else { free[k - list.len()] as int });
        assert forall|a: int, b: int| 0 <= a < list.len() && 0 <= b < list.len() && a != b implies list[a]
            != list[b] by {
            assert(self.owner@[list[a] as int] == (i, a));
            assert(self.owner@[list[b] as int] == (i, b));
        }
        assert forall|a: int, b: int| 0 <= a < handles.len() && 0 <= b < handles.len() && a != b implies handles[a]
            != handles[b] by {
            if a < list.len() && b >= list.len() {
                assert(self.element_nodes.is_live(list[a] as int));
                assert(free.contains(free[b - list.len()]));
            } else if b < list.len() && a >= list.len() {
                assert(self.element_nodes.is_live(list[b] as int));
                assert(free.contains(free[a - list.len()]));
            }
        }
        assert(handles.no_duplicates());
        handles.unique_seq_to_set();
        let n = self.element_nodes.capacity_spec() as int;
        vstd::set_lib::lemma_int_range(0, n);
        assert(handles.to_set().subset_of(vstd::set_lib::set_int_range(0, n))) by {
            assert forall|x: int| handles.to_set().contains(x) implies vstd::set_lib::set_int_range(
                0,
                n,
            ).contains(x) by {
                let k = choose|k: int| 0 <= k < handles.len() && handles[k] == x;
                if k < list.len() {
                    assert(self.element_nodes.is_live(list[k] as int));
                } else {
                    assert(free[k - list.len()] < n);
                }
            }
        }
        vstd::set_lib::lemma_len_subset(handles.to_set(), vstd::set_lib::set_int_range(0, n));
    }

    /// The lists of two nodes hold no more element nodes than the free list
    /// of the element nodes has live cells.
    pub(crate) proof fn lemma_two_lists_len(&self, i: int, j: int, splitting: Option<int>)
        requires
            self.wf_lists(splitting),
            self.element_nodes.wf(),
            self.in_tree(i),
            self.in_tree(j),
            i != j,
        ensures
            self.meta@[i].list.len() + self.meta@[j].list.len() + self.element_nodes.free_handles().len()
                <= self.element_nodes.capacity_spec(),
    {
        reveal(QuadTree::<_>::wf_lists);
        let a = self.meta@[i].list;
        let b = self.meta@[j].list;
        let free = self.element_nodes.free_handles();
        assert(self.list_ok(i));
        assert(self.list_ok(j));
        self.element_nodes.lemma_handles();
        let handles = Seq::new(
            a.len() + b.len() + free.len(),
            |k: int|
                if k < a.len() {
                    a[k] as int
                } else if k < a.len() + b.len() {
                    b[k - a.len()] as int
                } else {
                    free[k - a.len() - b.len()] as int
                },
        );
        assert forall|x: int, y: int|
            0 <= x < handles.len() && 0 <= y < handles.len() && x != y implies handles[x] != handles[y] by {
            if x < a.len() {
                assert(self.owner@[a[x] as int] == (i, x));
                assert(self.element_nodes.is_live(a[x] as int));
            } else if x < a.len() + b.len() {
                assert(self.owner@[b[x - a.len()] as int] == (j, x - a.len()));
                assert(self.element_nodes.is_live(b[x - a.len()] as int));
            } else {
                assert(free.contains(free[x - a.len() - b.len()]));
            }
            if y < a.len() {
                assert(self.owner@[a[y] as int] == (i, y));
                assert(self.element_nodes.is_live(a[y] as int));
            } else if y < a.len() + b.len() {
                assert(self.owner@[b[y - a.len()] as int] == (j, y - a.len()));
                assert(self.element_nodes.is_live(b[y - a.len()] as int));
            } else {
                assert(free.contains(free[y - a.len() - b.len()]));
            }
        }
        assert(handles.no_duplicates());
        handles.unique_seq_to_set();
        let n = self.element_nodes.capacity_spec() as int;
        vstd::set_lib::lemma_int_range(0, n);
        assert(handles.to_set().subset_of(vstd::set_lib::set_int_range(0, n))) by {
            assert forall|x: int| handles.to_set().contains(x) implies vstd::set_lib::set_int_range(
                0,
                n,
            ).contains(x) by {
                let k = choose|k: int| 0 <= k < handles.len() && handles[k] == x;
                if k < a.len() {
                    assert(self.element_nodes.is_live(a[k] as int));
                } else if k < a.len() + b.len() {
                    assert(self.element_nodes.is_live(b[k - a.len()] as int));
                } else {
                    assert(free[k - a.len() - b.len()] < n);
                }
            }
        }
        vstd::set_lib::lemma_len_subset(handles.to_set(), vstd::set_lib::set_int_range(0, n));
    }

    /// What holds of the element node at position `k` of the list of a
    /// node of the tree: it is live, it links to the node before it in the
    /// list, and it refers to an element that is live and refers back.
    pub(crate) proof fn lemma_list_entry(&self, leaf: int, k: int, pending: Option<int>, splitting: Option<int>)
        requires
            self.wf_during(pending, splitting),
            self.in_tree(leaf),
            0 <= k < self.meta@[leaf].list.len(),
        ensures
            self.element_nodes.wf(),
            self.element_ids.wf(),
            self.element_rects.wf(),
            self.meta@[leaf].list[k] != free_list::SENTINEL,
            self.element_nodes.is_live(self.meta@[leaf].list[k] as int),
            self.element_nodes@[self.meta@[leaf].list[k] as int].next == (if k > 0 {
                self.meta@[leaf].list[k - 1]
            } else {
                free_list::SENTINEL
            }),
            self.owner@[self.meta@[leaf].list[k] as int] == (leaf, k),
            self.element_ids.is_live(self.element_at(leaf, k)),
            self.element_rects.is_live(self.element_at(leaf, k)),
            Some(self.element_at(leaf, k)) != pending,
            self.node_of@[self.element_at(leaf, k)] == self.meta@[leaf].list[k],
            self.leaf_of(self.element_at(leaf, k)) == leaf,
    {
        reveal(QuadTree::<_>::wf_lists);
        reveal(QuadTree::<_>::wf_elements);
        assert(self.list_ok(leaf));
        let h = self.meta@[leaf].list[k];
        self.element_nodes.lemma_handles();
        assert(self.element_nodes.is_live(h as int));
        assert(self.reference_ok(h as int, pending));
    }

    /// What holds of an element that has an element node: the node lies in
    /// the list of the leaf of the element.
    pub(crate) proof fn lemma_element_entry(&self, e: int, pending: Option<int>, splitting: Option<int>)
        requires
            self.wf_during(pending, splitting),
            self.element_ids.is_live(e),
            Some(e) != pending,
        ensures
            self.in_tree(self.leaf_of(e)),
            0 <= self.owner@[self.node_of@[e]].1 < self.meta@[self.leaf_of(e)].list.len(),
            self.meta@[self.leaf_of(e)].list[self.owner@[self.node_of@[e]].1] == self.node_of@[e],
            self.element_at(self.leaf_of(e), self.owner@[self.node_of@[e]].1) == e,
            self.element_rects.is_live(e),
            self.on_path(self.leaf_of(e), self.element_rects@[e]),
            self.root_rect.contains_spec(&self.element_rects@[e]),
    {
        reveal(QuadTree::<_>::wf_lists);
        reveal(QuadTree::<_>::wf_elements);
        assert(self.element_ok(e, pending));
        assert(self.owner_ok(self.node_of@[e]));
    }

    /// What a leaf stores: the head and the length of its list.
    pub(crate) proof fn lemma_holder(&self, leaf: int, pending: Option<int>, splitting: Option<int>)
        requires
            self.wf_during(pending, splitting),
            self.in_tree(leaf),
            !self.is_branch_at(leaf),
        ensures
            0 <= leaf < self.nodes@.len(),
            self.nodes@[leaf].element_count == self.meta@[leaf].list.len(),
            self.nodes@[leaf].first_child_or_element == head_of(self.meta@[leaf].list),
    {
        reveal(QuadTree::<_>::wf_lists);
        self.lemma_node_ok(leaf);
        assert(self.holder_ok(leaf, splitting));
    }

    /// A node of the tree with a list that is not empty is a leaf.
    pub(crate) proof fn lemma_list_owner_is_leaf(&self, i: int)
        requires
            self.wf(),
            self.in_tree(i),
            self.meta@[i].list.len() > 0,
        ensures
            !self.is_branch_at(i),
    {
        reveal(QuadTree::<_>::wf_lists);
        assert(self.holder_ok(i, None));
    }

    /// In a tree whose root is a leaf, the root holds every element.
    pub(crate) proof fn lemma_single_leaf(&self)
        requires
            self.wf(),
            !self.is_branch_at(0),
        ensures
            self.nodes@[0].element_count == self.len_spec(),
    {
        self.lemma_root_leaf_minimal();
        self.lemma_shape();
        self.lemma_holder(0, None, None);
        let list = self.meta@[0].list;
        let seen = Seq::new(list.len(), |k: int| list[k] as int);
        assert forall|k: int| 0 <= k < list.len() implies self.element_nodes.is_live(#[trigger] list[k] as int)
            && self.owner@[list[k] as int] == (0int, k) by {
            self.lemma_list_entry(0, k, None, None);
        }
        assert forall|a: int, b: int| 0 <= a < seen.len() && 0 <= b < seen.len() && a != b implies seen[a]
            != seen[b] by {
            assert(self.owner@[list[a] as int] == (0int, a));
            assert(self.owner@[list[b] as int] == (0int, b));
        }
        assert forall|t: int| 0 <= t < seen.len() implies self.element_nodes.is_live(#[trigger] seen[t]) by {
            assert(seen[t] == list[t] as int);
        }
        self.lemma_references_bound(seen);
        assert forall|x: int| self.element_nodes.is_live(x) implies seen.contains(x) by {
            reveal(QuadTree::<_>::wf_lists);
            assert(self.owner_ok(x));
            let k = self.owner@[x].1;
            assert(seen[k] == x);
        }
        reveal(QuadTree::<_>::wf_elements);
    }

    /// Handles of element nodes, each once, are no more than there are
    /// element nodes.
    pub(crate) proof fn lemma_references_bound(&self, seen: Seq<int>)
        requires
            self.wf(),
            seen.no_duplicates(),
            forall|t: int| 0 <= t < seen.len() ==> self.element_nodes.is_live(#[trigger] seen[t]),
        ensures
            seen.len() <= self.reference_count(),
            self.reference_count() <= free_list::SENTINEL,
            (forall|x: int| self.element_nodes.is_live(x) ==> seen.contains(x)) ==> seen.len()
                == self.reference_count(),
    {
        reveal(QuadTree::<_>::wf_elements);
        self.element_nodes.lemma_live_count();
        self.element_nodes.lemma_handles();
        self.element_ids.lemma_handles();
        let live = self.element_nodes@.dom();
        seen.unique_seq_to_set();
        assert(seen.to_set().subset_of(live)) by {
            assert forall|x: int| seen.to_set().contains(x) implies live.contains(x) by {
                let t = choose|t: int| 0 <= t < seen.len() && seen[t] == x;
                assert(self.element_nodes.is_live(seen[t]));
            }
        }
        vstd::set_lib::lemma_len_subset(seen.to_set(), live);
        if forall|x: int| self.element_nodes.is_live(x) ==> seen.contains(x) {
            assert(seen.to_set() =~= live);
        }
    }

    /// The handles seen so far and the element nodes of one more leaf.
    pub(crate) proof fn lemma_references_step(&self, all: Seq<NodeData>, rem: int, seen: Seq<int>)
        requires
            self.wf(),
            self.leaves_found(all, 0, all_selector()),
            0 < rem <= all.len(),
            self.references_seen(all, rem, seen),
        ensures
            self.references_seen(
                all,
                rem - 1,
                seen + Seq::new(
                    self.meta@[all[rem - 1].index as int].list.len(),
                    |k: int| self.meta@[all[rem - 1].index as int].list[k] as int,
                ),
            ),
    {
        let leaf = all[rem - 1].index as int;
        let list = self.meta@[leaf].list;
        let more = Seq::new(list.len(), |k: int| list[k] as int);
        let joined = seen + more;
        assert(self.frame_ok(all[rem - 1]));
        assert forall|k: int| 0 <= k < list.len() implies self.element_nodes.is_live(#[trigger] list[k] as int)
            && self.owner@[list[k] as int] == (leaf, k) by {
            self.lemma_list_entry(leaf, k, None, None);
        }
        assert forall|t: int| 0 <= t < joined.len() implies self.element_nodes.is_live(#[trigger] joined[t])
            && Self::in_frames_from(all, rem - 1, self.owner@[joined[t]].0) by {
            if t < seen.len() {
                assert(joined[t] == seen[t]);
                let o = choose|o: int| rem <= o < all.len() && (#[trigger] all[o]).index == self.owner@[seen[t]].0;
                assert(all[o].index == self.owner@[seen[t]].0);
            } else {
                let k = t - seen.len();
                assert(joined[t] == list[k] as int);
                assert(all[rem - 1].index == leaf);
            }
        }
        assert forall|a: int, b: int|
            0 <= a < joined.len() && 0 <= b < joined.len() && a != b implies joined[a] != joined[b] by {
            if a < seen.len() && b < seen.len() {
                assert(joined[a] == seen[a] && joined[b] == seen[b]);
            } else if a >= seen.len() && b >= seen.len() {
                assert(self.owner@[list[a - seen.len()] as int] == (leaf, a - seen.len()));
                assert(self.owner@[list[b - seen.len()] as int] == (leaf, b - seen.len()));
            } else {
                let (x, y) = if a < seen.len() {
                    (a, b)
                } else {
                    (b, a)
                };
                assert(joined[x] == seen[x]);
                assert(self.owner@[list[y - seen.len()] as int] == (leaf, y - seen.len()));
                let o = choose|o: int| rem <= o < all.len() && (#[trigger] all[o]).index == self.owner@[seen[x]].0;
                assert(all[o].index != all[rem - 1].index);
            }
        }
        assert forall|x: int|
            self.element_nodes.is_live(x) && Self::in_frames_from(all, rem - 1, (#[trigger] self.owner@[x]).0)
                implies joined.contains(x) by {
            let o = choose|o: int| rem - 1 <= o < all.len() && (#[trigger] all[o]).index == self.owner@[x].0;
            if o == rem - 1 {
                reveal(QuadTree::<_>::wf_lists);
                assert(self.owner_ok(x));
                let k = self.owner@[x].1;
                assert(joined[seen.len() + k] == x);
            } else {
                assert(all[o].index == self.owner@[x].0);
                assert(Self::in_frames_from(all, rem, self.owner@[x].0));
                assert(seen.contains(x));
                let t = choose|t: int| 0 <= t < seen.len() && seen[t] == x;
                assert(joined[t] == x);
            }
        }
    }
}

} // verus!
