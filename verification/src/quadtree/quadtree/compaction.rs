//! Folding groups of empty sibling leaves back into the free pool.

use crate::quadtree::node::Node;
use crate::quadtree::node_list::{stack_limit};
use crate::quadtree::quadtree::{QuadTree, all_selector, child_frame, child_frames, level_limit, weight};
use crate::quadtree::quadtree_element::{ElementIdType};
use vstd::prelude::*;

verus! {

impl<ElementId> QuadTree<ElementId> where ElementId: ElementIdType {
    /// Folding the children of a compactable branch back into the free
    /// pool leaves the tree consistent.
    pub(crate) proof fn lemma_fold(&self, before: &Self, b: int)
        requires
            before.wf(),
            before.compactable(b),
            self.folded_from(before, b),
        ensures
            self.wf(),
            self.elements() == before.elements(),
            forall|j: int| self.in_tree(j) ==> before.in_tree(j),
            forall|j: int| before.in_tree(j) && before.is_branch_at(j) && j != b ==> self.in_tree(j) && self.is_branch_at(j),
            self.in_tree(b),
            !self.is_branch_at(b),
            self.tree_size() + 5 == before.tree_size(),
    {
        let first = before.child(b, 0);
        before.lemma_shape();
        before.lemma_node_ok(b);
        assert(self.tree_size() + 5 == before.tree_size()) by {
            before.lemma_tree_nodes();
            let t0 = before.tree_nodes();
            before.lemma_child(b, 0);
            before.lemma_child(b, 1);
            before.lemma_child(b, 2);
            before.lemma_child(b, 3);
            before.lemma_child(b, 4);
            assert(t0.contains(first) && t0.contains(first + 1) && t0.contains(first + 2) && t0.contains(
                first + 3,
            ) && t0.contains(first + 4));
            let t1 = t0.remove(first);
            let t2 = t1.remove(first + 1);
            let t3 = t2.remove(first + 2);
            let t4 = t3.remove(first + 3);
            let t5 = t4.remove(first + 4);
            assert(self.tree_nodes() =~= t5);
        }
        assert forall|j: int| first <= j < first + 5 implies {
            &&& #[trigger] before.in_tree(j)
            &&& !before.is_branch_at(j)
            &&& before.meta@[j].list.len() == 0
            &&& before.nodes@[j].element_count == 0
            &&& j != first ==> before.nodes@[j] == Node::empty_leaf()
            &&& j != b
        } by {
            let k = j - first;
            before.lemma_child(b, k);
            assert(before.child(b, k) == j);
            assert(before.nodes@[before.child(b, k)].element_count == 0);
            before.lemma_holder(j, None, None);
        }
        assert forall|j: int| 0 <= j < self.meta@.len() implies (#[trigger] self.in_tree(j) <==> (before.in_tree(j)
            && !(first <= j < first + 5))) by {}
        // A node outside the group is no child of the branch.
        assert forall|j: int, k: int|
            before.in_tree(j) && before.is_branch_at(j) && j != b && 0 <= k < 5 implies !(first <= #[trigger] before.child(
            j,
            k,
        ) < first + 5) by {
            let c = before.child(j, k);
            if first <= c < first + 5 {
                before.lemma_child(j, k);
                before.lemma_child(b, c - first);
                before.lemma_node_ok(j);
                assert(before.meta@[c].chain == before.meta@[j].chain.push(c));
                assert(before.meta@[c].chain == before.meta@[b].chain.push(c));
                assert(before.meta@[j].chain.push(c).drop_last() =~= before.meta@[j].chain);
                assert(before.meta@[b].chain.push(c).drop_last() =~= before.meta@[b].chain);
                assert(before.meta@[j].chain.last() == j);
            }
        }
        assert(self.wf_shape()) by {
            reveal(QuadTree::<_>::wf_shape);
            assert forall|i: int| self.in_tree(i) implies #[trigger] self.node_ok(i) by {
                assert(before.in_tree(i));
                assert(before.node_ok(i));
                let m = self.meta@[i];
                if i != 0 {
                    let q = m.chain[m.chain.len() - 2];
                    assert(before.in_tree(q));
                    assert(before.is_branch_at(q));
                    if q == b {
                        // The children of the branch have left the tree.
                        assert(before.child(b, m.slot) == i);
                        assert(false);
                    }
                    assert(!(first <= q < first + 5));
                }
                if self.is_branch_at(i) {
                    assert(i != b);
                    assert(!(first <= i < first + 5));
                    assert(self.nodes@[i] == before.nodes@[i]);
                    assert forall|k: int| 0 <= k < 5 implies #[trigger] self.meta@[self.child(i, k)]
                        == self.child_meta(i, k) by {
                        let c = before.child(i, k);
                        assert(before.meta@[c] == before.child_meta(i, k));
                        assert(!(first <= c < first + 5));
                        before.lemma_child(i, k);
                    }
                }
            }
            assert forall|j: int| 0 <= j < self.nodes@.len() && !self.in_tree(j) implies #[trigger] self.spare_ok(
                j,
            ) by {
                if first <= j < first + 5 {
                    assert(before.in_tree(j));
                } else {
                    assert(before.spare_ok(j));
                }
            }
        }
        assert(self.wf_free(None)) by {
            reveal(QuadTree::<_>::wf_free);
            let groups = self.free_groups@;
            let old_groups = before.free_groups@;
            assert forall|j: int| 0 <= j < self.nodes@.len() && !self.in_tree(j) implies #[trigger] self.in_free_pool(
                j,
            ) by {
                if first <= j < first + 5 {
                    assert(groups[0] == first);
                } else {
                    assert(!before.in_tree(j));
                    assert(before.in_free_pool(j));
                    let g = choose|g: int|
                        0 <= g < old_groups.len() && (#[trigger] old_groups[g]) <= j < old_groups[g] + 5;
                    assert(groups[g + 1] == old_groups[g]);
                }
            }
            assert forall|g: int| 0 <= g < old_groups.len() implies old_groups[g] != first && #[trigger] old_groups[g]
                != b by {
                assert(before.group_ok(g));
                assert(!before.in_tree(old_groups[g] as int));
            }
            assert forall|g: int| 0 <= g < groups.len() implies #[trigger] self.group_ok(g) by {
                if g > 0 {
                    assert(before.group_ok(g - 1));
                    assert(groups[g] == old_groups[g - 1]);
                    let other = groups[g];
                    assert(!before.in_tree(other as int));
                    assert forall|j: int| other <= j < other + 5 implies !#[trigger] self.in_tree(j) by {
                        assert(!before.in_tree(j));
                    }
                    if g + 1 < groups.len() {
                        assert(groups[g + 1] == old_groups[g]);
                    }
                } else {
                    if old_groups.len() > 0 {
                        assert(groups[1] == old_groups[0]);
                    }
                }
            }
        }
        assert(self.wf_lists(None)) by {
            reveal(QuadTree::<_>::wf_lists);
            assert forall|i: int| self.in_tree(i) implies #[trigger] self.list_ok(i) by {
                assert(before.list_ok(i));
            }
            assert forall|i: int| self.in_tree(i) implies #[trigger] self.holder_ok(i, None) by {
                assert(before.holder_ok(i, None));
            }
            assert forall|h: int| self.element_nodes.is_live(h) implies #[trigger] self.owner_ok(h) by {
                assert(before.owner_ok(h));
            }
        }
        assert(self.wf_elements(None)) by {
            reveal(QuadTree::<_>::wf_elements);
            assert forall|h: int| self.element_nodes.is_live(h) implies #[trigger] self.reference_ok(h, None) by {
                assert(before.reference_ok(h, None));
            }
            assert forall|e: int| self.element_ids.is_live(e) implies #[trigger] self.element_ok(e, None) by {
                assert(before.element_ok(e, None));
                before.lemma_element_entry(e, None, None);
                let leaf = before.leaf_of(e);
                let chain = before.meta@[leaf].chain;
                let rect = before.element_rects@[e];
                assert forall|l: int| 0 <= l < chain.len() - 1 implies self.meta@[#[trigger] chain[l + 1]].slot
                    == self.meta@[chain[l]].cell.slot_of(&rect) by {
                    before.lemma_chain_prefix(leaf, l);
                    before.lemma_chain_prefix(leaf, l + 1);
                }
            }
        }
        assert(self.elements() =~= before.elements());
    }

    /// A branch on top of the stack of a compaction makes way for those of
    /// its children that are branches.
    pub(crate) proof fn lemma_branch_step(&self, rest: Seq<u32>, e: u32, slots: Seq<int>)
        requires
            self.wf_shape(),
            self.branch_stack(rest.push(e)),
            slots.no_duplicates(),
            forall|t: int| 0 <= t < slots.len() ==> 0 <= #[trigger] slots[t] < 5,
            forall|k: int| 0 <= k < 5 ==> (slots.contains(k) <==> self.is_branch_at(#[trigger] self.child(e as int, k))),
        ensures
            self.branch_stack(
                rest + Self::child_indices(self.nodes@[e as int].first_child_or_element, slots),
            ),
            self.stack_weight(
                self.index_frames(
                    rest + Self::child_indices(self.nodes@[e as int].first_child_or_element, slots),
                ),
            ) < self.stack_weight(self.index_frames(rest.push(e))),
            self.stack_weight(self.index_frames(rest)) < self.stack_weight(self.index_frames(rest.push(e))),
            rest.len() + 5 < stack_limit(),
            self.folds_ahead(rest.push(e)) && !self.compactable(e as int) ==> self.folds_ahead(
                rest + Self::child_indices(self.nodes@[e as int].first_child_or_element, slots),
            ),
    {
        let stack = rest.push(e);
        let n = rest.len() as int;
        let fc = self.nodes@[e as int].first_child_or_element;
        let nd = self.frame_of(e as int);
        let next = rest + Self::child_indices(fc, slots);
        let frames = self.index_frames(stack);
        assert(frames[n] == nd);
        assert(self.frame_ok(frames[n]));
        assert(stack[n] == e);
        self.lemma_frame_of(e as int);
        self.lemma_node_ok(e as int);
        assert(frames =~= self.index_frames(rest).push(nd));
        self.lemma_stack_children(self.index_frames(rest), nd, slots);
        self.lemma_stack_room(self.index_frames(rest), nd);
        let pushed = child_frames(nd, fc, slots);
        assert(self.index_frames(next) =~= self.index_frames(rest) + pushed) by {
            assert forall|a: int| 0 <= a < next.len() implies self.index_frames(next)[a] == (self.index_frames(
                rest,
            ) + pushed)[a] by {
                if a >= n {
                    let t = a - n;
                    let k = slots[t];
                    self.lemma_child(e as int, k);
                    assert(next[a] == (fc + k) as u32);
                    assert(pushed[t] == child_frame(nd, fc, k));
                }
            }
        }
        assert forall|a: int| 0 <= a < next.len() implies self.is_branch_at(#[trigger] next[a] as int) by {
            if a < n {
                assert(next[a] == stack[a]);
            } else {
                let k = slots[a - n];
                assert(slots.contains(k));
                self.lemma_child(e as int, k);
            }
        }
        // The weight.
        self.lemma_stack_weight_concat(self.index_frames(rest), pushed);
        self.lemma_pushed_weight(nd, slots);
        assert(slots.len() <= 5) by {
            slots.unique_seq_to_set();
            vstd::set_lib::lemma_int_range(0, 5);
            assert(slots.to_set().subset_of(vstd::set_lib::set_int_range(0, 5)));
            vstd::set_lib::lemma_len_subset(slots.to_set(), vstd::set_lib::set_int_range(0, 5));
        }
        self.lemma_child(e as int, 0);
        assert(frames.drop_last() =~= self.index_frames(rest));
        assert(weight(self.level(e as int)) == 1 + 5 * weight(self.level(e as int) + 1));
        assert(slots.len() * weight(self.level(e as int) + 1) <= 5 * weight(self.level(e as int) + 1)) by (nonlinear_arith)
            requires
                slots.len() <= 5,
        ;
        // What can be folded.
        if self.folds_ahead(stack) && !self.compactable(e as int) {
            assert forall|b: int| #[trigger] self.compactable(b) implies self.covered(
                self.index_frames(next),
                b,
            ) by {
                assert(self.covered(frames, b));
                let a = choose|a: int| 0 <= a < frames.len() && self.under(b, (#[trigger] frames[a]).index as int);
                if a == n {
                    self.lemma_under_child(b, e as int);
                    let c = self.meta@[b].chain[self.level(e as int) + 1];
                    let k = self.meta@[c].slot;
                    if b != c {
                        self.lemma_under_child(b, c);
                    }
                    assert(self.is_branch_at(self.child(e as int, k)));
                    assert(slots.contains(k));
                    let t = choose|t: int| 0 <= t < slots.len() && slots[t] == k;
                    assert(self.index_frames(next)[n + t] == pushed[t]);
                    self.lemma_child(e as int, k);
                    assert(pushed[t].index == c);
                    assert(self.under(b, self.index_frames(next)[n + t].index as int));
                } else {
                    assert(self.index_frames(next)[a] == frames[a]);
                    assert(self.under(b, self.index_frames(next)[a].index as int));
                }
            }
        }
    }

    /// After the children of the branch on top of the stack were folded,
    /// the rest of the stack still holds branches of the tree.
    pub(crate) proof fn lemma_fold_stack(&self, before: &Self, rest: Seq<u32>, e: u32)
        requires
            before.wf(),
            before.compactable(e as int),
            before.branch_stack(rest.push(e)),
            self.folded_from(before, e as int),
            self.wf(),
        ensures
            self.branch_stack(rest),
            self.index_frames(rest) == before.index_frames(rest),
            self.stack_weight(self.index_frames(rest)) == before.stack_weight(before.index_frames(rest)),
    {
        let stack = rest.push(e);
        let n = rest.len() as int;
        let frames = before.index_frames(stack);
        self.lemma_fold(before, e as int);
        before.lemma_shape();
        assert(stack[n] == e);
        assert forall|a: int| 0 <= a < rest.len() implies {
            &&& before.in_tree(#[trigger] rest[a] as int)
            &&& rest[a] != e
            &&& self.in_tree(rest[a] as int)
            &&& self.is_branch_at(rest[a] as int)
            &&& self.frame_of(rest[a] as int) == before.frame_of(rest[a] as int)
        } by {
            assert(stack[a] == rest[a]);
            assert(before.frame_ok(frames[a]));
            assert(before.frame_ok(frames[n]));
            before.lemma_reach_self(rest[a] as int, all_selector());
            assert(!before.under(frames[n].index as int, frames[a].index as int));
            assert(before.is_branch_at(stack[a] as int));
        }
        assert(self.index_frames(rest) =~= before.index_frames(rest));
        let mine = self.index_frames(rest);
        assert forall|k: int| 0 <= k < mine.len() implies self.frame_ok(#[trigger] mine[k]) by {
            self.lemma_frame_of(rest[k] as int);
        }
        assert forall|a: int, b: int|
            0 <= a < mine.len() && 0 <= b < mine.len() && a != b implies !self.under(
            (#[trigger] mine[b]).index as int,
            (#[trigger] mine[a]).index as int,
        ) by {
            assert(frames[a] == mine[a] && frames[b] == mine[b]);
            if self.under(mine[b].index as int, mine[a].index as int) {
                assert(before.under(frames[b].index as int, frames[a].index as int));
            }
        }
        self.lemma_weight_same(before, mine);
    }

    /// In a tree without elements, every leaf is empty; so below every
    /// branch there is a branch whose children can be folded.
    pub(crate) proof fn lemma_find_foldable(&self, b: int) -> (c: int)
        requires
            self.wf(),
            self.len_spec() == 0,
            self.in_tree(b),
            self.is_branch_at(b),
        ensures
            self.compactable(c),
        decreases level_limit() - self.level(b),
    {
        self.lemma_node_ok(b);
        if forall|k: int| 0 <= k < 5 ==> !self.is_branch_at(#[trigger] self.child(b, k)) {
            assert forall|k: int| 0 <= k < 5 implies (#[trigger] self.nodes@[self.child(b, k)]).element_count
                == 0 by {
                let leaf = self.child(b, k);
                self.lemma_child(b, k);
                assert(!self.is_branch_at(self.child(b, k)));
                self.lemma_holder(leaf, None, None);
                reveal(QuadTree::<_>::wf_elements);
                self.lemma_list_len(leaf, None);
            }
            b
        } else {
            let k = choose|k: int| 0 <= k < 5 && self.is_branch_at(#[trigger] self.child(b, k));
            self.lemma_child(b, k);
            self.lemma_find_foldable(self.child(b, k))
        }
    }
}

} // verus!
