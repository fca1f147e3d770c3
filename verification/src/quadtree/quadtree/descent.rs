//! The descent through the tree that finds the leaves for a shape.

use crate::intersections::Intersects;
use crate::quadtree::aabb::AABB;
use crate::quadtree::centered_aabb::CenteredAABB;
use crate::quadtree::node_data::NodeData;
use crate::quadtree::node_list::{stack_limit, NodeList};
use crate::quadtree::quadrants::Quadrants;
use crate::quadtree::quadtree::{FindLeafHint, QuadTree, aabb_selector, all_selector, child_cells, child_frames, lemma_aabb_selector, lemma_pushed_slots, lemma_shape_selector, level_limit, pushed_slots, query_slots, selects, shape_selector, slot_frames, weight};
use crate::quadtree::quadtree_element::{ElementIdType};
use vstd::prelude::*;

verus! {

impl<ElementId> QuadTree<ElementId> where ElementId: ElementIdType {
    /// A descent that arrives at a node has passed each node above it.
    pub(crate) proof fn lemma_reach_child(
        &self,
        j: int,
        i: int,
        from: int,
        sel: spec_fn(CenteredAABB, int) -> bool,
    )
        requires
            self.wf_shape(),
            self.reach(j, from, sel),
            self.reach(i, from, sel),
            self.under(j, i),
            j != i,
        ensures
            ({
                let c = self.meta@[j].chain[self.level(i) + 1];
                &&& sel(self.meta@[i].cell, self.meta@[c].slot)
                &&& self.reach(c, from, sel)
            }),
    {
        self.lemma_under_child(j, i);
        self.lemma_node_ok(i);
        self.lemma_node_ok(from);
        let li = self.level(i);
        let c = self.meta@[j].chain[li + 1];
        let chain_j = self.meta@[j].chain;
        self.lemma_chain_prefix(j, li + 1);
        let chain_c = self.meta@[c].chain;
        assert(chain_c == chain_j.take(li + 2));
        assert(chain_j[li] == i);
        assert(self.meta@[chain_j[li + 1]].slot == self.meta@[c].slot);
        assert(chain_c[self.level(from)] == chain_j[self.level(from)]);
        assert forall|l: int| self.level(from) <= l < self.level(c) implies sel(
            self.meta@[chain_c[l]].cell,
            self.meta@[#[trigger] chain_c[l + 1]].slot,
        ) by {
            assert(chain_c[l] == chain_j[l]);
            assert(chain_c[l + 1] == chain_j[l + 1]);
        }
    }

    /// A descent that arrives at a branch goes on to each child that it
    /// selects.
    pub(crate) proof fn lemma_reach_step(
        &self,
        i: int,
        k: int,
        from: int,
        sel: spec_fn(CenteredAABB, int) -> bool,
    )
        requires
            self.wf_shape(),
            self.reach(i, from, sel),
            self.is_branch_at(i),
            0 <= k < 5,
            sel(self.meta@[i].cell, k),
        ensures
            self.reach(self.child(i, k), from, sel),
    {
        self.lemma_child(i, k);
        self.lemma_node_ok(i);
        self.lemma_node_ok(from);
        let c = self.child(i, k);
        let chain_c = self.meta@[c].chain;
        let chain_i = self.meta@[i].chain;
        assert(chain_c == chain_i.push(c));
        assert(chain_c[self.level(from)] == chain_i[self.level(from)]);
        assert forall|l: int| self.level(from) <= l < self.level(c) implies sel(
            self.meta@[chain_c[l]].cell,
            self.meta@[#[trigger] chain_c[l + 1]].slot,
        ) by {
            if l < self.level(i) {
                assert(chain_c[l] == chain_i[l]);
                assert(chain_c[l + 1] == chain_i[l + 1]);
            } else {
                assert(chain_c[l] == i);
                assert(chain_c[l + 1] == c);
            }
        }
    }

    /// Every node is below itself, and a descent that starts at a node has
    /// arrived at it.
    pub(crate) proof fn lemma_reach_self(&self, i: int, sel: spec_fn(CenteredAABB, int) -> bool)
        requires
            self.wf_shape(),
            self.in_tree(i),
        ensures
            self.under(i, i),
            self.reach(i, i, sel),
    {
        self.lemma_node_ok(i);
    }

    /// A descent that goes on to every child arrives at every node.
    pub(crate) proof fn lemma_reach_all(&self, i: int)
        requires
            self.wf_shape(),
            self.in_tree(i),
        ensures
            self.reach(i, 0, all_selector()),
    {
        self.lemma_shape();
        self.lemma_node_ok(i);
    }

    /// A descent for a mutation that starts on the way of the rectangle
    /// stays on it.
    pub(crate) proof fn lemma_on_path_reach(&self, from: int, i: int, rect: AABB)
        requires
            self.wf_shape(),
            self.on_path(from, rect),
            self.reach(i, from, aabb_selector(rect, FindLeafHint::Mutate)),
        ensures
            self.on_path(i, rect),
    {
        let chain = self.meta@[i].chain;
        self.lemma_node_ok(from);
        self.lemma_node_ok(i);
        let lf = self.level(from);
        self.lemma_chain_prefix(i, lf);
        assert(self.meta@[from].chain == chain.take(lf + 1));
        assert forall|l: int| 0 <= l < chain.len() - 1 implies self.meta@[#[trigger] chain[l + 1]].slot
            == self.meta@[chain[l]].cell.slot_of(&rect) by {
            if l < lf {
                assert(self.meta@[from].chain[l] == chain[l]);
                assert(self.meta@[from].chain[l + 1] == chain[l + 1]);
            } else {
                assert(aabb_selector(rect, FindLeafHint::Mutate)(
                    self.meta@[chain[l]].cell,
                    self.meta@[chain[l + 1]].slot,
                ));
            }
        }
    }

    /// A node on the way of a rectangle is a node at which a descent for a
    /// mutation with that rectangle arrives.
    pub(crate) proof fn lemma_on_path_is_reach(&self, i: int, rect: AABB)
        requires
            self.wf_shape(),
            self.in_tree(i),
            self.on_path(i, rect),
        ensures
            self.reach(i, 0, aabb_selector(rect, FindLeafHint::Mutate)),
    {
        self.lemma_shape();
        self.lemma_node_ok(i);
        let sel = aabb_selector(rect, FindLeafHint::Mutate);
        let chain = self.meta@[i].chain;
        assert forall|l: int| self.level(0) <= l < self.level(i) implies sel(
            self.meta@[chain[l]].cell,
            self.meta@[#[trigger] chain[l + 1]].slot,
        ) by {
            assert(self.meta@[chain[l + 1]].slot == self.meta@[chain[l]].cell.slot_of(&rect));
        }
    }

    /// A node on the way of a rectangle leads on to the child that the
    /// rectangle belongs to.
    pub(crate) proof fn lemma_on_path_child(&self, i: int, k: int, rect: AABB)
        requires
            self.wf_shape(),
            self.in_tree(i),
            self.is_branch_at(i),
            0 <= k < 5,
            self.on_path(i, rect),
            k == self.meta@[i].cell.slot_of(&rect),
        ensures
            self.on_path(self.child(i, k), rect),
    {
        self.lemma_child(i, k);
        self.lemma_node_ok(i);
        let c = self.child(i, k);
        let chain_c = self.meta@[c].chain;
        let chain_i = self.meta@[i].chain;
        assert(chain_c == chain_i.push(c));
        assert forall|l: int| 0 <= l < chain_c.len() - 1 implies self.meta@[#[trigger] chain_c[l + 1]].slot
            == self.meta@[chain_c[l]].cell.slot_of(&rect) by {
            if l < chain_i.len() - 1 {
                assert(chain_c[l] == chain_i[l]);
                assert(chain_c[l + 1] == chain_i[l + 1]);
            } else {
                assert(chain_c[l] == i);
                assert(chain_c[l + 1] == c);
            }
        }
    }

    /// A node that may be split and lies below a branch lies deeper than
    /// that branch.
    pub(crate) proof fn lemma_depth_below(&self, j: int, i: int)
        requires
            self.wf_shape(),
            self.under(j, i),
        ensures
            j == i || self.is_branch_at(i),
            j != i && self.meta@[j].can_split ==> self.meta@[j].depth > self.meta@[i].depth,
    {
        if j != i {
            self.lemma_under_child(j, i);
            self.lemma_node_ok(i);
            self.lemma_node_ok(j);
        }
    }

    /// Below every node at which a descent for a mutation arrives lies a
    /// leaf at which it arrives.
    pub(crate) proof fn lemma_descend(&self, i: int, rect: AABB) -> (leaf: int)
        requires
            self.wf_shape(),
            self.reach(i, 0, aabb_selector(rect, FindLeafHint::Mutate)),
        ensures
            self.is_leaf_at(leaf),
            self.reach(leaf, 0, aabb_selector(rect, FindLeafHint::Mutate)),
        decreases level_limit() - self.level(i),
    {
        self.lemma_node_ok(i);
        if self.is_branch_at(i) {
            let k = self.meta@[i].cell.slot_of(&rect);
            self.lemma_child(i, k);
            self.lemma_reach_step(i, k, 0, aabb_selector(rect, FindLeafHint::Mutate));
            self.lemma_descend(self.child(i, k), rect)
        } else {
            i
        }
    }

    /// Two descents for a mutation with one rectangle pass the same nodes.
    pub(crate) proof fn lemma_same_way(&self, i: int, j: int, rect: AABB, l: int)
        requires
            self.wf_shape(),
            self.reach(i, 0, aabb_selector(rect, FindLeafHint::Mutate)),
            self.reach(j, 0, aabb_selector(rect, FindLeafHint::Mutate)),
            0 <= l <= self.level(i),
            l <= self.level(j),
        ensures
            self.meta@[i].chain[l] == self.meta@[j].chain[l],
        decreases l,
    {
        self.lemma_shape();
        self.lemma_node_ok(i);
        self.lemma_node_ok(j);
        if l > 0 {
            self.lemma_same_way(i, j, rect, l - 1);
            let sel = aabb_selector(rect, FindLeafHint::Mutate);
            let a = self.meta@[i].chain[l - 1];
            let ci = self.meta@[i].chain[l];
            let cj = self.meta@[j].chain[l];
            self.lemma_chain_prefix(i, l - 1);
            self.lemma_chain_prefix(j, l - 1);
            self.lemma_chain_prefix(i, l);
            self.lemma_chain_prefix(j, l);
            if ci != a {
                self.lemma_under_child(ci, a);
            }
            if cj != a {
                self.lemma_under_child(cj, a);
            }
            self.lemma_node_ok(ci);
            self.lemma_node_ok(cj);
            assert(self.meta@[ci].chain[l - 1] == a);
            assert(self.meta@[cj].chain[l - 1] == a);
            assert(sel(self.meta@[self.meta@[i].chain[l - 1]].cell, self.meta@[self.meta@[i].chain[l]].slot));
            assert(sel(self.meta@[self.meta@[j].chain[l - 1]].cell, self.meta@[self.meta@[j].chain[l]].slot));
        }
    }

    /// A descent for a mutation arrives at one leaf only.
    pub(crate) proof fn lemma_target_unique(&self, i: int, j: int, rect: AABB)
        requires
            self.wf_shape(),
            self.is_leaf_at(i),
            self.is_leaf_at(j),
            self.reach(i, 0, aabb_selector(rect, FindLeafHint::Mutate)),
            self.reach(j, 0, aabb_selector(rect, FindLeafHint::Mutate)),
        ensures
            i == j,
    {
        self.lemma_node_ok(i);
        self.lemma_node_ok(j);
        if self.level(i) <= self.level(j) {
            self.lemma_same_way(i, j, rect, self.level(i));
            assert(self.under(j, i));
            if j != i {
                self.lemma_under_child(j, i);
            }
        } else {
            self.lemma_same_way(i, j, rect, self.level(j));
            assert(self.under(i, j));
            self.lemma_under_child(i, j);
        }
    }

    /// A query for a rectangle arrives at the leaf of every element whose
    /// rectangle it intersects.
    pub(crate) proof fn lemma_query_reaches(&self, e: int, rect: AABB)
        requires
            self.wf(),
            self.element_ids.is_live(e),
            rect.intersects(&self.element_rects@[e]),
        ensures
            self.is_leaf_at(self.leaf_of(e)),
            self.reach(self.leaf_of(e), 0, aabb_selector(rect, FindLeafHint::Query)),
    {
        self.lemma_element_entry(e, None, None);
        let leaf = self.leaf_of(e);
        self.lemma_shape();
        self.lemma_node_ok(leaf);
        self.lemma_list_owner_is_leaf(leaf);
        let sel = aabb_selector(rect, FindLeafHint::Query);
        let chain = self.meta@[leaf].chain;
        let own = self.element_rects@[e];
        assert forall|l: int| self.level(0) <= l < self.level(leaf) implies sel(
            self.meta@[chain[l]].cell,
            self.meta@[#[trigger] chain[l + 1]].slot,
        ) by {
            let c = self.meta@[chain[l]].cell;
            assert(self.meta@[chain[l + 1]].slot == c.slot_of(&own));
        }
    }

    /// The frames of distinct nodes of the tree are no more than the tree
    /// has nodes.
    pub(crate) proof fn lemma_distinct_frames(&self, frames: Seq<NodeData>)
        requires
            self.wf_shape(),
            forall|k: int| 0 <= k < frames.len() ==> self.frame_ok(#[trigger] frames[k]),
            forall|a: int, b: int|
                0 <= a < frames.len() && 0 <= b < frames.len() && a != b ==> (#[trigger] frames[a]).index
                    != (#[trigger] frames[b]).index,
        ensures
            frames.len() <= self.nodes@.len(),
            frames.len() < crate::quadtree::node_list::stack_limit(),
    {
        self.lemma_shape();
        let indices = Seq::new(frames.len(), |k: int| frames[k].index as int);
        assert(indices.no_duplicates());
        indices.unique_seq_to_set();
        let n = self.nodes@.len() as int;
        vstd::set_lib::lemma_int_range(0, n);
        assert(indices.to_set().subset_of(vstd::set_lib::set_int_range(0, n))) by {
            assert forall|x: int| indices.to_set().contains(x) implies vstd::set_lib::set_int_range(
                0,
                n,
            ).contains(x) by {
                let k = choose|k: int| 0 <= k < indices.len() && indices[k] == x;
                assert(self.frame_ok(frames[k]));
                self.lemma_node_ok(frames[k].index as int);
            }
        }
        vstd::set_lib::lemma_len_subset(indices.to_set(), vstd::set_lib::set_int_range(0, n));
    }

    /// The stack of a descent is no longer than the tree has nodes.
    pub(crate) proof fn lemma_stack_len(&self, stack: Seq<NodeData>)
        requires
            self.wf_shape(),
            self.stack_ok(stack),
        ensures
            stack.len() <= self.nodes@.len(),
            stack.len() < crate::quadtree::node_list::stack_limit(),
    {
        assert forall|a: int, b: int|
            0 <= a < stack.len() && 0 <= b < stack.len() && a != b implies (#[trigger] stack[a]).index
            != (#[trigger] stack[b]).index by {
            assert(self.frame_ok(stack[a]));
            self.lemma_reach_self(stack[a].index as int, |c: CenteredAABB, k: int| true);
        }
        self.lemma_distinct_frames(stack);
    }

    /// Every frame stands for some work.
    pub(crate) proof fn lemma_weight_positive(&self, level: int)
        ensures
            weight(level) >= 1,
    {
    }

    /// The weight of a stack is the weight of its parts.
    pub(crate) proof fn lemma_stack_weight_concat(&self, a: Seq<NodeData>, b: Seq<NodeData>)
        ensures
            self.stack_weight(a + b) == self.stack_weight(a) + self.stack_weight(b),
        decreases b.len(),
    {
        if b.len() == 0 {
            assert(a + b =~= a);
        } else {
            self.lemma_stack_weight_concat(a, b.drop_last());
            assert((a + b).drop_last() =~= a + b.drop_last());
        }
    }

    /// The frames of children of one node weigh the same, each.
    pub(crate) proof fn lemma_pushed_weight(&self, nd: NodeData, slots: Seq<int>)
        requires
            self.wf_shape(),
            self.frame_ok(nd),
            self.is_branch_at(nd.index as int),
            forall|t: int| 0 <= t < slots.len() ==> 0 <= #[trigger] slots[t] < 5,
        ensures
            self.stack_weight(
                child_frames(nd, self.nodes@[nd.index as int].first_child_or_element, slots),
            ) == slots.len() * weight(self.level(nd.index as int) + 1),
        decreases slots.len(),
    {
        let e = nd.index as int;
        self.lemma_node_ok(e);
        let fc = self.nodes@[e].first_child_or_element;
        let pushed = child_frames(nd, fc, slots);
        let w = weight(self.level(e) + 1);
        if slots.len() > 0 {
            self.lemma_pushed_weight(nd, slots.drop_last());
            assert(pushed.drop_last() =~= child_frames(nd, fc, slots.drop_last()));
            self.lemma_child(e, slots.last());
            assert(pushed.last().index == self.child(e, slots.last()));
            assert((slots.len() - 1) * w + w == slots.len() * w) by (nonlinear_arith);
        } else {
            assert(0 * w == 0) by (nonlinear_arith);
        }
    }

    /// The frames of children of the node on top of a stack, in place of
    /// that node, make a stack again.
    pub(crate) proof fn lemma_stack_children(&self, rest: Seq<NodeData>, nd: NodeData, slots: Seq<int>)
        requires
            self.wf_shape(),
            self.stack_ok(rest.push(nd)),
            self.is_branch_at(nd.index as int),
            slots.no_duplicates(),
            forall|t: int| 0 <= t < slots.len() ==> 0 <= #[trigger] slots[t] < 5,
        ensures
            self.stack_ok(
                rest + child_frames(nd, self.nodes@[nd.index as int].first_child_or_element, slots),
            ),
            forall|t: int|
                0 <= t < slots.len() ==> {
                    &&& (#[trigger] child_frames(
                        nd,
                        self.nodes@[nd.index as int].first_child_or_element,
                        slots,
                    )[t]).index == self.child(nd.index as int, slots[t])
                    &&& self.level(self.child(nd.index as int, slots[t])) == self.level(nd.index as int) + 1
                    &&& self.under(self.child(nd.index as int, slots[t]), nd.index as int)
                },
    {
        let stack = rest.push(nd);
        let n = rest.len() as int;
        let e = nd.index as int;
        let fc = self.nodes@[e].first_child_or_element;
        let pushed = child_frames(nd, fc, slots);
        let next = rest + pushed;
        assert(stack[n] == nd);
        assert(self.frame_ok(stack[n]));
        self.lemma_node_ok(e);
        assert forall|t: int| 0 <= t < slots.len() implies {
            &&& (#[trigger] pushed[t]).index == self.child(e, slots[t])
            &&& self.frame_ok(pushed[t])
            &&& self.level(pushed[t].index as int) == self.level(e) + 1
            &&& self.under(pushed[t].index as int, e)
        } by {
            let k = slots[t];
            self.lemma_child(e, k);
            NodeData::lemma_of_can_split(
                (fc + k) as u32,
                if k == 0 {
                    nd.depth
                } else {
                    (nd.depth + 1) as u8
                },
                nd.crect.child_cell(k),
                k != 0,
            );
        }
        assert forall|k: int| 0 <= k < next.len() implies self.frame_ok(#[trigger] next[k]) by {
            if k < n {
                assert(next[k] == stack[k]);
            } else {
                assert(next[k] == pushed[k - n]);
            }
        }
        assert forall|a: int, b: int|
            0 <= a < next.len() && 0 <= b < next.len() && a != b implies !self.under(
            (#[trigger] next[b]).index as int,
            (#[trigger] next[a]).index as int,
        ) by {
            if a < n && b < n {
                assert(next[a] == stack[a] && next[b] == stack[b]);
            } else if a < n {
                // A child below an older frame.
                assert(next[a] == stack[a]);
                assert(next[b] == pushed[b - n]);
                let s = stack[a].index as int;
                let c = pushed[b - n].index as int;
                if self.under(c, s) {
                    if s == c {
                        assert(self.under(stack[a].index as int, stack[n].index as int));
                    } else {
                        self.lemma_under_parent(e, slots[b - n], s);
                        assert(self.under(stack[n].index as int, stack[a].index as int));
                    }
                }
            } else if b < n {
                // An older frame below a child.
                assert(next[b] == stack[b]);
                assert(next[a] == pushed[a - n]);
                let c = pushed[a - n].index as int;
                if self.under(stack[b].index as int, c) {
                    self.lemma_under_trans(stack[b].index as int, c, e);
                    assert(self.under(stack[b].index as int, stack[n].index as int));
                }
            } else {
                assert(next[a] == pushed[a - n]);
                assert(next[b] == pushed[b - n]);
                if self.under(pushed[b - n].index as int, pushed[a - n].index as int) {
                    self.lemma_under_same_level(pushed[b - n].index as int, pushed[a - n].index as int);
                    assert(slots[a - n] == slots[b - n]);
                }
            }
        }
    }

    /// Below the frame of a branch on top of a stack there is room for the
    /// frames of its five children.
    pub(crate) proof fn lemma_stack_room(&self, rest: Seq<NodeData>, nd: NodeData)
        requires
            self.wf_shape(),
            self.stack_ok(rest.push(nd)),
            self.is_branch_at(nd.index as int),
        ensures
            rest.len() + 5 < stack_limit(),
    {
        let slots = seq![0int, 1, 2, 3, 4];
        self.lemma_stack_children(rest, nd, slots);
        let fc = self.nodes@[nd.index as int].first_child_or_element;
        self.lemma_stack_len(rest + child_frames(nd, fc, slots));
    }

    /// The descent starts with the frame of `from` alone on its stack.
    pub(crate) proof fn lemma_descent_start(&self, root: NodeData, sel: spec_fn(CenteredAABB, int) -> bool)
        requires
            self.wf_shape(),
            self.frame_ok(root),
        ensures
            self.descent_inv(seq![root], Seq::empty(), root.index as int, sel),
            self.stack_weight(seq![root]) == weight(self.level(root.index as int)),
    {
        let from = root.index as int;
        let stack = seq![root];
        self.lemma_reach_self(from, sel);
        assert forall|i: int|
            self.in_tree(i) && !self.is_branch_at(i) && #[trigger] self.reach(i, from, sel) implies self.in_leaves(
            Seq::empty(),
            i,
        ) || self.covered(stack, i) by {
            assert(self.under(i, stack[0].index as int));
        }
        assert(stack.drop_last() =~= Seq::empty());
        assert(self.stack_weight(stack) == self.stack_weight(stack.drop_last()) + weight(
            self.level(stack.last().index as int),
        ));
        assert(self.stack_weight(Seq::empty()) == 0);
    }

    /// The descent pops the frame of a leaf and adds it to the leaves found.
    pub(crate) proof fn lemma_descent_leaf(
        &self,
        rest: Seq<NodeData>,
        nd: NodeData,
        leaves: Seq<NodeData>,
        from: int,
        sel: spec_fn(CenteredAABB, int) -> bool,
    )
        requires
            self.wf_shape(),
            self.descent_inv(rest.push(nd), leaves, from, sel),
            !self.is_branch_at(nd.index as int),
        ensures
            self.descent_inv(rest, leaves.push(nd), from, sel),
            self.stack_weight(rest) < self.stack_weight(rest.push(nd)),
            leaves.len() < crate::quadtree::node_list::stack_limit(),
    {
        let stack = rest.push(nd);
        let n = rest.len() as int;
        let e = nd.index as int;
        assert(stack[n] == nd);
        assert(self.frame_ok(stack[n]));
        assert(self.reach(stack[n].index as int, from, sel));
        self.lemma_reach_self(e, sel);
        let found = leaves.push(nd);
        assert forall|k: int| 0 <= k < rest.len() implies self.frame_ok(#[trigger] rest[k]) by {
            assert(rest[k] == stack[k]);
        }
        assert forall|a: int, b: int|
            0 <= a < rest.len() && 0 <= b < rest.len() && a != b implies !self.under(
            (#[trigger] rest[b]).index as int,
            (#[trigger] rest[a]).index as int,
        ) by {
            assert(rest[a] == stack[a] && rest[b] == stack[b]);
        }
        assert forall|k: int| 0 <= k < rest.len() implies self.reach(
            (#[trigger] rest[k]).index as int,
            from,
            sel,
        ) by {
            assert(rest[k] == stack[k]);
        }
        assert forall|o: int| 0 <= o < found.len() implies {
            &&& self.frame_ok(#[trigger] found[o])
            &&& !self.is_branch_at(found[o].index as int)
            &&& self.reach(found[o].index as int, from, sel)
        } by {
            if o < leaves.len() {
                assert(found[o] == leaves[o]);
            }
        }
        assert forall|a: int, b: int|
            0 <= a < found.len() && 0 <= b < found.len() && a != b implies (#[trigger] found[a]).index
            != (#[trigger] found[b]).index by {
            if a < leaves.len() && b < leaves.len() {
                assert(found[a] == leaves[a] && found[b] == leaves[b]);
            } else if a < leaves.len() {
                assert(found[a] == leaves[a]);
                assert(!self.under(leaves[a].index as int, stack[n].index as int));
            } else {
                assert(found[b] == leaves[b]);
                assert(!self.under(leaves[b].index as int, stack[n].index as int));
            }
        }
        assert forall|a: int, o: int| 0 <= a < rest.len() && 0 <= o < found.len() implies !self.under(
            (#[trigger] found[o]).index as int,
            (#[trigger] rest[a]).index as int,
        ) by {
            assert(rest[a] == stack[a]);
            if o < leaves.len() {
                assert(found[o] == leaves[o]);
            } else {
                assert(found[o] == stack[n]);
            }
        }
        assert forall|i: int|
            self.in_tree(i) && !self.is_branch_at(i) && #[trigger] self.reach(i, from, sel) implies self.in_leaves(
            found,
            i,
        ) || self.covered(rest, i) by {
            if self.in_leaves(leaves, i) {
                let o = choose|o: int| 0 <= o < leaves.len() && (#[trigger] leaves[o]).index == i;
                assert(found[o] == leaves[o]);
            } else {
                assert(self.covered(stack, i));
                let a = choose|a: int|
                    0 <= a < stack.len() && self.under(i, (#[trigger] stack[a]).index as int);
                if a == n {
                    if i != e {
                        self.lemma_under_child(i, e);
                    }
                    assert(found[leaves.len() as int].index == i);
                } else {
                    assert(rest[a] == stack[a]);
                }
            }
        }
        assert(stack.drop_last() =~= rest);
        self.lemma_weight_positive(self.level(e));
        self.lemma_distinct_frames(found);
    }

    /// The descent pops the frame of a branch and pushes the frames of the
    /// children that it selects.
    pub(crate) proof fn lemma_descent_branch(
        &self,
        rest: Seq<NodeData>,
        nd: NodeData,
        slots: Seq<int>,
        leaves: Seq<NodeData>,
        from: int,
        sel: spec_fn(CenteredAABB, int) -> bool,
    )
        requires
            self.wf_shape(),
            self.descent_inv(rest.push(nd), leaves, from, sel),
            self.is_branch_at(nd.index as int),
            slots.no_duplicates(),
            forall|t: int| 0 <= t < slots.len() ==> 0 <= #[trigger] slots[t] < 5,
            forall|k: int| 0 <= k < 5 ==> (slots.contains(k) <==> sel(nd.crect, k)),
        ensures
            self.descent_inv(
                rest + child_frames(nd, self.nodes@[nd.index as int].first_child_or_element, slots),
                leaves,
                from,
                sel,
            ),
            self.stack_weight(
                rest + child_frames(nd, self.nodes@[nd.index as int].first_child_or_element, slots),
            ) < self.stack_weight(rest.push(nd)),
    {
        let stack = rest.push(nd);
        let n = rest.len() as int;
        let e = nd.index as int;
        let fc = self.nodes@[e].first_child_or_element;
        let pushed = child_frames(nd, fc, slots);
        let next = rest + pushed;
        assert(stack[n] == nd);
        assert(self.frame_ok(stack[n]));
        assert(self.reach(stack[n].index as int, from, sel));
        self.lemma_node_ok(e);
        // What holds of each pushed frame.
        assert forall|t: int| 0 <= t < slots.len() implies {
            &&& (#[trigger] pushed[t]).index == self.child(e, slots[t])
            &&& self.frame_ok(pushed[t])
            &&& self.reach(pushed[t].index as int, from, sel)
            &&& self.level(pushed[t].index as int) == self.level(e) + 1
            &&& self.under(pushed[t].index as int, e)
        } by {
            let k = slots[t];
            self.lemma_child(e, k);
            assert(slots.contains(k));
            self.lemma_reach_step(e, k, from, sel);
            NodeData::lemma_of_can_split(
                (fc + k) as u32,
                if k == 0 {
                    nd.depth
                } else {
                    (nd.depth + 1) as u8
                },
                nd.crect.child_cell(k),
                k != 0,
            );
        }
        assert forall|k: int| 0 <= k < next.len() implies self.frame_ok(#[trigger] next[k]) && self.reach(
            next[k].index as int,
            from,
            sel,
        ) by {
            if k < n {
                assert(next[k] == stack[k]);
            } else {
                assert(next[k] == pushed[k - n]);
            }
        }
        self.lemma_stack_children(rest, nd, slots);
        assert forall|a: int, o: int| 0 <= a < next.len() && 0 <= o < leaves.len() implies !self.under(
            (#[trigger] leaves[o]).index as int,
            (#[trigger] next[a]).index as int,
        ) by {
            if a < n {
                assert(next[a] == stack[a]);
            } else {
                assert(next[a] == pushed[a - n]);
                let c = pushed[a - n].index as int;
                if self.under(leaves[o].index as int, c) {
                    self.lemma_under_trans(leaves[o].index as int, c, e);
                    assert(self.under(leaves[o].index as int, stack[n].index as int));
                }
            }
        }
        assert forall|i: int|
            self.in_tree(i) && !self.is_branch_at(i) && #[trigger] self.reach(i, from, sel) implies self.in_leaves(
            leaves,
            i,
        ) || self.covered(next, i) by {
            if !self.in_leaves(leaves, i) {
                assert(self.covered(stack, i));
                let a = choose|a: int|
                    0 <= a < stack.len() && self.under(i, (#[trigger] stack[a]).index as int);
                if a == n {
                    self.lemma_under_child(i, e);
                    self.lemma_reach_child(i, e, from, sel);
                    let c = self.meta@[i].chain[self.level(e) + 1];
                    let k = self.meta@[c].slot;
                    assert(slots.contains(k));
                    let t = choose|t: int| 0 <= t < slots.len() && slots[t] == k;
                    assert(pushed[t].index == c);
                    assert(next[n + t] == pushed[t]);
                    assert(self.under(i, next[n + t].index as int));
                } else {
                    assert(next[a] == stack[a]);
                    assert(self.under(i, next[a].index as int));
                }
            }
        }
        // The weight.
        assert(stack.drop_last() =~= rest);
        self.lemma_stack_weight_concat(rest, pushed);
        self.lemma_pushed_weight(nd, slots);
        assert(slots.len() <= 5) by {
            slots.unique_seq_to_set();
            vstd::set_lib::lemma_int_range(0, 5);
            assert(slots.to_set().subset_of(vstd::set_lib::set_int_range(0, 5)));
            vstd::set_lib::lemma_len_subset(slots.to_set(), vstd::set_lib::set_int_range(0, 5));
        }
        self.lemma_child(e, 0);
        assert(weight(self.level(e)) == 1 + 5 * weight(self.level(e) + 1));
        assert(slots.len() * weight(self.level(e) + 1) <= 5 * weight(self.level(e) + 1)) by (nonlinear_arith)
            requires
                slots.len() <= 5,
        ;
    }

    /// Pushes the frames of the children of the node `nd` that a descent
    /// goes on to.
    pub(crate) fn collect_relevant_quadrants(
        to_process: &mut NodeList,
        nd: &NodeData,
        first_child_id: u32,
        quadrants: Quadrants,
        hint: FindLeafHint,
    )
        requires
            nd.crect.is_valid(),
            first_child_id + 4 <= u32::MAX,
            nd.depth < u8::MAX,
            old(to_process)@.len() + 5 < stack_limit(),
        ensures
            final(to_process)@ == old(to_process)@ + child_frames(
                *nd,
                first_child_id,
                pushed_slots(quadrants, hint),
            ),
    {
        // Opportunistically calculate the new child rects.
        let split_quadrants = nd.crect.split_quadrants();
        proof {
            assert(split_quadrants@ =~= child_cells(nd.crect));
        }

        match hint {
            FindLeafHint::Query => Self::collect_relevant_quadrants_for_query(
                to_process,
                nd.depth,
                first_child_id,
                quadrants,
                &split_quadrants,
            ),
            FindLeafHint::Mutate => Self::collect_relevant_quadrants_for_mutation(
                to_process,
                nd.depth,
                first_child_id,
                quadrants,
                &split_quadrants,
            ),
        }
    }

    /// Pushes the frame of the one child that a mutation descends to: the
    /// straddler bucket if the set holds it (or holds no one quadrant),
    /// else the quadrant that the set holds.
    pub(crate) fn collect_relevant_quadrants_for_mutation(
        to_process: &mut NodeList,
        depth: u8,
        first_child_id: u32,
        quadrants: Quadrants,
        split_quadrants: &[CenteredAABB; 5],
    )
        requires
            first_child_id + 4 <= u32::MAX,
            depth < u8::MAX,
            old(to_process)@.len() + 5 < stack_limit(),
        ensures
            final(to_process)@ == old(to_process)@ + slot_frames(
                depth,
                first_child_id,
                split_quadrants@,
                pushed_slots(quadrants, FindLeafHint::Mutate),
            ),
    {
        let index = quadrants.mutation_index();
        let offset: u32 = if index <= 4 {
            index
        } else {
            0
        };

        // The "this" node at offset 0 cannot be split.
        let can_split = offset > 0;

        // The child depth only increases for the non-"this" node.
        let mut child_depth = depth + 1;
        if offset == 0 {
            child_depth = depth;
        }
        to_process.push_back(
            NodeData::new_from_centered_aabb(
                first_child_id + offset,
                child_depth,
                split_quadrants[offset as usize],
                can_split,
            ),
        );
        proof {
            let slots = pushed_slots(quadrants, FindLeafHint::Mutate);
            assert(slots[0] == offset);
            assert(to_process@ =~= old(to_process)@ + slot_frames(
                depth,
                first_child_id,
                split_quadrants@,
                slots,
            ));
        }
    }

    /// Pushes the frames of the children that a query goes on to: the
    /// quadrants in the set, and on top of them the straddler bucket, which
    /// a query always explores.
    pub(crate) fn collect_relevant_quadrants_for_query(
        to_process: &mut NodeList,
        depth: u8,
        first_child_id: u32,
        quadrants: Quadrants,
        split_quadrants: &[CenteredAABB; 5],
    )
        requires
            first_child_id + 4 <= u32::MAX,
            depth < u8::MAX,
            old(to_process)@.len() + 5 < stack_limit(),
        ensures
            final(to_process)@ == old(to_process)@ + slot_frames(
                depth,
                first_child_id,
                split_quadrants@,
                pushed_slots(quadrants, FindLeafHint::Query),
            ),
    {
        let child_depth = depth + 1;

        let mut offset: u32 = 4;
        proof {
            assert(query_slots(quadrants, 5) =~= Seq::<int>::empty());
            assert(to_process@ =~= old(to_process)@ + slot_frames(
                depth,
                first_child_id,
                split_quadrants@,
                query_slots(quadrants, 5),
            ));
        }
        while offset >= 1
            invariant
                0 <= offset <= 4,
                first_child_id + 4 <= u32::MAX,
                child_depth == depth + 1,
                old(to_process)@.len() + 5 < stack_limit(),
                query_slots(quadrants, offset + 1).len() <= 4 - offset,
                to_process@ == old(to_process)@ + slot_frames(
                    depth,
                    first_child_id,
                    split_quadrants@,
                    query_slots(quadrants, offset + 1),
                ),
            decreases offset,
        {
            let ghost before = to_process@;
            if quadrants.at(offset) {
                to_process.push_back(
                    NodeData::new_from_centered_aabb(
                        first_child_id + offset,
                        child_depth,
                        split_quadrants[offset as usize],
                        true,
                    ),
                );
            }
            proof {
                assert(to_process@ =~= old(to_process)@ + slot_frames(
                    depth,
                    first_child_id,
                    split_quadrants@,
                    query_slots(quadrants, offset as int),
                ));
            }
            offset = offset - 1;
        }

        // In intersection tests we always need to explore the self node.
        to_process.push_back(
            NodeData::new_from_centered_aabb(
                first_child_id,
                // The "this" node is at the same depth and cannot split.
                depth,
                split_quadrants[0],
                false,
            ),
        );
        proof {
            assert(to_process@ =~= old(to_process)@ + slot_frames(
                depth,
                first_child_id,
                split_quadrants@,
                pushed_slots(quadrants, FindLeafHint::Query),
            ));
        }
    }

    /// Finds the leaves below the node with the frame `root` that a descent
    /// for the rectangle `rect` arrives at. A query arrives at every leaf
    /// whose way from `root` leads through slots that the rectangle touches
    /// and through straddler buckets; a mutation arrives at the one leaf
    /// that the rectangle belongs to.
    pub(crate) fn find_leaves_aabb(&self, root: NodeData, rect: &AABB, hint: FindLeafHint) -> (leaves:
        NodeList)
        requires
            self.wf_shape(),
            self.frame_ok(root),
        ensures
            self.leaves_found(leaves@, root.index as int, aabb_selector(*rect, hint)),
            self.leaves_complete(leaves@, root.index as int, aabb_selector(*rect, hint)),
            hint == FindLeafHint::Mutate ==> leaves@.len() == 1,
    {
        let mut leaves = NodeList::default();
        let mut to_process = NodeList::default();
        to_process.push_back(root);
        let ghost sel = aabb_selector(*rect, hint);
        let ghost from = root.index as int;
        proof {
            self.lemma_descent_start(root, sel);
            assert(to_process@ =~= seq![root]);
        }

        while to_process.len() > 0
            invariant
                self.wf_shape(),
                self.descent_inv(to_process@, leaves@, from, sel),
                sel == aabb_selector(*rect, hint),
                hint == FindLeafHint::Mutate ==> to_process@.len() + leaves@.len() == 1,
            decreases self.stack_weight(to_process@),
        {
            let ghost stack = to_process@;
            let nd = to_process.pop_back();
            proof {
                assert(stack =~= to_process@.push(nd));
                assert(self.frame_ok(stack[stack.len() - 1]));
                self.lemma_stack_len(stack);
                self.lemma_node_ok(nd.index as int);
            }

            // If this node is a leaf, insert it to the list.
            if self.nodes[nd.index as usize].is_leaf() {
                proof {
                    self.lemma_descent_leaf(to_process@, nd, leaves@, from, sel);
                }
                leaves.push_back(nd);
                continue ;
            }
            let fc = self.nodes[nd.index as usize].get_first_child_node_index();

            // Otherwise push the children that intersect the rectangle.
            let quadrants = nd.crect.explore_quadrants_aabb(rect);
            proof {
                self.lemma_child(nd.index as int, 4);
                assert(self.stack_ok(stack));
                self.lemma_stack_room(to_process@, nd);
                lemma_pushed_slots(quadrants, hint);
                let slots = pushed_slots(quadrants, hint);
                assert forall|k: int| 0 <= k < 5 implies (slots.contains(k) <==> sel(nd.crect, k)) by {
                    lemma_aabb_selector(nd.crect, *rect, hint, quadrants, k);
                }
                self.lemma_descent_branch(to_process@, nd, slots, leaves@, from, sel);
            }
            Self::collect_relevant_quadrants(&mut to_process, &nd, fc, quadrants, hint)
        }
        proof {
            assert forall|i: int|
                self.in_tree(i) && !self.is_branch_at(i) && #[trigger] self.reach(i, from, sel) implies self.in_leaves(
                leaves@,
                i,
            ) by {
                if self.covered(to_process@, i) {
                    let a = choose|a: int|
                        0 <= a < to_process@.len() && self.under(i, (#[trigger] to_process@[a]).index as int);
                }
            }
        }
        leaves
    }

    /// Finds the leaves that a descent for the shape `element` arrives at:
    /// every leaf whose way from `root` leads through quadrants whose box
    /// the shape intersects and through straddler buckets.
    pub(crate) fn find_leaves_generic<T>(&self, root: NodeData, element: &T) -> (leaves: NodeList) where
        T: Intersects<AABB>,

        requires
            self.wf_shape(),
            self.frame_ok(root),
        ensures
            self.leaves_found(leaves@, root.index as int, shape_selector(element)),
            self.leaves_complete(leaves@, root.index as int, shape_selector(element)),
    {
        let mut leaves = NodeList::default();
        let mut to_process = NodeList::default();
        to_process.push_back(root);
        let ghost sel = shape_selector(element);
        let ghost from = root.index as int;
        proof {
            self.lemma_descent_start(root, sel);
            assert(to_process@ =~= seq![root]);
        }

        while to_process.len() > 0
            invariant
                self.wf_shape(),
                self.descent_inv(to_process@, leaves@, from, sel),
                sel == shape_selector(element),
            decreases self.stack_weight(to_process@),
        {
            let ghost stack = to_process@;
            let nd = to_process.pop_back();
            proof {
                assert(stack =~= to_process@.push(nd));
                assert(self.frame_ok(stack[stack.len() - 1]));
                self.lemma_stack_len(stack);
                self.lemma_node_ok(nd.index as int);
            }

            // If this node is a leaf, insert it to the list.
            if self.nodes[nd.index as usize].is_leaf() {
                proof {
                    self.lemma_descent_leaf(to_process@, nd, leaves@, from, sel);
                }
                leaves.push_back(nd);
                continue ;
            }
            let fc = self.nodes[nd.index as usize].get_first_child_node_index();

            // Otherwise push the children that intersect the shape.
            let quadrants = nd.crect.explore_quadrants_generic(element);
            proof {
                self.lemma_child(nd.index as int, 4);
                assert(self.stack_ok(stack));
                self.lemma_stack_room(to_process@, nd);
                lemma_pushed_slots(quadrants, FindLeafHint::Query);
                let slots = pushed_slots(quadrants, FindLeafHint::Query);
                assert forall|k: int| 0 <= k < 5 implies (slots.contains(k) <==> sel(nd.crect, k)) by {
                    lemma_shape_selector(nd.crect, element, quadrants, k);
                }
                self.lemma_descent_branch(to_process@, nd, slots, leaves@, from, sel);
            }
            Self::collect_relevant_quadrants(&mut to_process, &nd, fc, quadrants, FindLeafHint::Query)
        }
        proof {
            assert forall|i: int|
                self.in_tree(i) && !self.is_branch_at(i) && #[trigger] self.reach(i, from, sel) implies self.in_leaves(
                leaves@,
                i,
            ) by {
                if self.covered(to_process@, i) {
                    let a = choose|a: int|
                        0 <= a < to_process@.len() && self.under(i, (#[trigger] to_process@[a]).index as int);
                }
            }
        }
        leaves
    }

    /// Finds all leaves of the tree.
    pub(crate) fn find_leaves_all(&self) -> (leaves: NodeList)
        requires
            self.wf_shape(),
        ensures
            self.leaves_found(leaves@, 0, all_selector()),
            forall|i: int| self.is_leaf_at(i) ==> self.in_leaves(leaves@, i),
    {
        let mut leaves = NodeList::default();
        let mut to_process = NodeList::default();
        let root = self.get_root_node_data();
        to_process.push_back(root);
        let ghost sel = all_selector();
        let ghost from = 0int;
        proof {
            self.lemma_descent_start(root, sel);
            assert(to_process@ =~= seq![root]);
        }

        while to_process.len() > 0
            invariant
                self.wf_shape(),
                self.descent_inv(to_process@, leaves@, from, sel),
                sel == all_selector(),
                from == 0,
            decreases self.stack_weight(to_process@),
        {
            let ghost stack = to_process@;
            let nd = to_process.pop_back();
            proof {
                assert(stack =~= to_process@.push(nd));
                assert(self.frame_ok(stack[stack.len() - 1]));
                self.lemma_stack_len(stack);
                self.lemma_node_ok(nd.index as int);
            }

            if self.nodes[nd.index as usize].is_leaf() {
                proof {
                    self.lemma_descent_leaf(to_process@, nd, leaves@, from, sel);
                }
                leaves.push_back(nd);
                continue ;
            }
            let fc = self.nodes[nd.index as usize].get_first_child_node_index();
            let quadrants = Quadrants::all();
            proof {
                self.lemma_child(nd.index as int, 4);
                assert(self.stack_ok(stack));
                self.lemma_stack_room(to_process@, nd);
                lemma_pushed_slots(quadrants, FindLeafHint::Query);
                let slots = pushed_slots(quadrants, FindLeafHint::Query);
                assert forall|k: int| 0 <= k < 5 implies (slots.contains(k) <==> sel(nd.crect, k)) by {
                    assert(selects(quadrants, FindLeafHint::Query, k));
                }
                self.lemma_descent_branch(to_process@, nd, slots, leaves@, from, sel);
            }
            Self::collect_relevant_quadrants(&mut to_process, &nd, fc, quadrants, FindLeafHint::Query)
        }
        proof {
            assert forall|i: int| self.is_leaf_at(i) implies self.in_leaves(leaves@, i) by {
                self.lemma_reach_all(i);
                if self.covered(to_process@, i) {
                    let a = choose|a: int|
                        0 <= a < to_process@.len() && self.under(i, (#[trigger] to_process@[a]).index as int);
                }
            }
        }
        leaves
    }
}

} // verus!
