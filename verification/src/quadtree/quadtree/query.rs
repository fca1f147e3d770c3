//! Collecting the elements that a shape intersects from the leaves that a descent has found.

use crate::intersections::Intersects;
use crate::quadtree::aabb::AABB;
use crate::quadtree::centered_aabb::CenteredAABB;
use crate::quadtree::free_list::{self};
use crate::quadtree::node_list::{NodeList};
use crate::quadtree::quadtree::{FindLeafHint, QuadTree, aabb_selector, shape_selector};
use crate::quadtree::quadtree_element::{ElementIdType};
use std::collections::HashSet;
use vstd::prelude::*;
use vstd::std_specs::hash::obeys_key_model;

verus! {

impl<ElementId> QuadTree<ElementId> where ElementId: ElementIdType {
    /// One step of the walk through the list of a leaf.
    pub(crate) proof fn lemma_leaf_hits_step<T: Intersects<AABB>>(
        &self,
        shape: &T,
        leaf: int,
        k: int,
        added: Seq<int>,
        ids: Seq<ElementId>,
    )
        requires
            self.wf(),
            self.in_tree(leaf),
            0 <= k < self.meta@[leaf].list.len(),
            self.leaf_hits(shape, leaf, k, added, ids),
        ensures
            shape.intersects_spec(&self.element_rects@[self.element_at(leaf, k)]) ==> self.leaf_hits(
                shape,
                leaf,
                k - 1,
                added.push(self.element_at(leaf, k)),
                ids.push(self.element_ids@[self.element_at(leaf, k)]),
            ),
            !shape.intersects_spec(&self.element_rects@[self.element_at(leaf, k)]) ==> self.leaf_hits(
                shape,
                leaf,
                k - 1,
                added,
                ids,
            ),
    {
        self.lemma_list_entry(leaf, k, None, None);
        let e = self.element_at(leaf, k);
        if shape.intersects_spec(&self.element_rects@[e]) {
            let more = added.push(e);
            let more_ids = ids.push(self.element_ids@[e]);
            assert forall|t: int| 0 <= t < added.len() implies added[t] != e by {
                assert(self.owner@[self.node_of@[added[t]]].1 > k);
            }
            assert forall|t: int| 0 <= t < more.len() implies {
                &&& self.hit_by(shape, #[trigger] more[t], more_ids[t])
                &&& self.leaf_of(more[t]) == leaf
                &&& self.owner@[self.node_of@[more[t]]].1 > k - 1
            } by {
                if t < added.len() {
                    assert(more[t] == added[t]);
                    assert(more_ids[t] == ids[t]);
                }
            }
            assert forall|pos: int|
                k - 1 < pos < self.meta@[leaf].list.len() && shape.intersects_spec(
                    &self.element_rects@[#[trigger] self.element_at(leaf, pos)],
                ) implies more.contains(self.element_at(leaf, pos)) by {
                if pos == k {
                    assert(more[added.len() as int] == e);
                } else {
                    let x = self.element_at(leaf, pos);
                    assert(added.contains(x));
                    let t = choose|t: int| 0 <= t < added.len() && added[t] == x;
                    assert(more[t] == x);
                }
            }
        }
    }

    /// The walk through the list of a leaf has found every element of the
    /// leaf that the shape intersects.
    pub(crate) proof fn lemma_leaf_hits_end<T: Intersects<AABB>>(
        &self,
        shape: &T,
        leaf: int,
        added: Seq<int>,
        ids: Seq<ElementId>,
    )
        requires
            self.wf(),
            self.in_tree(leaf),
            self.leaf_hits(shape, leaf, -1, added, ids),
        ensures
            self.hit_list(shape, ids, added, |i: int| i == leaf),
            self.hit_list_complete(shape, added, |i: int| i == leaf),
    {
        let scope = |i: int| i == leaf;
        assert forall|t: int| 0 <= t < added.len() implies self.hit_by(shape, #[trigger] added[t], ids[t])
            && scope(self.leaf_of(added[t])) by {}
        assert forall|x: int|
            self.element_ids.is_live(x) && shape.intersects_spec(&#[trigger] self.element_rects@[x]) && scope(
                self.leaf_of(x),
            ) implies added.contains(x) by {
            self.lemma_element_entry(x, None, None);
            let pos = self.owner@[self.node_of@[x]].1;
            assert(self.element_at(leaf, pos) == x);
        }
    }

    /// Appends to `hits` the ID of each element of the leaf `leaf` that the
    /// shape intersects, the newest element first.
    pub(crate) fn intersect_in_leaf<T>(&self, shape: &T, leaf: u32, hits: &mut Vec<ElementId>) -> (added: Ghost<
        Seq<int>,
    >) where T: Intersects<AABB>
        requires
            self.wf(),
            self.in_tree(leaf as int),
            !self.is_branch_at(leaf as int),
        ensures
            final(hits)@.len() == old(hits)@.len() + added@.len(),
            final(hits)@.take(old(hits)@.len() as int) == old(hits)@,
            self.hit_list(
                shape,
                final(hits)@.skip(old(hits)@.len() as int),
                added@,
                |i: int| i == leaf as int,
            ),
            self.hit_list_complete(shape, added@, |i: int| i == leaf as int),
    {
        proof {
            self.lemma_holder(leaf as int, None, None);
        }
        let ghost list = self.meta@[leaf as int].list;
        let ghost mut added: Seq<int> = Seq::empty();
        let ghost mut k: int = list.len() - 1;
        let ghost start = hits@.len() as int;
        let mut elem_node_idx = self.nodes[leaf as usize].first_child_or_element;
        proof {
            assert(hits@.skip(start) =~= Seq::<ElementId>::empty());
            assert(hits@.take(start) =~= hits@);
        }
        while elem_node_idx != free_list::SENTINEL
            invariant
                self.wf(),
                self.in_tree(leaf as int),
                list == self.meta@[leaf as int].list,
                -1 <= k < list.len(),
                elem_node_idx == (if k >= 0 {
                    list[k]
                } else {
                    free_list::SENTINEL
                }),
                start == old(hits)@.len(),
                hits@.len() == start + added.len(),
                hits@.take(start) == old(hits)@,
                self.leaf_hits(shape, leaf as int, k, added, hits@.skip(start)),
            decreases k + 1,
        {
            proof {
                self.lemma_list_entry(leaf as int, k, None, None);
                self.lemma_leaf_hits_step(shape, leaf as int, k, added, hits@.skip(start));
            }
            let elem_node = self.element_nodes.at(elem_node_idx);
            let elem_rect = self.element_rects.at(elem_node.element_idx);
            let ghost e = elem_node.element_idx as int;

            // Depending on the size of the quadrant, the candidate element
            // might still not be covered by the search shape.
            if shape.intersects_with(elem_rect) {
                let elem_id = *self.element_ids.at(elem_node.element_idx);
                let ghost before_hits = hits@;
                hits.push(elem_id);
                proof {
                    added = added.push(e);
                    assert(hits@.take(start) =~= before_hits.take(start));
                    assert(hits@.skip(start) =~= before_hits.skip(start).push(elem_id));
                }
            }
            proof {
                k = k - 1;
            }
            elem_node_idx = elem_node.next;
        }
        proof {
            if k >= 0 {
                self.lemma_list_entry(leaf as int, k, None, None);
            }
            self.lemma_leaf_hits_end(shape, leaf as int, added, hits@.skip(start));
        }
        Ghost(added)
    }

    /// Collects the ID of each element in one of the leaves that the shape
    /// intersects: leaf by leaf from the last one to the first one, in
    /// each leaf the newest element first.
    pub(crate) fn intersect_from_leaves<T>(
        &self,
        shape: &T,
        leaves: NodeList,
        Ghost(from): Ghost<int>,
        Ghost(sel): Ghost<spec_fn(CenteredAABB, int) -> bool>,
    ) -> (hits: (Vec<ElementId>, Ghost<Seq<int>>)) where T: Intersects<AABB>
        requires
            self.wf(),
            self.leaves_found(leaves@, from, sel),
        ensures
            self.hit_list(shape, hits.0@, hits.1@, |i: int| self.in_leaves(leaves@, i)),
            self.hit_list_complete(shape, hits.1@, |i: int| self.in_leaves(leaves@, i)),
    {
        let mut leaves = leaves;
        let ghost all = leaves@;
        let mut hits: Vec<ElementId> = Vec::new();
        let ghost mut handles: Seq<int> = Seq::empty();
        while !leaves.is_empty()
            invariant
                self.wf(),
                self.leaves_found(all, from, sel),
                leaves@.len() <= all.len(),
                leaves@ == all.take(leaves@.len() as int),
                self.hit_list(shape, hits@, handles, |i: int| Self::in_frames_from(all, leaves@.len() as int, i)),
                self.hit_list_complete(
                    shape,
                    handles,
                    |i: int| Self::in_frames_from(all, leaves@.len() as int, i),
                ),
            decreases leaves@.len(),
        {
            let ghost rem = leaves@.len() as int;
            let leaf_data = leaves.pop_back();
            proof {
                assert(leaf_data == all[rem - 1]);
                assert(self.frame_ok(all[rem - 1]));
                assert(leaves@ =~= all.take(rem - 1));
            }
            let ghost before_hits = hits@;
            let added = self.intersect_in_leaf(shape, leaf_data.index, &mut hits);
            proof {
                let leaf = leaf_data.index as int;
                let old_scope = |i: int| Self::in_frames_from(all, rem, i);
                let new_scope = |i: int| Self::in_frames_from(all, rem - 1, i);
                let one = |i: int| i == leaf;
                let tail = hits@.skip(before_hits.len() as int);
                let joined = handles + added@;
                assert forall|t: int| 0 <= t < joined.len() implies self.hit_by(
                    shape,
                    #[trigger] joined[t],
                    hits@[t],
                ) && new_scope(self.leaf_of(joined[t])) by {
                    if t < handles.len() {
                        assert(joined[t] == handles[t]);
                        assert(hits@[t] == hits@.take(before_hits.len() as int)[t]);
                        assert(old_scope(self.leaf_of(handles[t])));
                        let o = choose|o: int|
                            rem <= o < all.len() && (#[trigger] all[o]).index == self.leaf_of(handles[t]);
                        assert(all[o].index == self.leaf_of(handles[t]));
                    } else {
                        let u = t - handles.len();
                        assert(joined[t] == added@[u]);
                        assert(tail[u] == hits@[t]);
                        assert(one(self.leaf_of(added@[u])));
                        assert(all[rem - 1].index == leaf);
                    }
                }
                assert forall|a: int, b: int|
                    0 <= a < joined.len() && 0 <= b < joined.len() && a != b implies joined[a] != joined[b] by {
                    if a < handles.len() && b < handles.len() {
                        assert(joined[a] == handles[a] && joined[b] == handles[b]);
                    } else if a >= handles.len() && b >= handles.len() {
                        assert(joined[a] == added@[a - handles.len()]);
                        assert(joined[b] == added@[b - handles.len()]);
                    } else {
                        let (x, y) = if a < handles.len() {
                            (a, b)
                        } else {
                            (b, a)
                        };
                        assert(joined[x] == handles[x]);
                        assert(joined[y] == added@[y - handles.len()]);
                        assert(old_scope(self.leaf_of(handles[x])));
                        assert(one(self.leaf_of(added@[y - handles.len()])));
                        let o = choose|o: int|
                            rem <= o < all.len() && (#[trigger] all[o]).index == self.leaf_of(handles[x]);
                        assert(all[o].index != all[rem - 1].index);
                    }
                }
                assert forall|e: int|
                    self.element_ids.is_live(e) && shape.intersects_spec(&#[trigger] self.element_rects@[e])
                        && new_scope(self.leaf_of(e)) implies joined.contains(e) by {
                    let o = choose|o: int|
                        rem - 1 <= o < all.len() && (#[trigger] all[o]).index == self.leaf_of(e);
                    if o == rem - 1 {
                        assert(one(self.leaf_of(e)));
                        assert(added@.contains(e));
                        let t = choose|t: int| 0 <= t < added@.len() && added@[t] == e;
                        assert(joined[handles.len() + t] == e);
                    } else {
                        assert(all[o].index == self.leaf_of(e));
                        assert(old_scope(self.leaf_of(e)));
                        assert(handles.contains(e));
                        let t = choose|t: int| 0 <= t < handles.len() && handles[t] == e;
                        assert(joined[t] == e);
                    }
                }
                handles = joined;
            }
        }
        proof {
            let scope = |i: int| self.in_leaves(all, i);
            assert forall|t: int| 0 <= t < handles.len() implies self.hit_by(shape, #[trigger] handles[t], hits@[t])
                && scope(self.leaf_of(handles[t])) by {
                let i = self.leaf_of(handles[t]);
                assert(Self::in_frames_from(all, 0, i));
                let o = choose|o: int| 0 <= o < all.len() && (#[trigger] all[o]).index == i;
                assert(all[o].index == i);
                assert(self.in_leaves(all, i));
            }
            assert forall|e: int|
                self.element_ids.is_live(e) && shape.intersects_spec(&#[trigger] self.element_rects@[e])
                    && scope(self.leaf_of(e)) implies handles.contains(e) by {
                let i = self.leaf_of(e);
                assert(self.in_leaves(all, i));
                let o = choose|o: int| 0 <= o < all.len() && (#[trigger] all[o]).index == i;
                assert(all[o].index == i);
                assert(Self::in_frames_from(all, 0, i));
            }
        }
        (hits, Ghost(handles))
    }

    /// The size that a set of results gets to begin with: the number of
    /// leaves that the query touched times the number of elements that a
    /// leaf holds before it splits, but no more than the tree has room for
    /// elements.
    pub(crate) fn capacity_hint(&self, leaves_touched: usize) -> (capacity: usize)
        ensures
            capacity == (if leaves_touched * self.max_num_elements <= self.element_ids.capacity_spec() {
                leaves_touched * self.max_num_elements
            } else {
                self.element_ids.capacity_spec() as int
            }),
    {
        let limit = self.element_ids.capacity();
        match leaves_touched.checked_mul(self.max_num_elements as usize) {
            Some(capacity) => if capacity <= limit {
                capacity
            } else {
                limit
            },
            None => limit,
        }
    }

    /// Lists the ID of each element whose rectangle intersects `rect`,
    /// once for each element, together with the handles of these elements.
    pub(crate) fn collect_aabb(&self, rect: &AABB, leaves: NodeList) -> (hits: (Vec<ElementId>, Ghost<Seq<int>>))
        requires
            self.wf(),
            self.leaves_found(leaves@, 0, aabb_selector(*rect, FindLeafHint::Query)),
            self.leaves_complete(leaves@, 0, aabb_selector(*rect, FindLeafHint::Query)),
        ensures
            self.lists_intersecting(*rect, hits.0@, hits.1@),
            hits.0@.to_set() == self.ids_intersecting(*rect),
    {
        let ghost found = leaves@;
        let ghost sel = aabb_selector(*rect, FindLeafHint::Query);
        let hits = self.intersect_from_leaves(rect, leaves, Ghost(0), Ghost(sel));
        proof {
            let ids = hits.0@;
            let handles = hits.1@;
            assert forall|t: int| 0 <= t < handles.len() implies self.holds(#[trigger] handles[t], ids[t])
                && rect.intersects_spec(&self.elements()[handles[t]].rect) by {
                assert(self.hit_by(rect, handles[t], ids[t]));
            }
            assert forall|h: int|
                self.elements().dom().contains(h) && rect.intersects(&(#[trigger] self.elements()[h]).rect)
                    implies handles.contains(h) by {
                self.lemma_query_reaches(h, *rect);
                assert(self.in_leaves(found, self.leaf_of(h)));
                assert(rect.intersects_spec(&self.element_rects@[h]));
            }
            assert forall|id: ElementId| ids.to_set().contains(id) <==> self.ids_intersecting(*rect).contains(
                id,
            ) by {
                if ids.to_set().contains(id) {
                    let t = choose|t: int| 0 <= t < ids.len() && ids[t] == id;
                    assert(self.hits(handles[t], id, *rect));
                }
                if self.ids_intersecting(*rect).contains(id) {
                    let h = choose|h: int| self.hits(h, id, *rect);
                    assert(handles.contains(h));
                    let t = choose|t: int| 0 <= t < handles.len() && handles[t] == h;
                    assert(self.holds(handles[t], ids[t]));
                    assert(ids[t] == id);
                }
            }
            assert(ids.to_set() =~= self.ids_intersecting(*rect));
        }
        hits
    }

    /// Lists the ID of each element whose rectangle the shape intersects
    /// and whose leaf a descent for the shape arrives at, once for each
    /// element, together with the handles of these elements.
    pub(crate) fn collect_generic<T>(&self, element: &T, leaves: NodeList) -> (hits: (
        Vec<ElementId>,
        Ghost<Seq<int>>,
    )) where T: Intersects<AABB>
        requires
            self.wf(),
            self.leaves_found(leaves@, 0, shape_selector(element)),
            self.leaves_complete(leaves@, 0, shape_selector(element)),
        ensures
            self.lists_reached(element, hits.0@, hits.1@),
            hits.0@.to_set() == self.ids_reached(element),
    {
        let ghost found = leaves@;
        let ghost sel = shape_selector(element);
        let hits = self.intersect_from_leaves(element, leaves, Ghost(0), Ghost(sel));
        proof {
            let ids = hits.0@;
            let handles = hits.1@;
            assert forall|t: int| 0 <= t < handles.len() implies self.holds(#[trigger] handles[t], ids[t])
                && element.intersects_spec(&self.elements()[handles[t]].rect) && self.shape_reaches(
                element,
                handles[t],
            ) by {
                assert(self.hit_by(element, handles[t], ids[t]));
                let leaf = self.leaf_of(handles[t]);
                assert(self.in_leaves(found, leaf));
                let o = choose|o: int| 0 <= o < found.len() && (#[trigger] found[o]).index == leaf;
                assert(self.reach(found[o].index as int, 0, sel));
            }
            assert forall|h: int|
                self.elements().dom().contains(h) && element.intersects_spec(
                    &(#[trigger] self.elements()[h]).rect,
                ) && self.shape_reaches(element, h) implies handles.contains(h) by {
                self.lemma_element_entry(h, None, None);
                let leaf = self.leaf_of(h);
                self.lemma_list_owner_is_leaf(leaf);
                assert(self.in_leaves(found, leaf));
                assert(element.intersects_spec(&self.element_rects@[h]));
            }
            assert forall|id: ElementId| ids.to_set().contains(id) <==> self.ids_reached(element).contains(
                id,
            ) by {
                if ids.to_set().contains(id) {
                    let t = choose|t: int| 0 <= t < ids.len() && ids[t] == id;
                    assert(self.holds(handles[t], id));
                    assert(self.shape_reaches(element, handles[t]));
                }
                if self.ids_reached(element).contains(id) {
                    let h = choose|h: int|
                        self.holds(h, id) && element.intersects_spec(&self.elements()[h].rect)
                            && #[trigger] self.shape_reaches(element, h);
                    assert(handles.contains(h));
                    let t = choose|t: int| 0 <= t < handles.len() && handles[t] == h;
                    assert(self.holds(handles[t], ids[t]));
                    assert(ids[t] == id);
                }
            }
            assert(ids.to_set() =~= self.ids_reached(element));
        }
        hits
    }

    /// Puts the IDs into a set of the given initial capacity.
    pub(crate) fn to_id_set(ids: Vec<ElementId>, capacity: usize) -> (set: HashSet<ElementId>)
        ensures
            obeys_key_model::<ElementId>() ==> set@ == ids@.to_set(),
    {
        let mut node_set: HashSet<ElementId> = HashSet::with_capacity(capacity);
        let mut i: usize = 0;
        while i < ids.len()
            invariant
                i <= ids.len(),
                obeys_key_model::<ElementId>() ==> node_set@ == ids@.take(i as int).to_set(),
            decreases ids.len() - i,
        {
            node_set.insert(ids[i]);
            proof {
                assert(ids@.take(i + 1) == ids@.take(i as int).push(ids@[i as int]));
                ids@.take(i as int).lemma_push_to_set_commute(ids@[i as int]);
            }
            i = i + 1;
        }
        proof {
            assert(ids@.take(ids.len() as int) == ids@);
        }
        node_set
    }
}

} // verus!
