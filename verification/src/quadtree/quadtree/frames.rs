//! The frames that a descent pushes onto its stack, and the children that
//! it selects.

use crate::intersections::Intersects;
use crate::quadtree::aabb::AABB;
use crate::quadtree::centered_aabb::CenteredAABB;
use crate::quadtree::node_data::NodeData;
use crate::quadtree::quadrants::Quadrants;
use crate::quadtree::quadtree::{level_limit, FindLeafHint};
use vstd::prelude::*;

verus! {

/// The work that a frame at the given level stands for: one step for the
/// frame itself and the work of five frames one level deeper.
pub open spec fn weight(level: int) -> nat
    decreases level_limit() - level,
{
    if level >= level_limit() {
        1
    } else {
        1 + 5 * weight(level + 1)
    }
}

/// The frame of the child at offset `k` of a branch at depth `depth` whose
/// children start at the index `first_child` and have the cells `cells`.
/// The straddler bucket, at offset 0, keeps the depth of the branch and
/// may not be split; a quadrant lies one level deeper.
pub open spec fn slot_frame(depth: u8, first_child: u32, cells: Seq<CenteredAABB>, k: int) -> NodeData {
    NodeData::of(
        (first_child + k) as u32,
        if k == 0 {
            depth
        } else {
            (depth + 1) as u8
        },
        cells[k],
        k != 0,
    )
}

/// The cells of the five children of a branch with the cell `cell`.
pub open spec fn child_cells(cell: CenteredAABB) -> Seq<CenteredAABB> {
    Seq::new(5, |k: int| cell.child_cell(k))
}

/// The frame of the child at offset `k` of a branch with the frame `nd`
/// whose children start at the index `first_child`.
pub open spec fn child_frame(nd: NodeData, first_child: u32, k: int) -> NodeData {
    slot_frame(nd.depth, first_child, child_cells(nd.crect), k)
}

/// The frames of the children at the given offsets of a branch at depth
/// `depth`, in the order of the offsets.
pub open spec fn slot_frames(depth: u8, first_child: u32, cells: Seq<CenteredAABB>, slots: Seq<int>) -> Seq<
    NodeData,
> {
    Seq::new(slots.len(), |t: int| slot_frame(depth, first_child, cells, slots[t]))
}

/// The frames of the children at the given offsets, in their order.
pub open spec fn child_frames(nd: NodeData, first_child: u32, slots: Seq<int>) -> Seq<NodeData> {
    slot_frames(nd.depth, first_child, child_cells(nd.crect), slots)
}

/// The offsets of the quadrants from `lo` upwards that the set holds, the
/// largest first.
pub open spec fn query_slots(quadrants: Quadrants, lo: int) -> Seq<int>
    decreases 5 - lo,
{
    if lo >= 5 {
        Seq::empty()
    } else if quadrants.has(lo) {
        query_slots(quadrants, lo + 1).push(lo)
    } else {
        query_slots(quadrants, lo + 1)
    }
}

/// The offset of the child that a mutation descends to.
pub open spec fn mutate_slot(quadrants: Quadrants) -> int {
    if quadrants.mutation_index_spec() <= 4 {
        quadrants.mutation_index_spec()
    } else {
        0
    }
}

/// The offsets of the children that a descent goes on to, in the order in
/// which it pushes their frames. A query goes on to every quadrant in the
/// set and to the straddler bucket, which it visits first; a mutation goes
/// on to one child.
pub open spec fn pushed_slots(quadrants: Quadrants, hint: FindLeafHint) -> Seq<int> {
    match hint {
        FindLeafHint::Query => query_slots(quadrants, 1).push(0),
        FindLeafHint::Mutate => seq![mutate_slot(quadrants)],
    }
}

/// Whether a descent goes on to the child at offset `k`.
pub open spec fn selects(quadrants: Quadrants, hint: FindLeafHint, k: int) -> bool {
    match hint {
        FindLeafHint::Query => k == 0 || (1 <= k <= 4 && quadrants.has(k)),
        FindLeafHint::Mutate => k == mutate_slot(quadrants),
    }
}

/// The offsets of the quadrants in the set are offsets of quadrants, each
/// once.
pub proof fn lemma_query_slots(quadrants: Quadrants, lo: int)
    requires
        1 <= lo <= 5,
    ensures
        query_slots(quadrants, lo).no_duplicates(),
        forall|t: int|
            0 <= t < query_slots(quadrants, lo).len() ==> lo <= #[trigger] query_slots(quadrants, lo)[t]
                < 5,
        forall|k: int| query_slots(quadrants, lo).contains(k) <==> (lo <= k < 5 && quadrants.has(k)),
    decreases 5 - lo,
{
    if lo < 5 {
        lemma_query_slots(quadrants, lo + 1);
        let rest = query_slots(quadrants, lo + 1);
        let all = query_slots(quadrants, lo);
        if quadrants.has(lo) {
            assert(all == rest.push(lo));
            assert forall|k: int| all.contains(k) <==> (lo <= k < 5 && quadrants.has(k)) by {
                if all.contains(k) {
                    let t = choose|t: int| 0 <= t < all.len() && all[t] == k;
                    if t < rest.len() {
                        assert(rest[t] == k);
                        assert(rest.contains(k));
                    }
                }
                if lo <= k < 5 && quadrants.has(k) {
                    if k == lo {
                        assert(all[rest.len() as int] == k);
                    } else {
                        assert(rest.contains(k));
                        let t = choose|t: int| 0 <= t < rest.len() && rest[t] == k;
                        assert(all[t] == k);
                    }
                }
            }
        }
    } else {
        assert forall|k: int| !query_slots(quadrants, lo).contains(k) by {
            if query_slots(quadrants, lo).contains(k) {
                let t = choose|t: int| 0 <= t < query_slots(quadrants, lo).len() && query_slots(quadrants, lo)[t] == k;
            }
        }
    }
}

/// The offsets that a descent pushes are the offsets that it selects, each
/// once.
pub proof fn lemma_pushed_slots(quadrants: Quadrants, hint: FindLeafHint)
    ensures
        pushed_slots(quadrants, hint).no_duplicates(),
        forall|t: int|
            0 <= t < pushed_slots(quadrants, hint).len() ==> 0 <= #[trigger] pushed_slots(quadrants, hint)[t]
                < 5,
        forall|k: int| pushed_slots(quadrants, hint).contains(k) <==> selects(quadrants, hint, k),
        hint == FindLeafHint::Mutate ==> pushed_slots(quadrants, hint).len() == 1,
{
    let all = pushed_slots(quadrants, hint);
    match hint {
        FindLeafHint::Query => {
            lemma_query_slots(quadrants, 1);
            let rest = query_slots(quadrants, 1);
            assert forall|k: int| all.contains(k) <==> selects(quadrants, hint, k) by {
                if all.contains(k) {
                    let t = choose|t: int| 0 <= t < all.len() && all[t] == k;
                    if t < rest.len() {
                        assert(rest[t] == k);
                        assert(rest.contains(k));
                    }
                }
                if selects(quadrants, hint, k) {
                    if k == 0 {
                        assert(all[rest.len() as int] == k);
                    } else {
                        assert(rest.contains(k));
                        let t = choose|t: int| 0 <= t < rest.len() && rest[t] == k;
                        assert(all[t] == k);
                    }
                }
            }
        },
        FindLeafHint::Mutate => {
            assert(all[0] == mutate_slot(quadrants));
            assert forall|k: int| all.contains(k) <==> selects(quadrants, hint, k) by {
                if all.contains(k) {
                    let t = choose|t: int| 0 <= t < all.len() && all[t] == k;
                }
            }
        },
    }
}

/// The children that a descent for the rectangle `rect` goes on to from a
/// branch with the cell `c`. A mutation goes on to the child that the
/// rectangle belongs to. A query goes on to the straddler bucket and to
/// each quadrant whose two half-planes the rectangle reaches.
pub open spec fn aabb_selector(rect: AABB, hint: FindLeafHint) -> spec_fn(CenteredAABB, int) -> bool {
    |c: CenteredAABB, k: int|
        match hint {
            FindLeafHint::Mutate => k == c.slot_of(&rect),
            FindLeafHint::Query => k == 0 || (k == 1 && c.reaches_top(&rect) && c.reaches_left(&rect))
                || (k == 2 && c.reaches_top(&rect) && c.reaches_right(&rect)) || (k == 3
                && c.reaches_bottom(&rect) && c.reaches_left(&rect)) || (k == 4 && c.reaches_bottom(
                &rect,
            ) && c.reaches_right(&rect)),
        }
}

/// The classification of a rectangle selects the children that a descent
/// for it goes on to.
pub proof fn lemma_aabb_selector(c: CenteredAABB, rect: AABB, hint: FindLeafHint, quadrants: Quadrants, k: int)
    requires
        c.touched_by_aabb(&rect, quadrants),
        quadrants.mutation_index_spec() == c.slot_of(&rect),
        0 <= k < 5,
    ensures
        selects(quadrants, hint, k) <==> aabb_selector(rect, hint)(c, k),
{
}

/// The children that a descent for a shape goes on to from a branch with
/// the cell `c`: the straddler bucket, and each quadrant whose box the
/// shape intersects.
pub open spec fn shape_selector<T: Intersects<AABB>>(shape: &T) -> spec_fn(CenteredAABB, int) -> bool {
    |c: CenteredAABB, k: int| k == 0 || (1 <= k <= 4 && shape.intersects_spec(&c.quadrant_box(k)))
}

/// A descent that goes on to every child of every branch.
pub open spec fn all_selector() -> spec_fn(CenteredAABB, int) -> bool {
    |c: CenteredAABB, k: int| true
}

/// The classification of a shape selects the children that a descent for
/// it goes on to.
pub proof fn lemma_shape_selector<T: Intersects<AABB>>(c: CenteredAABB, shape: &T, quadrants: Quadrants, k: int)
    requires
        c.touched_by_shape(shape, quadrants),
        0 <= k < 5,
    ensures
        selects(quadrants, FindLeafHint::Query, k) <==> shape_selector(shape)(c, k),
{
}

} // verus!
