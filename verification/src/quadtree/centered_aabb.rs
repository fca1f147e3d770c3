use crate::intersections::Intersects;
use crate::quadtree::aabb::AABB;
use crate::quadtree::point::Point;
use crate::quadtree::quadrants::{bit, Quadrants};
use std::ops::RangeInclusive;
use vstd::prelude::*;

verus! {

/// An axis-aligned bounding box given by its center and its half extents.
///
/// This is the form in which the quadtree keeps the cell of a node: halving
/// a cell only needs its center and half of its half extents.
#[derive(Debug, Default, Copy, Clone, PartialEq, Eq, Structural)]
pub struct CenteredAABB {
    /// The center X coordinate.
    pub center_x: i32,
    /// The center Y coordinate.
    pub center_y: i32,
    /// The half-width of the AABB.
    pub half_width: i32,
    /// The half-height of the AABB.
    pub half_height: i32,
}

impl CenteredAABB {
    /// The half extents are not negative and all four edges are
    /// representable coordinates.
    pub open spec fn is_valid(&self) -> bool {
        &&& 0 <= self.half_width
        &&& 0 <= self.half_height
        &&& i32::MIN <= self.center_x - self.half_width
        &&& self.center_x + self.half_width <= i32::MAX
        &&& i32::MIN <= self.center_y - self.half_height
        &&& self.center_y + self.half_height <= i32::MAX
    }

    /// The box with the given left and top edges whose half extents are
    /// half of `width` and `height`, rounded down.
    pub open spec fn from_ltwh_spec(left: i32, top: i32, width: i32, height: i32) -> CenteredAABB {
        CenteredAABB {
            center_x: (left + width / 2) as i32,
            center_y: (top + height / 2) as i32,
            half_width: (width / 2) as i32,
            half_height: (height / 2) as i32,
        }
    }

    /// Constructs the centered box from its left and top edges and its
    /// width and height. Odd extents round down to the next even extent.
    pub fn from_ltwh(left: i32, top: i32, width: i32, height: i32) -> (c: Self)
        requires
            0 <= width,
            0 <= height,
            left + width <= i32::MAX,
            top + height <= i32::MAX,
        ensures
            c == Self::from_ltwh_spec(left, top, width, height),
            c.is_valid(),
            c.left_spec() == left,
            c.top_spec() == top,
            c.right_spec() <= left + width,
            c.bottom_spec() <= top + height,
    {
        let hx = width / 2;
        let hy = height / 2;
        let mx = left + hx;
        let my = top + hy;
        Self { center_x: mx, center_y: my, half_width: hx, half_height: hy }
    }

    /// The rectangle starts at or before the vertical center line.
    pub open spec fn reaches_left(&self, rect: &AABB) -> bool {
        rect.tl.x <= self.center_x
    }

    /// The rectangle ends after the vertical center line.
    pub open spec fn reaches_right(&self, rect: &AABB) -> bool {
        rect.br.x > self.center_x
    }

    /// The rectangle starts at or before the horizontal center line.
    pub open spec fn reaches_top(&self, rect: &AABB) -> bool {
        rect.tl.y <= self.center_y
    }

    /// The rectangle ends after the horizontal center line.
    pub open spec fn reaches_bottom(&self, rect: &AABB) -> bool {
        rect.br.y > self.center_y
    }

    /// The rectangle reaches into both horizontal halves or into both
    /// vertical halves of this cell.
    pub open spec fn straddles(&self, rect: &AABB) -> bool {
        (self.reaches_left(rect) && self.reaches_right(rect)) || (self.reaches_top(rect)
            && self.reaches_bottom(rect))
    }

    /// The slots of this cell that a rectangle touches: each quadrant whose
    /// two half-planes it reaches, and the straddler slot iff it straddles.
    /// The center lines belong to the top and to the left halves.
    pub open spec fn touched_by_aabb(&self, rect: &AABB, q: Quadrants) -> bool {
        q.is_flags(
            self.straddles(rect),
            self.reaches_top(rect) && self.reaches_left(rect),
            self.reaches_top(rect) && self.reaches_right(rect),
            self.reaches_bottom(rect) && self.reaches_left(rect),
            self.reaches_bottom(rect) && self.reaches_right(rect),
        )
    }

    /// The offset of the child slot that a rectangle belongs to when this
    /// cell is split: 0, the straddler bucket, if it straddles a center line
    /// (or reaches no quadrant at all), else the offset of its one quadrant.
    pub open spec fn slot_of(&self, rect: &AABB) -> int {
        if self.straddles(rect) {
            0
        } else if self.reaches_top(rect) && self.reaches_left(rect) {
            1
        } else if self.reaches_top(rect) && self.reaches_right(rect) {
            2
        } else if self.reaches_bottom(rect) && self.reaches_left(rect) {
            3
        } else if self.reaches_bottom(rect) && self.reaches_right(rect) {
            4
        } else {
            0
        }
    }

    /// Computes which of the five slots of this cell the rectangle `other`
    /// touches, by half-plane tests against the center.
    pub fn explore_quadrants_aabb(&self, other: &AABB) -> (q: Quadrants)
        ensures
            self.touched_by_aabb(other, q),
            q.mutation_index_spec() == self.slot_of(other),
    {
        let explore_top = other.tl.y <= self.center_y;
        let explore_bottom = other.br.y > self.center_y;
        let explore_left = other.tl.x <= self.center_x;
        let explore_right = other.br.x > self.center_x;
        Quadrants::from_tests(explore_left, explore_top, explore_right, explore_bottom)
    }

    /// The slots of this cell that a shape touches: each quadrant whose box
    /// it intersects, and the straddler slot iff it intersects at least two
    /// of them.
    pub open spec fn touched_by_shape<T: Intersects<AABB>>(&self, shape: &T, q: Quadrants) -> bool {
        q.is_flags(
            bit(shape.intersects_spec(&self.quadrant_box(1))) + bit(
                shape.intersects_spec(&self.quadrant_box(2)),
            ) + bit(shape.intersects_spec(&self.quadrant_box(3))) + bit(
                shape.intersects_spec(&self.quadrant_box(4)),
            ) >= 2,
            shape.intersects_spec(&self.quadrant_box(1)),
            shape.intersects_spec(&self.quadrant_box(2)),
            shape.intersects_spec(&self.quadrant_box(3)),
            shape.intersects_spec(&self.quadrant_box(4)),
        )
    }

    /// Computes which of the five slots of this cell the shape `other`
    /// touches, by one intersection test per quadrant box.
    pub fn explore_quadrants_generic<T>(&self, other: &T) -> (q: Quadrants) where
        T: Intersects<AABB>,

        requires
            self.is_valid(),
        ensures
            self.touched_by_shape(other, q),
    {
        let top_left = AABB::from_ranges(self.left_half(), self.top_half());
        let top_right = AABB::from_ranges(self.right_half(), self.top_half());
        let bottom_left = AABB::from_ranges(self.left_half(), self.bottom_half());
        let bottom_right = AABB::from_ranges(self.right_half(), self.bottom_half());

        Quadrants::from_intersections(
            other.intersects_with(&top_left),
            other.intersects_with(&top_right),
            other.intersects_with(&bottom_left),
            other.intersects_with(&bottom_right),
        )
    }

    /// The box of the quadrant with the given offset (1 to 4), both center
    /// lines included; for any other offset, the box of the whole cell.
    pub open spec fn quadrant_box(&self, slot: int) -> AABB {
        let left = (if slot == 2 || slot == 4 { self.center_x as int } else { self.left_spec() });
        let right = (if slot == 1 || slot == 3 { self.center_x as int } else { self.right_spec() });
        let top = (if slot == 3 || slot == 4 { self.center_y as int } else { self.top_spec() });
        let bottom = (if slot == 1 || slot == 2 { self.center_y as int } else { self.bottom_spec() });
        AABB {
            tl: Point { x: left as i32, y: top as i32 },
            br: Point { x: right as i32, y: bottom as i32 },
        }
    }

    /// The box in edge form.
    pub open spec fn aabb_spec(&self) -> AABB {
        self.quadrant_box(0)
    }

    /// Converts the box to edge form.
    pub fn get_aabb(&self) -> (b: AABB)
        requires
            self.is_valid(),
        ensures
            b == self.aabb_spec(),
    {
        AABB::new(self.left(), self.top(), self.right(), self.bottom())
    }

    /// The cell of the child with the given offset when this cell is split.
    ///
    /// Offset 0, the straddler bucket, keeps this cell. The quadrants at
    /// offsets 1 to 4 (top left, top right, bottom left, bottom right) have
    /// half of this cell's half extents, rounded down, and are anchored at
    /// the outer edges of this cell.
    pub open spec fn child_cell(&self, slot: int) -> CenteredAABB {
        if 1 <= slot <= 4 {
            let hx = self.half_width / 2;
            let hy = self.half_height / 2;
            CenteredAABB {
                center_x: (if slot == 1 || slot == 3 {
                    self.center_x - hx
                } else {
                    self.center_x + self.half_width - hx
                }) as i32,
                center_y: (if slot == 1 || slot == 2 {
                    self.center_y - hy
                } else {
                    self.center_y + self.half_height - hy
                }) as i32,
                half_width: hx as i32,
                half_height: hy as i32,
            }
        } else {
            *self
        }
    }

    /// Computes the cells of the five children of this cell: the straddler
    /// bucket, which keeps this cell, then the four quadrants.
    pub fn split_quadrants(&self) -> (cells: [CenteredAABB; 5])
        requires
            self.is_valid(),
        ensures
            forall|slot: int| 0 <= slot < 5 ==> #[trigger] cells@[slot] == self.child_cell(slot),
            forall|slot: int| 0 <= slot < 5 ==> (#[trigger] cells@[slot]).is_valid(),
    {
        let hx = self.half_width / 2;
        let hy = self.half_height / 2;
        let mx = self.center_x - hx;
        let my = self.center_y - hy;
        let mx2 = self.right() - hx;
        let my2 = self.bottom() - hy;

        let top_left = Self { center_x: mx, center_y: my, half_width: hx, half_height: hy };
        let top_right = Self { center_x: mx2, center_y: my, half_width: hx, half_height: hy };
        let bottom_left = Self { center_x: mx, center_y: my2, half_width: hx, half_height: hy };
        let bottom_right = Self { center_x: mx2, center_y: my2, half_width: hx, half_height: hy };

        [*self, top_left, top_right, bottom_left, bottom_right]
    }

    /// The top-left quarter of this box.
    pub fn top_left(&self) -> (c: CenteredAABB)
        requires
            self.is_valid(),
        ensures
            c == Self::from_ltwh_spec(
                self.left_spec() as i32,
                self.top_spec() as i32,
                self.half_width,
                self.half_height,
            ),
            c.is_valid(),
    {
        CenteredAABB::from_ltwh(self.left(), self.top(), self.half_width, self.half_height)
    }

    /// The top-right quarter of this box.
    pub fn top_right(&self) -> (c: CenteredAABB)
        requires
            self.is_valid(),
        ensures
            c == Self::from_ltwh_spec(
                self.center_x,
                self.top_spec() as i32,
                self.half_width,
                self.half_height,
            ),
            c.is_valid(),
    {
        CenteredAABB::from_ltwh(self.center_x, self.top(), self.half_width, self.half_height)
    }

    /// The bottom-left quarter of this box.
    pub fn bottom_left(&self) -> (c: CenteredAABB)
        requires
            self.is_valid(),
        ensures
            c == Self::from_ltwh_spec(
                self.left_spec() as i32,
                self.center_y,
                self.half_width,
                self.half_height,
            ),
            c.is_valid(),
    {
        CenteredAABB::from_ltwh(self.left(), self.center_y, self.half_width, self.half_height)
    }

    /// The bottom-right quarter of this box.
    pub fn bottom_right(&self) -> (c: CenteredAABB)
        requires
            self.is_valid(),
        ensures
            c == Self::from_ltwh_spec(
                self.center_x,
                self.center_y,
                self.half_width,
                self.half_height,
            ),
            c.is_valid(),
    {
        CenteredAABB::from_ltwh(self.center_x, self.center_y, self.half_width, self.half_height)
    }

    /// The horizontal extent of the left half, the center line included.
    pub fn left_half(&self) -> (r: RangeInclusive<i32>)
        requires
            self.is_valid(),
        ensures
            r@.start == self.left_spec(),
            r@.end == self.center_x,
    {
        RangeInclusive::new(self.left(), self.center_x)
    }

    /// The horizontal extent of the right half, the center line included.
    pub fn right_half(&self) -> (r: RangeInclusive<i32>)
        requires
            self.is_valid(),
        ensures
            r@.start == self.center_x,
            r@.end == self.right_spec(),
    {
        RangeInclusive::new(self.center_x, self.right())
    }

    /// The vertical extent of the top half, the center line included.
    pub fn top_half(&self) -> (r: RangeInclusive<i32>)
        requires
            self.is_valid(),
        ensures
            r@.start == self.top_spec(),
            r@.end == self.center_y,
    {
        RangeInclusive::new(self.top(), self.center_y)
    }

    /// The vertical extent of the bottom half, the center line included.
    pub fn bottom_half(&self) -> (r: RangeInclusive<i32>)
        requires
            self.is_valid(),
        ensures
            r@.start == self.center_y,
            r@.end == self.bottom_spec(),
    {
        RangeInclusive::new(self.center_y, self.bottom())
    }

    /// The coordinate of the left edge.
    pub open spec fn left_spec(&self) -> int {
        self.center_x - self.half_width
    }

    /// The coordinate of the right edge.
    pub open spec fn right_spec(&self) -> int {
        self.center_x + self.half_width
    }

    /// The coordinate of the top edge.
    pub open spec fn top_spec(&self) -> int {
        self.center_y - self.half_height
    }

    /// The coordinate of the bottom edge.
    pub open spec fn bottom_spec(&self) -> int {
        self.center_y + self.half_height
    }

    /// The coordinate of the left edge.
    pub fn left(&self) -> (x: i32)
        requires
            self.is_valid(),
        ensures
            x == self.left_spec(),
    {
        self.center_x - self.half_width
    }

    /// The coordinate of the right edge.
    pub fn right(&self) -> (x: i32)
        requires
            self.is_valid(),
        ensures
            x == self.right_spec(),
    {
        self.center_x + self.half_width
    }

    /// The coordinate of the top edge.
    pub fn top(&self) -> (y: i32)
        requires
            self.is_valid(),
        ensures
            y == self.top_spec(),
    {
        self.center_y - self.half_height
    }

    /// The coordinate of the bottom edge.
    pub fn bottom(&self) -> (y: i32)
        requires
            self.is_valid(),
        ensures
            y == self.bottom_spec(),
    {
        self.center_y + self.half_height
    }
}

/// Every child cell of a valid cell is valid and lies inside that cell.
pub proof fn lemma_child_cell_inside(c: CenteredAABB, slot: int)
    requires
        c.is_valid(),
    ensures
        c.child_cell(slot).is_valid(),
        c.left_spec() <= c.child_cell(slot).left_spec(),
        c.child_cell(slot).right_spec() <= c.right_spec(),
        c.top_spec() <= c.child_cell(slot).top_spec(),
        c.child_cell(slot).bottom_spec() <= c.bottom_spec(),
        1 <= slot <= 4 ==> c.child_cell(slot).half_width == c.half_width / 2,
        1 <= slot <= 4 ==> c.child_cell(slot).half_height == c.half_height / 2,
{
}

} // verus!
