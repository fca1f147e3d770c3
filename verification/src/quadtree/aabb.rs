use crate::intersections::Intersects;
use crate::quadtree::point::Point;
use std::ops::RangeInclusive;
use vstd::prelude::*;

verus! {

/// An axis-aligned bounding box given by its top-left and bottom-right corners.
///
/// A box stands for the closed set of integer points between its corners. It
/// is degenerate when it has no extent along an axis (a line or a point).
#[derive(Debug, Default, Copy, Clone, PartialEq, Eq, Structural)]
pub struct AABB {
    /// The corner with the smallest coordinates.
    pub tl: Point,
    /// The corner with the largest coordinates.
    pub br: Point,
}

/// The lower bound of an inclusive range, as `RangeInclusive::start` hands it out.
pub assume_specification<Idx>[ RangeInclusive::<Idx>::start ](r: &RangeInclusive<Idx>) -> (s: &Idx)
    ensures
        *s == r@.start,
;

/// The upper bound of an inclusive range, as `RangeInclusive::end` hands it out.
pub assume_specification<Idx>[ RangeInclusive::<Idx>::end ](r: &RangeInclusive<Idx>) -> (e: &Idx)
    ensures
        *e == r@.end,
;

pub open spec fn spec_max(a: int, b: int) -> int {
    if a >= b { a } else { b }
}

pub open spec fn spec_min(a: int, b: int) -> int {
    if a <= b { a } else { b }
}

impl AABB {
    /// Constructs a box from the coordinates of its edges: left, top, right, bottom.
    pub fn new(x1: i32, y1: i32, x2: i32, y2: i32) -> (b: Self)
        ensures
            b == (AABB { tl: Point { x: x1, y: y1 }, br: Point { x: x2, y: y2 } }),
    {
        Self { tl: Point { x: x1, y: y1 }, br: Point { x: x2, y: y2 } }
    }

    /// Constructs a box from its horizontal and its vertical extent.
    pub fn from_ranges(xs: RangeInclusive<i32>, ys: RangeInclusive<i32>) -> (b: Self)
        ensures
            b == (AABB {
                tl: Point { x: xs@.start, y: ys@.start },
                br: Point { x: xs@.end, y: ys@.end },
            }),
    {
        Self::new(*xs.start(), *ys.start(), *xs.end(), *ys.end())
    }

    /// Neither corner lies before the other: the box covers at least one point.
    pub open spec fn is_valid(&self) -> bool {
        self.tl.x <= self.br.x && self.tl.y <= self.br.y
    }

    /// The box has no extent along at least one axis.
    pub open spec fn is_degenerate(&self) -> bool {
        self.tl.x == self.br.x || self.tl.y == self.br.y
    }

    /// The closed point sets of the two boxes share a point.
    pub open spec fn touches(&self, other: &AABB) -> bool {
        &&& spec_max(self.tl.x as int, other.tl.x as int) <= spec_min(
            self.br.x as int,
            other.br.x as int,
        )
        &&& spec_max(self.tl.y as int, other.tl.y as int) <= spec_min(
            self.br.y as int,
            other.br.y as int,
        )
    }

    /// The two boxes share a region of positive extent along both axes.
    pub open spec fn overlaps_strictly(&self, other: &AABB) -> bool {
        &&& spec_max(self.tl.x as int, other.tl.x as int) < spec_min(
            self.br.x as int,
            other.br.x as int,
        )
        &&& spec_max(self.tl.y as int, other.tl.y as int) < spec_min(
            self.br.y as int,
            other.br.y as int,
        )
    }

    /// The intersection relation between two boxes.
    ///
    /// Boxes with extent along both axes intersect when their overlap has
    /// extent along both axes. As soon as one of the two is degenerate, it is
    /// enough that their closed point sets share a point.
    pub open spec fn intersects(&self, other: &AABB) -> bool {
        self.overlaps_strictly(other) || ((self.is_degenerate() || other.is_degenerate())
            && self.touches(other))
    }

    /// The tightest box that encloses both `self` and `other`.
    pub open spec fn union_spec(&self, other: &AABB) -> AABB {
        AABB {
            tl: Point {
                x: spec_min(self.tl.x as int, other.tl.x as int) as i32,
                y: spec_min(self.tl.y as int, other.tl.y as int) as i32,
            },
            br: Point {
                x: spec_max(self.br.x as int, other.br.x as int) as i32,
                y: spec_max(self.br.y as int, other.br.y as int) as i32,
            },
        }
    }

    /// Computes the tightest box that encloses both `self` and `other`.
    pub fn union(&self, other: &AABB) -> (u: AABB)
        ensures
            u == self.union_spec(other),
    {
        AABB::new(
            if self.tl.x <= other.tl.x { self.tl.x } else { other.tl.x },
            if self.tl.y <= other.tl.y { self.tl.y } else { other.tl.y },
            if self.br.x >= other.br.x { self.br.x } else { other.br.x },
            if self.br.y >= other.br.y { self.br.y } else { other.br.y },
        )
    }

    /// The edge coordinates in the order left, top, right, bottom.
    pub fn to_array(&self) -> (a: [i32; 4])
        ensures
            a@ == seq![self.tl.x, self.tl.y, self.br.x, self.br.y],
    {
        [self.tl.x, self.tl.y, self.br.x, self.br.y]
    }
}

impl Intersects<AABB> for AABB {
    open spec fn intersects_spec(&self, other: &AABB) -> bool {
        self.intersects(other)
    }

    /// Tests whether this box intersects `other`, degenerate boxes included.
    fn intersects_with(&self, other: &AABB) -> (hit: bool) {
        let x1_max = if self.tl.x >= other.tl.x { self.tl.x } else { other.tl.x };
        let x2_min = if self.br.x <= other.br.x { self.br.x } else { other.br.x };
        let y1_max = if self.tl.y >= other.tl.y { self.tl.y } else { other.tl.y };
        let y2_min = if self.br.y <= other.br.y { self.br.y } else { other.br.y };

        // Boxes with extent on both axes must overlap with extent on both axes.
        let a = x1_max < x2_min;
        let b = y1_max < y2_min;
        let intersects = a && b;

        // Lines and points only need to share a point.
        let d_a = x1_max <= x2_min;
        let d_b = y1_max <= y2_min;
        let degenerate_x = (other.tl.x == other.br.x) || (self.tl.x == self.br.x);
        let degenerate_y = (other.tl.y == other.br.y) || (self.tl.y == self.br.y);
        let is_degenerate = degenerate_x || degenerate_y;
        let d_intersects = is_degenerate && d_a && d_b;

        intersects || d_intersects
    }
}

impl From<[i32; 4]> for AABB {
    fn from(rect: [i32; 4]) -> (b: Self)
    {
        Self::new(rect[0], rect[1], rect[2], rect[3])
    }
}

impl vstd::std_specs::convert::FromSpecImpl<[i32; 4]> for AABB {
    open spec fn obeys_from_spec() -> bool {
        true
    }

    open spec fn from_spec(rect: [i32; 4]) -> AABB {
        AABB { tl: Point { x: rect@[0], y: rect@[1] }, br: Point { x: rect@[2], y: rect@[3] } }
    }
}

impl From<&[i32; 4]> for AABB {
    fn from(rect: &[i32; 4]) -> (b: Self)
    {
        Self::new(rect[0], rect[1], rect[2], rect[3])
    }
}

impl vstd::std_specs::convert::FromSpecImpl<&[i32; 4]> for AABB {
    open spec fn obeys_from_spec() -> bool {
        true
    }

    open spec fn from_spec(rect: &[i32; 4]) -> AABB {
        AABB { tl: Point { x: rect@[0], y: rect@[1] }, br: Point { x: rect@[2], y: rect@[3] } }
    }
}

/// Intersection is symmetric: the order of the two boxes does not matter.
pub proof fn lemma_intersects_symmetric(a: AABB, b: AABB)
    ensures
        a.intersects(&b) == b.intersects(&a),
{
}

/// Intersection is reflexive on every box that covers at least one point,
/// lines and points included.
pub proof fn lemma_intersects_reflexive(a: AABB)
    requires
        a.is_valid(),
    ensures
        a.intersects(&a),
{
}

} // verus!
