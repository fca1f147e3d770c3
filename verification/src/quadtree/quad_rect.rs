use crate::quadtree::aabb::AABB;
use crate::quadtree::centered_aabb::CenteredAABB;
use crate::quadtree::point::Point;
use vstd::prelude::*;

verus! {

/// A rectangle describing the extents of the QuadTree.
///
/// Only the tree stores its extents; the cells of its nodes are computed on
/// the fly while descending.
#[derive(Debug, Copy, Clone)]
pub struct QuadRect {
    l: i32,
    t: i32,
    hx: i32,
    hy: i32,
}

impl QuadRect {
    #[verifier::type_invariant]
    spec fn inv(&self) -> bool {
        Self::fits(self.l, self.t, self.hx, self.hy)
    }

    /// The extents are not negative and the right and bottom edges are
    /// representable coordinates.
    pub open spec fn fits(left: i32, top: i32, width: i32, height: i32) -> bool {
        &&& 0 <= width
        &&& 0 <= height
        &&& left + width <= i32::MAX
        &&& top + height <= i32::MAX
    }

    /// The coordinate of the left edge.
    pub closed spec fn left(&self) -> i32 {
        self.l
    }

    /// The coordinate of the top edge.
    pub closed spec fn top(&self) -> i32 {
        self.t
    }

    /// The extent along the X axis.
    pub closed spec fn width(&self) -> i32 {
        self.hx
    }

    /// The extent along the Y axis.
    pub closed spec fn height(&self) -> i32 {
        self.hy
    }

    /// What the type guarantees of every rectangle that exists at run time.
    pub open spec fn is_valid(&self) -> bool {
        Self::fits(self.left(), self.top(), self.width(), self.height())
    }

    /// Constructs the rectangle with the given left and top edges and the
    /// given width and height.
    pub fn new(left: i32, top: i32, width: i32, height: i32) -> (r: Self)
        requires
            Self::fits(left, top, width, height),
        ensures
            r.left() == left,
            r.top() == top,
            r.width() == width,
            r.height() == height,
            r.is_valid(),
    {
        Self { l: left, t: top, hx: width, hy: height }
    }

    /// Both corners of `rect` lie inside this rectangle, edges included.
    pub open spec fn contains_spec(&self, rect: &AABB) -> bool {
        &&& self.left() <= rect.tl.x <= self.left() + self.width()
        &&& self.left() <= rect.br.x <= self.left() + self.width()
        &&& self.top() <= rect.tl.y <= self.top() + self.height()
        &&& self.top() <= rect.br.y <= self.top() + self.height()
    }

    /// Tests whether `rect` lies inside this rectangle.
    pub fn contains(&self, rect: &AABB) -> (inside: bool)
        ensures
            inside == self.contains_spec(rect),
    {
        proof {
            use_type_invariant(self);
        }
        let r = self.l + self.hx;
        let b = self.t + self.hy;
        self.l <= rect.tl.x && rect.tl.x <= r && self.l <= rect.br.x && rect.br.x <= r && self.t
            <= rect.tl.y && rect.tl.y <= b && self.t <= rect.br.y && rect.br.y <= b
    }

    /// The rectangle in edge form.
    pub open spec fn aabb_spec(&self) -> AABB {
        AABB {
            tl: Point { x: self.left(), y: self.top() },
            br: Point {
                x: (self.left() + self.width()) as i32,
                y: (self.top() + self.height()) as i32,
            },
        }
    }

    /// Converts the rectangle to edge form.
    pub fn to_aabb(&self) -> (b: AABB)
        ensures
            self.is_valid(),
            b == self.aabb_spec(),
    {
        proof {
            use_type_invariant(self);
        }
        AABB::new(self.l, self.t, self.l + self.hx, self.t + self.hy)
    }

    /// The rectangle in centered form; odd extents round down.
    pub open spec fn centered_spec(&self) -> CenteredAABB {
        CenteredAABB::from_ltwh_spec(self.left(), self.top(), self.width(), self.height())
    }

    /// Converts the rectangle to centered form.
    pub fn to_centered(&self) -> (c: CenteredAABB)
        ensures
            self.is_valid(),
            c == self.centered_spec(),
            c.is_valid(),
    {
        proof {
            use_type_invariant(self);
        }
        CenteredAABB::from_ltwh(self.l, self.t, self.hx, self.hy)
    }
}

impl Default for QuadRect {
    /// The rectangle that spans half of the coordinate range around the origin.
    fn default() -> (r: Self)
        ensures
            r.left() == -0x4000_0000,
            r.top() == -0x4000_0000,
            r.width() == i32::MAX,
            r.height() == i32::MAX,
            r.is_valid(),
    {
        QuadRect { l: -0x4000_0000, t: -0x4000_0000, hx: i32::MAX, hy: i32::MAX }
    }
}

impl From<QuadRect> for AABB {
    fn from(r: QuadRect) -> (b: Self)
    {
        r.to_aabb()
    }
}

impl vstd::std_specs::convert::FromSpecImpl<QuadRect> for AABB {
    open spec fn obeys_from_spec() -> bool {
        true
    }

    open spec fn from_spec(r: QuadRect) -> AABB {
        r.aabb_spec()
    }
}

impl From<QuadRect> for CenteredAABB {
    fn from(r: QuadRect) -> (c: Self)
    {
        r.to_centered()
    }
}

impl vstd::std_specs::convert::FromSpecImpl<QuadRect> for CenteredAABB {
    open spec fn obeys_from_spec() -> bool {
        true
    }

    open spec fn from_spec(r: QuadRect) -> CenteredAABB {
        r.centered_spec()
    }
}

/// A rectangle that covers at least one point and lies inside the tree's
/// extents intersects those extents.
pub proof fn lemma_contained_intersects(root: QuadRect, rect: AABB)
    requires
        root.is_valid(),
        root.contains_spec(&rect),
        rect.is_valid(),
    ensures
        root.aabb_spec().intersects(&rect),
{
}

} // verus!
