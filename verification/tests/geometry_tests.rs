use space_partitioning::intersections::Intersects;
use space_partitioning::quadtree::centered_aabb::CenteredAABB;
use space_partitioning::quadtree::node::Node;
use space_partitioning::quadtree::quadrants::Quadrants;
use space_partitioning::quadtree::{Point, QuadRect, AABB};

#[test]
fn aabb_is_16_bytes() {
    assert_eq!(std::mem::size_of::<AABB>(), 16);
}

#[test]
fn from_works() {
    let aabb = AABB::from([1, 2, 3, 4]);
    assert_eq!(aabb.tl.x, 1);
    assert_eq!(aabb.tl.y, 2);
    assert_eq!(aabb.br.x, 3);
    assert_eq!(aabb.br.y, 4);
}

#[test]
fn from_ref_works() {
    let aabb = AABB::from(&[1, 2, 3, 4]);
    assert_eq!(aabb.tl.x, 1);
    assert_eq!(aabb.tl.y, 2);
    assert_eq!(aabb.br.x, 3);
    assert_eq!(aabb.br.y, 4);
}

#[test]
fn to_array_gives_the_edges_in_order() {
    let aabb = AABB::new(1, 2, 3, 4);
    let array = aabb.to_array();
    for i in 1..=4 {
        assert_eq!(array[i as usize - 1], i);
    }
}

#[test]
fn intersects_with_self_works() {
    let a = AABB::new(0, 0, 1, 1);
    assert!(a.intersects_with(&a));
}

#[test]
fn intersects_when_partial_overlap_works() {
    let a = AABB::new(0, 0, 2, 2);
    let b = AABB::new(1, 1, 3, 3);
    assert!(a.intersects_with(&b));
    assert!(b.intersects_with(&a));

    let a = AABB::new(0, 0, 2, 2);
    let b = AABB::new(-1, -1, 1, 1);
    assert!(a.intersects_with(&b));
    assert!(b.intersects_with(&a));

    let a = AABB::new(0, 0, 2, 2);
    let b = AABB::new(-1, 1, 1, 2);
    assert!(a.intersects_with(&b));
    assert!(b.intersects_with(&a));
}

#[test]
fn intersects_when_not_overlapping_works() {
    let a = AABB::new(0, 0, 2, 2);
    let b = AABB::new(2, 0, 3, 3);
    assert!(!a.intersects_with(&b));
    assert!(!b.intersects_with(&a));

    let c = AABB::new(0, 0, 2, 2);
    let d = AABB::new(10, 10, 12, 12);
    assert!(!c.intersects_with(&d));
    assert!(!d.intersects_with(&c));
}

#[test]
fn intersects_when_degenerate_works() {
    // With a line
    let a = AABB::new(-1, 0, 0, -1);
    let b = AABB::new(1, 1, 0, 1);
    assert!(!a.intersects_with(&b));
    assert!(!a.intersects_with(&a));
    assert!(!b.intersects_with(&b));
}

#[test]
fn intersects_rect_point_works() {
    let point = AABB::new(3, 3, 3, 3);

    // Point lies inside the rectangle.
    let covering_rect = AABB::new(-10, -10, 10, 10);
    assert!(covering_rect.intersects_with(&point));

    // Point lies outside the rectangle.
    let other_rect = AABB::new(-10, -10, 0, 0);
    assert!(!other_rect.intersects_with(&point));
}

#[test]
fn intersects_line_point_works() {
    let line = AABB::new(-10, 0, 10, 0);
    let point = AABB::new(1, 0, 1, 0);
    assert!(line.intersects_with(&point));

    let boundary_point = AABB::new(10, 0, 10, 0);
    assert!(line.intersects_with(&boundary_point));
}

#[test]
fn intersects_point_point_works() {
    let point = AABB::new(-1, -1, -1, -1);
    assert!(point.intersects_with(&point));
}

#[test]
fn intersection_is_symmetric_and_reflexive() {
    let boxes = [
        AABB::new(0, 0, 4, 4),
        AABB::new(4, 0, 8, 4),
        AABB::new(2, 2, 2, 9),
        AABB::new(4, 4, 4, 4),
        AABB::new(-3, 1, 5, 1),
        AABB::new(3, 3, 6, 6),
    ];
    for a in boxes.iter() {
        assert!(a.intersects_with(a));
        for b in boxes.iter() {
            assert_eq!(a.intersects_with(b), b.intersects_with(a));
        }
    }
    // Boxes with extent that only share an edge do not intersect ...
    assert!(!boxes[0].intersects_with(&boxes[1]));
    // ... but a point on that edge intersects both.
    assert!(boxes[3].intersects_with(&boxes[0]));
    assert!(boxes[3].intersects_with(&boxes[1]));
}

#[test]
fn union_is_the_tightest_enclosing_box() {
    let a = AABB::new(0, 0, 2, 2);
    let b = AABB::new(-1, 1, 1, 5);
    assert_eq!(a.union(&b), AABB::new(-1, 0, 2, 5));
    assert_eq!(b.union(&a), AABB::new(-1, 0, 2, 5));
    assert_eq!(a.union(&a), a);
}

#[test]
fn from_ranges_takes_the_bounds() {
    assert_eq!(AABB::from_ranges(1..=3, 2..=4), AABB::new(1, 2, 3, 4));
}

#[test]
fn aabb_i32_is_16_bytes() {
    assert_eq!(std::mem::size_of::<CenteredAABB>(), 16);
}

#[test]
fn from_ltwh_rounds_half_extents_down() {
    let c = CenteredAABB::from_ltwh(-20, -20, 40, 40);
    assert_eq!((c.center_x, c.center_y, c.half_width, c.half_height), (0, 0, 20, 20));
    let c = CenteredAABB::from_ltwh(1, 2, 5, 7);
    assert_eq!((c.center_x, c.center_y, c.half_width, c.half_height), (3, 5, 2, 3));
    assert_eq!((c.left(), c.top(), c.right(), c.bottom()), (1, 2, 5, 8));
    assert_eq!(c.get_aabb(), AABB::new(1, 2, 5, 8));
}

#[test]
fn split_quadrants_gives_the_straddler_and_four_quarters() {
    let c = CenteredAABB::from_ltwh(-20, -20, 40, 40);
    let cells = c.split_quadrants();
    assert_eq!(cells[0], c);
    assert_eq!(cells[1].get_aabb(), AABB::new(-20, -20, 0, 0));
    assert_eq!(cells[2].get_aabb(), AABB::new(0, -20, 20, 0));
    assert_eq!(cells[3].get_aabb(), AABB::new(-20, 0, 0, 20));
    assert_eq!(cells[4].get_aabb(), AABB::new(0, 0, 20, 20));

    // Odd half extents: the quarters are anchored at the outer edges.
    let odd = CenteredAABB { center_x: 0, center_y: 0, half_width: 5, half_height: 3 };
    let cells = odd.split_quadrants();
    assert_eq!(cells[1].get_aabb(), AABB::new(-4, -2, 0, 0));
    assert_eq!(cells[4].get_aabb(), AABB::new(1, 1, 5, 3));
}

#[test]
fn quarters_by_name() {
    let c = CenteredAABB::from_ltwh(-20, -20, 40, 40);
    assert_eq!(c.top_left().get_aabb(), AABB::new(-20, -20, 0, 0));
    assert_eq!(c.top_right().get_aabb(), AABB::new(0, -20, 20, 0));
    assert_eq!(c.bottom_left().get_aabb(), AABB::new(-20, 0, 0, 20));
    assert_eq!(c.bottom_right().get_aabb(), AABB::new(0, 0, 20, 20));
    assert_eq!(c.left_half(), -20..=0);
    assert_eq!(c.right_half(), 0..=20);
    assert_eq!(c.top_half(), -20..=0);
    assert_eq!(c.bottom_half(), 0..=20);
}

#[test]
fn center_lines_belong_to_the_top_left() {
    let c = CenteredAABB::from_ltwh(-20, -20, 40, 40);
    // Ends on both center lines: top left only.
    let q = c.explore_quadrants_aabb(&AABB::new(-5, -5, 0, 0));
    assert_eq!(q.code, 2);
    // Starts on both center lines and has extent: straddles.
    let q = c.explore_quadrants_aabb(&AABB::new(0, 0, 5, 5));
    assert!(q.this());
    assert_eq!(q.mutation_index(), 0);
    // Starts just behind them: bottom right only.
    let q = c.explore_quadrants_aabb(&AABB::new(1, 1, 5, 5));
    assert_eq!(q.code, 16);
    assert_eq!(q.mutation_index(), 4);
    let q = c.explore_quadrants_aabb(&AABB::new(1, -5, 5, 0));
    assert_eq!(q.code, 4);
    let q = c.explore_quadrants_aabb(&AABB::new(-5, 1, 0, 5));
    assert_eq!(q.code, 8);
    // Crosses the vertical line only: straddler, top left and top right.
    let q = c.explore_quadrants_aabb(&AABB::new(-5, -5, 5, -1));
    assert_eq!(q.code, 1 + 2 + 4);
}

#[test]
fn generic_classifier_tests_each_quadrant_box() {
    let c = CenteredAABB::from_ltwh(-20, -20, 40, 40);
    let q = c.explore_quadrants_generic(&AABB::new(-15, -15, -5, -5));
    assert_eq!(q.code, 2);
    let q = c.explore_quadrants_generic(&AABB::new(5, 5, 15, 15));
    assert_eq!(q.code, 16);
    // Two quadrants that are not neighbours in the bit field still make a straddler.
    let q = c.explore_quadrants_generic(&AABB::new(-5, 5, 5, 15));
    assert_eq!(q.code, 1 + 8 + 16);
    let q = c.explore_quadrants_generic(&AABB::new(-5, -5, 5, 5));
    assert_eq!(q.code, 31);
    let q = c.explore_quadrants_generic(&AABB::new(30, 30, 40, 40));
    assert_eq!(q.code, 0);
}

#[test]
fn quad_node_is_eight_bytes() {
    assert_eq!(std::mem::size_of::<Node>(), 8);
}

#[test]
fn node_is_leaf_or_branch() {
    let mut node = Node::default();
    assert!(node.is_leaf() && node.is_empty() && !node.is_branch());
    assert_eq!(node.get_first_element_node_index(), u32::MAX);
    node.make_branch(5);
    assert!(node.is_branch() && !node.is_leaf() && !node.is_empty());
    assert_eq!(node.get_first_child_node_index(), 5);
    node.make_empty_leaf();
    assert_eq!(node, Node::default());
}

#[test]
fn point_is_8_bytes() {
    assert_eq!(std::mem::size_of::<Point>(), 8);
}

#[test]
fn mutation_index_works() {
    // More than one quadrant.
    assert_eq!(Quadrants { code: 1 }.mutation_index(), 0);

    // Single quadrants
    assert_eq!(Quadrants { code: 2 }.mutation_index(), 1);
    assert_eq!(Quadrants { code: 4 }.mutation_index(), 2);
    assert_eq!(Quadrants { code: 8 }.mutation_index(), 3);
    assert_eq!(Quadrants { code: 16 }.mutation_index(), 4);

    // Single quadrants
    assert_eq!(Quadrants::from_intersections(true, false, false, false).mutation_index(), 1);
    assert_eq!(Quadrants::from_intersections(false, true, false, false).mutation_index(), 2);
    assert_eq!(Quadrants::from_intersections(false, false, true, false).mutation_index(), 3);
    assert_eq!(Quadrants::from_intersections(false, false, false, true).mutation_index(), 4);

    // More than one quadrant.
    assert_eq!(Quadrants::from_intersections(true, false, true, false).mutation_index(), 0);

    // catchall
    assert_eq!(Quadrants { code: 0 }.mutation_index(), 0);
    assert_eq!(Quadrants::from_intersections(false, false, false, false).mutation_index(), 0);
}

#[test]
fn quadrants_flags_work() {
    let q = Quadrants::from_tests(true, true, false, false);
    assert!(q.top_left() && !q.top_right() && !q.bottom_left() && !q.bottom_right() && !q.this());
    let q = Quadrants::from_tests(false, false, true, true);
    assert!(q.bottom_right() && !q.top_left() && !q.this());
    assert!(q.at(4) && !q.at(0) && !q.at(3) && !q.at(7));
    let q = Quadrants::from_tests(true, false, false, true);
    assert!(q.bottom_left() && q.at(3));
    let q = Quadrants::from_tests(false, true, true, false);
    assert!(q.top_right() && q.at(2));
    let q = Quadrants::from_tests(true, true, true, false);
    assert!(q.this() && q.top_left() && q.top_right() && !q.bottom_left());
    assert_eq!(Quadrants::all().code, 31);
    assert_eq!(Quadrants::self_only().code, 1);
    // Every pair of quadrants makes a straddler.
    assert!(Quadrants::from_intersections(false, false, true, true).this());
    assert!(Quadrants::from_intersections(false, true, true, false).this());
}

#[test]
fn quad_rect_contains_what_lies_inside() {
    let root = QuadRect::new(-20, -20, 40, 40);
    assert!(root.contains(&AABB::new(-20, -20, 20, 20)));
    assert!(root.contains(&AABB::new(0, 0, 0, 0)));
    assert!(!root.contains(&AABB::new(-21, 0, 0, 0)));
    assert!(!root.contains(&AABB::new(0, 0, 0, 21)));
    // The center lies inside, the box does not.
    assert!(!root.contains(&AABB::new(-30, -30, 30, 30)));
    assert_eq!(root.to_aabb(), AABB::new(-20, -20, 20, 20));
    assert_eq!(AABB::from(root), AABB::new(-20, -20, 20, 20));
    assert_eq!(CenteredAABB::from(root), CenteredAABB::from_ltwh(-20, -20, 40, 40));
    let default = QuadRect::default();
    assert_eq!(default.to_aabb(), AABB::new(i32::MIN >> 1, i32::MIN >> 1, (i32::MAX >> 1), (i32::MAX >> 1)));
}
