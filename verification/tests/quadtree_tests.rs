use space_partitioning::intersections::Intersects;
use space_partitioning::quadtree::error::InsertError;
use space_partitioning::quadtree::node_data::NodeData;
use space_partitioning::quadtree::{QuadRect, QuadTree, QuadTreeElement, AABB};
use std::collections::HashSet;

fn build_test_tree() -> QuadTree {
    let quad_rect = QuadRect::new(-20, -20, 40, 40);
    let mut tree = QuadTree::new(quad_rect, 1, 1, 1);
    // top-left
    tree.insert(QuadTreeElement::new(1000, AABB::new(-15, -15, -5, -5)))
        .expect("insert should work");
    tree.insert(QuadTreeElement::new(1001, AABB::new(-20, -20, -18, -18)))
        .expect("insert should work");
    // top-right
    tree.insert(QuadTreeElement::new(2000, AABB::new(5, -15, 15, -5)))
        .expect("insert should work");
    // bottom-left
    tree.insert(QuadTreeElement::new(3000, AABB::new(-15, 5, -5, 15)))
        .expect("insert should work");
    // bottom-right
    tree.insert(QuadTreeElement::new(4000, AABB::new(5, 5, 15, 15)))
        .expect("insert should work");
    // center
    tree.insert(QuadTreeElement::new(5000, AABB::new(-5, -5, 5, 5)))
        .expect("insert should work");

    // The depth of 1 limits the tree to four quadrants and the bucket
    // for what crosses their borders. Each of the six elements is
    // referenced from one of them.
    assert_eq!(tree.count_element_references(), 6);

    // Ensure we have the exact elements inserted.
    let inserted_ids = tree.collect_ids();
    assert_eq!(inserted_ids.len(), 6);
    assert!(inserted_ids.contains(&1000));
    assert!(inserted_ids.contains(&1001));
    assert!(inserted_ids.contains(&2000));
    assert!(inserted_ids.contains(&3000));
    assert!(inserted_ids.contains(&4000));
    assert!(inserted_ids.contains(&5000));

    tree
}

#[test]
fn insert_once_works() {
    let mut tree = QuadTree::default();
    tree.insert(QuadTreeElement::new(0, AABB::default()))
        .expect("insert should work");
    assert_eq!(tree.count_element_references(), 1);

    let inserted_ids = tree.collect_ids();
    assert_eq!(inserted_ids.len(), 1);
    assert!(inserted_ids.contains(&0));
}

#[test]
fn insert_twice_works() {
    let mut tree = QuadTree::default();
    let count = 2i32;
    for id in 0..count {
        tree.insert(QuadTreeElement::new(id, AABB::new(-id, -id, id + 1, id + 1)))
            .expect("insert should work");
    }
    assert_eq!(tree.count_element_references(), 2);

    let inserted_ids = tree.collect_ids();
    assert_eq!(inserted_ids.len(), 2);
    assert!(inserted_ids.contains(&0));
    assert!(inserted_ids.contains(&1));
}

#[test]
fn insert_a_lot_works() {
    let mut tree = QuadTree::new(QuadRect::new(-16, -16, 32, 32), 8, 1, 1);
    let count = 1024i32;
    let mut x = -16;
    let mut y = -16;
    for id in 0..count {
        tree.insert(QuadTreeElement::new(id, AABB::new(x, y, x + 1, y + 1)))
            .expect("insert should work");
        x += 1;
        if x == 16 {
            x = -16;
            y += 1;
        }
    }
    let inserted_ids = tree.collect_ids();
    assert_eq!(inserted_ids.len(), count as usize);
    assert_eq!(tree.count_element_references(), count as usize);
}

#[test]
fn intersect_aabb_works() {
    let tree = build_test_tree();

    // Select the top-left quadrant
    let quadrant_tl = AABB::new(-17, -17, 0, 0);

    // Perform the actual intersection.
    let results = tree.intersect_aabb(&quadrant_tl);
    let results = Vec::from_iter(results);
    assert_eq!(results.len(), 2);
    assert!(results.contains(&1000));
    assert!(!results.contains(&1001));
    assert!(results.contains(&5000));
}

#[test]
fn intersect_generic_works() {
    let tree = build_test_tree();

    // Select the top-left quadrant
    let quadrant_tl = AABB::new(-17, -17, 0, 0);

    // Perform the actual intersection.
    let results = tree.intersect_generic(&quadrant_tl);
    let results = Vec::from_iter(results);
    assert_eq!(results.len(), 2);
    assert!(results.contains(&1000));
    assert!(!results.contains(&1001));
    assert!(results.contains(&5000));
}

#[test]
fn erase_last_works() {
    let mut tree = build_test_tree();

    // Erase the last-inserted node.
    assert!(tree.remove(&QuadTreeElement::new(5000, AABB::new(-5, -5, 5, 5))));
    assert_eq!(tree.collect_ids().len(), 5);
    assert_eq!(tree.count_element_references(), 5);

    // Since there are still populated child nodes, cleanup doesn't do anything.
    assert!(!tree.cleanup());
}

#[test]
fn erasing_the_first_element_takes_its_one_reference() {
    let mut tree = build_test_tree();

    // Erase the first-inserted node.
    assert!(tree.remove(&QuadTreeElement::new(1000, AABB::new(-15, -15, -5, -5))));
    let ids = tree.collect_ids();
    assert_eq!(ids.len(), 5);
    assert!(!ids.contains(&1000));
    assert_eq!(tree.count_element_references(), 5);

    // Since there are still populated child nodes, cleanup doesn't do anything.
    assert!(!tree.cleanup());

    // Removing what is not there changes nothing.
    assert!(!tree.remove(&QuadTreeElement::new(1000, AABB::new(-15, -15, -5, -5))));
    assert!(!tree.remove(&QuadTreeElement::new(7, AABB::new(-15, -15, -5, -5))));
    assert_eq!(tree.count_element_references(), 5);
}

struct Ray {
    x: f32,
    y: f32,
    inv_dx: f32,
    inv_dy: f32,
}

impl Ray {
    fn new(x: f32, y: f32, dx: f32, dy: f32) -> Ray {
        Ray { x, y, inv_dx: 1.0 / dx, inv_dy: 1.0 / dy }
    }
}

impl Intersects<AABB> for Ray {
    fn intersects_with(&self, other: &AABB) -> bool {
        // https://gamedev.stackexchange.com/a/18459/10433

        let t1 = (other.tl.x as f32 - self.x) * self.inv_dx;
        let t2 = (other.br.x as f32 - self.x) * self.inv_dx;
        let t3 = (other.br.y as f32 - self.y) * self.inv_dy;
        let t4 = (other.tl.y as f32 - self.y) * self.inv_dy;

        let tmin = t1.min(t2).max(t3.min(t4));
        let tmax = t1.max(t2).min(t3.max(t4));

        // if tmax < 0, ray (line) is intersecting AABB, but the whole AABB is behind us
        // if tmin > tmax, ray doesn't intersect AABB
        if (tmax < 0.) | (tmin > tmax) {
            return false;
        }

        return true;
    }
}

#[test]
fn ray_box_intersection_works() {
    let target = AABB::new(-5, -5, 5, 5);
    let ray_in_box_pointing_up = Ray::new(0., 0., 0., 1.);
    let ray_on_left_pointing_right = Ray::new(-10., 0., 1., 0.);
    let ray_on_right_pointing_right = Ray::new(10., 0., 1., 0.);
    let ray_on_right_pointing_left = Ray::new(10., 0., -1., 0.);
    let ray_on_top_pointing_right = Ray::new(10., -10., 1., 0.);
    let ray_on_bottom_pointing_right = Ray::new(10., 10., 1., 0.);
    assert!(ray_in_box_pointing_up.intersects_with(&target));
    assert!(ray_on_left_pointing_right.intersects_with(&target));
    assert!(ray_on_right_pointing_left.intersects_with(&target));
    assert!(!ray_on_right_pointing_right.intersects_with(&target));
    assert!(!ray_on_top_pointing_right.intersects_with(&target));
    assert!(!ray_on_bottom_pointing_right.intersects_with(&target));

    let diagonal_ray = Ray::new(-10., 0., 1., 0.1);
    assert!(diagonal_ray.intersects_with(&target));
}

#[test]
fn tree_ray_between_elements_does_not_intersect() {
    let tree = build_test_tree();
    let ray = Ray::new(1., 5., 1., 0.);
    let results = tree.intersect_generic(&ray);
    assert_eq!(results.len(), 0);
}

#[test]
fn tree_ray_does_intersect() {
    let tree = build_test_tree();
    let ray = Ray::new(1., 8., 1., 0.);
    let results = tree.intersect_generic(&ray);
    assert_eq!(results.len(), 1);
    assert!(results.contains(&4000));
}

#[test]
fn node_data_is_32_bytes() {
    assert_eq!(std::mem::size_of::<NodeData>(), 24);
}

#[test]
fn cleanup_works() {
    let quad_rect = QuadRect::new(-20, -20, 40, 40);
    let mut tree: QuadTree = QuadTree::new(quad_rect, 1, 1, 1);
    // top-left
    tree.insert(QuadTreeElement::new(1000, AABB::new(-15, -15, -5, -5)))
        .expect("insert should work");
    tree.insert(QuadTreeElement::new(1001, AABB::new(-20, -20, -18, -18)))
        .expect("insert should work");
    // top-right
    tree.insert(QuadTreeElement::new(2000, AABB::new(5, -15, 15, -5)))
        .expect("insert should work");
    // bottom-left
    tree.insert(QuadTreeElement::new(3000, AABB::new(-15, 5, -5, 15)))
        .expect("insert should work");
    // bottom-right
    tree.insert(QuadTreeElement::new(4000, AABB::new(5, 5, 15, 15)))
        .expect("insert should work");

    // Similar to index test.
    assert_eq!(tree.collect_ids().len(), 5);

    // center
    tree.insert(QuadTreeElement::new(5000, AABB::new(-5, -5, 5, 5)))
        .expect("insert should work");

    // Similar to index test.
    assert_eq!(tree.collect_ids().len(), 6);
    assert_eq!(tree.count_element_references(), 6);

    // Erase the all elements.
    assert!(tree.remove(&QuadTreeElement::new(1000, AABB::new(-15, -15, -5, -5))));
    assert!(tree.remove(&QuadTreeElement::new(1001, AABB::new(-20, -20, -18, -18))));
    assert!(tree.remove(&QuadTreeElement::new(2000, AABB::new(5, -15, 15, -5))));
    assert!(tree.remove(&QuadTreeElement::new(3000, AABB::new(-15, 5, -5, 15))));
    assert!(tree.remove(&QuadTreeElement::new(4000, AABB::new(5, 5, 15, 15))));
    assert!(tree.remove(&QuadTreeElement::new(5000, AABB::new(-5, -5, 5, 5))));
    assert_eq!(tree.collect_ids().len(), 0);
    assert_eq!(tree.count_element_references(), 0);

    // Since cleanup wasn't called yet, the root is still considered a branch
    // with its child nodes.
    assert!(tree.root_node().is_branch());
    assert_eq!(tree.root_node().first_child_or_element, 1);

    // Cleanup does something now.
    assert!(tree.cleanup());

    // Since all child nodes of the root were empty,
    // cleanup has removed them. The root node is now a leaf
    // with zero elements.
    assert!(tree.root_node().is_leaf());
    assert_eq!(tree.root_node().element_count, 0);

    // The group of the children waits in the free pool, and a second
    // cleanup finds nothing to do.
    assert_eq!(tree.first_free_node_group(), 1);
    assert!(!tree.cleanup());
}

#[test]
fn insert_outside_of_the_bounds_fails_and_changes_nothing() {
    let mut tree: QuadTree = QuadTree::new(QuadRect::new(-20, -20, 40, 40), 4, 2, 1);
    tree.insert(QuadTreeElement::new(1, AABB::new(0, 0, 1, 1))).expect("inside");
    let outside = tree.insert(QuadTreeElement::new(2, AABB::new(15, 15, 25, 25)));
    assert_eq!(outside, Err(InsertError::OutOfBounds));
    assert_eq!(outside.unwrap_err().to_string(), "the element was outside of the tree bounds");
    // The center of this one lies inside, its corners do not.
    assert!(tree.insert(QuadTreeElement::new(3, AABB::new(-30, -30, 30, 30))).is_err());
    assert_eq!(tree.count_element_references(), 1);
    let ids = tree.collect_ids();
    assert_eq!(ids.len(), 1);
    assert!(ids.contains(&1));
    // The border of the tree is inside.
    assert!(tree.insert(QuadTreeElement::new(4, AABB::new(-20, -20, 20, 20))).is_ok());
    assert!(tree.can_insert());
}

#[test]
fn insert_then_query_its_own_rect_finds_it() {
    let mut tree: QuadTree = QuadTree::new(QuadRect::new(0, 0, 64, 64), 6, 2, 1);
    let rects = [
        AABB::new(0, 0, 64, 64),
        AABB::new(3, 3, 3, 3),
        AABB::new(32, 0, 32, 64),
        AABB::new(31, 31, 33, 33),
        AABB::new(40, 40, 41, 41),
        AABB::new(63, 63, 64, 64),
        AABB::new(10, 50, 20, 50),
        AABB::new(32, 32, 32, 32),
    ];
    for (id, rect) in rects.iter().enumerate() {
        tree.insert(QuadTreeElement::new(id as u32, *rect)).expect("inside");
        for (earlier, earlier_rect) in rects.iter().enumerate().take(id + 1) {
            assert!(tree.intersect_aabb(earlier_rect).contains(&(earlier as u32)));
        }
    }
    // A query returns exactly what intersects.
    let query = AABB::new(30, 30, 35, 35);
    let mut expected = HashSet::new();
    for (id, rect) in rects.iter().enumerate() {
        if query.intersects_with(rect) {
            expected.insert(id as u32);
        }
    }
    assert_eq!(tree.intersect_aabb(&query), expected);
    let mut listed = tree.intersect_aabb_vec(&query);
    listed.sort();
    let mut sorted: Vec<u32> = expected.into_iter().collect();
    sorted.sort();
    assert_eq!(listed, sorted);
}

#[test]
fn full_tree_query_returns_what_is_in_the_tree() {
    let mut tree: QuadTree = QuadTree::new(QuadRect::new(-50, -50, 100, 100), 5, 1, 1);
    let mut expected = HashSet::new();
    for id in 0..40u32 {
        let x = (id as i32 * 7) % 90 - 45;
        let y = (id as i32 * 13) % 90 - 45;
        tree.insert(QuadTreeElement::new(id, AABB::new(x, y, x + (id as i32 % 5), y + (id as i32 % 3))))
            .expect("inside");
        expected.insert(id);
        assert_eq!(tree.collect_ids(), expected);
        assert_eq!(tree.count_element_references(), expected.len());
    }
    for id in (0..40u32).step_by(3) {
        let x = (id as i32 * 7) % 90 - 45;
        let y = (id as i32 * 13) % 90 - 45;
        let before = tree.collect_ids();
        assert!(tree.remove(&QuadTreeElement::new(
            id,
            AABB::new(x, y, x + (id as i32 % 5), y + (id as i32 % 3))
        )));
        expected.remove(&id);
        let after = tree.collect_ids();
        assert_eq!(after, expected);
        assert!(before.contains(&id) && !after.contains(&id));
    }
}

#[test]
fn insert_then_remove_restores_the_set() {
    let mut tree = build_test_tree();
    let before = tree.collect_ids();
    let element = QuadTreeElement::new(77, AABB::new(-19, 1, -1, 19));
    tree.insert(element).expect("inside");
    assert!(tree.collect_ids().contains(&77));
    assert!(tree.remove(&element));
    assert_eq!(tree.collect_ids(), before);
}

#[test]
fn removing_everything_and_cleaning_up_leaves_one_leaf() {
    let mut tree: QuadTree = QuadTree::new(QuadRect::new(-16, -16, 32, 32), 8, 1, 1);
    let mut elements = Vec::new();
    for id in 0..64i32 {
        let x = (id % 8) * 4 - 16;
        let y = (id / 8) * 4 - 16;
        elements.push(QuadTreeElement::new(id as u32, AABB::new(x, y, x + 1, y + 1)));
    }
    for element in elements.iter() {
        tree.insert(*element).expect("inside");
    }
    assert!(tree.root_node().is_branch());
    for element in elements.iter() {
        assert!(tree.remove(element));
    }
    assert_eq!(tree.count_element_references(), 0);
    let mut rounds = 0;
    while tree.cleanup() {
        rounds += 1;
        assert!(rounds < 100);
    }
    assert!(rounds > 1);
    assert!(tree.root_node().is_leaf());
    assert_eq!(tree.root_node().element_count, 0);
    assert_eq!(tree.leaves().len(), 1);
    // The nodes of the folded groups are used again.
    for element in elements.iter() {
        tree.insert(*element).expect("inside");
    }
    assert_eq!(tree.collect_ids().len(), 64);
}

#[test]
fn leaves_are_visited_with_their_counts() {
    let tree = build_test_tree();
    let mut seen = Vec::new();
    tree.visit_leaves(|info| seen.push((info.get_aabb(), info.depth(), info.element_count)));
    // The straddler bucket and the four quadrants of the root.
    assert_eq!(seen.len(), 5);
    let total: u32 = seen.iter().map(|leaf| leaf.2).sum();
    assert_eq!(total, 6);
    assert!(seen.contains(&(AABB::new(-20, -20, 20, 20), 0, 1)));
    assert!(seen.contains(&(AABB::new(-20, -20, 0, 0), 1, 2)));
    assert!(seen.contains(&(AABB::new(0, 0, 20, 20), 1, 1)));
}

#[test]
fn callbacks_get_each_hit_once() {
    let tree = build_test_tree();
    let mut hits = Vec::new();
    tree.intersect_aabb_fn(&AABB::new(-20, -20, 20, 20), |id| hits.push(id));
    hits.sort();
    assert_eq!(hits, vec![1000, 1001, 2000, 3000, 4000, 5000]);
    let mut hits = Vec::new();
    tree.intersect_generic_fn(&AABB::new(1, 1, 20, 20), |id| hits.push(id));
    hits.sort();
    assert_eq!(hits, vec![4000, 5000]);
    let mut listed = tree.intersect_generic_vec(&AABB::new(1, 1, 20, 20));
    listed.sort();
    assert_eq!(listed, vec![4000, 5000]);
}

#[test]
fn newest_element_with_the_id_is_removed_first() {
    let mut tree: QuadTree = QuadTree::new(QuadRect::new(0, 0, 16, 16), 2, 4, 1);
    let first = QuadTreeElement::new(5, AABB::new(1, 1, 2, 2));
    let second = QuadTreeElement::new(5, AABB::new(1, 1, 3, 3));
    tree.insert(first).expect("inside");
    tree.insert(second).expect("inside");
    // Both lie in the one leaf; the rectangle only serves to find that leaf.
    assert!(tree.remove(&first));
    assert_eq!(tree.count_element_references(), 1);
    assert!(tree.intersect_aabb(&AABB::new(2, 2, 2, 2)).contains(&5));
    assert!(tree.intersect_aabb(&AABB::new(3, 3, 3, 3)).is_empty());
}
