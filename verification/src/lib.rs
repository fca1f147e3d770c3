//! Spatial indices for interactive workloads: a linear quadtree over
//! axis-aligned integer rectangles and an interval tree over one-dimensional
//! closed intervals.

pub mod intersections;
pub mod interval_tree;
pub mod quadtree;

pub use interval_tree::IntervalTree;
pub use quadtree::QuadTree;
pub use std::collections::HashSet;
