//! A linear quadtree over axis-aligned rectangles with integer edges.

pub mod aabb;
pub mod centered_aabb;
pub mod error;
pub mod free_list;
pub mod node;
pub mod node_data;
pub mod node_info;
pub mod node_list;
pub mod point;
pub mod quad_rect;
pub mod quadrants;
pub mod quadtree;
pub mod quadtree_element;

pub use aabb::AABB;
pub use node_info::NodeInfo;
pub use point::Point;
pub use quad_rect::QuadRect;
pub use quadtree::QuadTree;
pub use quadtree_element::{ElementIdType, QuadTreeElement};
