pub mod containment;
pub mod identity;
pub mod lemmas;
pub mod quadtree;
pub mod quadtree_circle;
pub mod quadtree_point;
pub mod types;
pub mod unique;
pub mod utils;
