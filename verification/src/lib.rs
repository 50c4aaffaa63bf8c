//! A retained-mode UI scene graph: an arena-backed store of visual nodes,
//! an iterative constraint-propagation layout pass, and a paint traversal
//! that turns resolved rectangles and styles into drawing commands for an
//! external renderer.

pub mod color;
pub mod command;
pub mod constraint;
pub mod element;
pub mod geometry;
pub mod style;
pub mod surface;
