//! Circular bodies under gravity in a walled arena, advanced by a substepped Verlet
//! integrator whose collision pass finds neighbours through a quadtree.
//!
//! All quantities are integers: lengths in micro-units (a millionth of a length unit) and
//! times in microseconds.
//!
//! - `geom`: points, rectangles, integer square root.
//! - `quadtree`: the spatial index, from entry ids to a handle and a rectangle.
//! - `solver`: the bodies, the phases of a substep, and the frame step.
//! - `overlay`: line segments that outline the arena and the index's nodes.
//! - `laws`: properties that relate several operations.
pub mod geom;
pub mod quadtree;
pub mod solver;
pub mod overlay;
pub mod laws;
