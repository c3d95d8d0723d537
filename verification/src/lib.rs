//! A rectilinear, two-dimensional bounding box with verified geometric
//! predicates.
//!
//! A box is described by four extremas (`xmin`, `xmax`, `ymin`, `ymax`); the
//! invariant `xmin <= xmax && ymin <= ymax` holds for every live box. The
//! extremas are [`coord::Coord`] values: exact rational scalars extended with
//! two infinities, so every comparison, union, containment, intersection,
//! adjacency and tolerance predicate is exact and fully specified.

pub mod bbox;
pub mod coord;
pub mod laws;

pub use bbox::{BoundingBox, Point, ToBoundingBox};
pub use coord::Coord;
