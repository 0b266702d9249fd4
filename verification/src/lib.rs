//! Proximity structures over a finite set of sites in the integer plane.
//!
//! Three independent strategies share one point and distance primitive:
//! a raster flood fill that tags boundary cells, an algebra of bounded
//! perpendicular bisectors, and an incremental triangulation whose dual is
//! the Voronoi diagram. All arithmetic is exact: distances are kept as
//! square roots of integers, line coordinates and circumcentres as quotients
//! of integers.

pub mod wide;
pub mod point;
pub mod ratio;
pub mod bisector;
pub mod triangle;
pub mod dulaney;
pub mod bfs;
pub mod strategy;
