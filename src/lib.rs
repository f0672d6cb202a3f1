//! Y-monotone decomposition and triangulation of polygons with holes.
//!
//! Positions are integer points, y pointing down; every predicate is exact.
//! A polygon is an outer ring wound clockwise and holes wound counter-clockwise.
//! [`decomposition`] sweeps it from top to bottom and adds the diagonals that cut
//! it into y-monotone pieces, [`partition`] traces those pieces, and
//! [`triangulation`] cuts each piece into triangles.
use vstd::prelude::*;

pub mod geometry;
pub mod polygon;
pub mod sorting;
pub mod sweep;
pub mod decomposition;
pub mod triangulation;
pub mod partition;
pub mod setup;

verus! {

} // verus!
