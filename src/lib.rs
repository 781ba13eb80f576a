//! A 2D path stroker on fixed-point coordinates, with the vector-backed
//! tree and the frame profiler that time its work.
use vstd::prelude::*;

pub mod geom;
pub mod canvas;
pub mod flatten;
pub mod joins;
pub mod stroke;
pub mod tree;
pub mod profiler;
pub mod math;
pub mod image;
pub mod asset;

verus! {

} // verus!
