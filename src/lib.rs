//! Integer and structural core of a Monte-Carlo path tracer: PPM text
//! output, the pixel grid, colour channel quantisation, the construction of
//! the bounding-volume hierarchy, and nearest-hit queries through it and
//! through a flat list, with the laws that the hierarchy finds what a linear
//! scan finds. The floating-point geometry and shading stay with the caller,
//! which hands the queries its tests of primitives and bounds.
use vstd::prelude::*;

pub mod axis;
pub mod text;
pub mod color;
pub mod window;
pub mod bvh;
pub mod hit;
