//! The integer and combinatorial core of a ray tracer: constructive solid
//! geometry filtering, object groups, pixel canvases, PPM text output,
//! Wavefront OBJ parsing, and the bookkeeping that tracks which objects a ray
//! is inside of.

pub mod canvas;
pub mod csg;
pub mod group;
pub mod lex;
pub mod matrix;
pub mod ppm;
pub mod refraction;
pub mod shadow;
pub mod text;
pub mod wavefront;
