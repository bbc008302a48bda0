//! Integer core of a sphere path tracer: the RGB8 raster and how finished
//! pixels are written into it, per-pixel seeding of the random source, the
//! choice of the nearest hit among the scene's objects, and the depth rule of
//! the recursive integrator.

pub mod raster;
pub mod seed;
pub mod trace;
