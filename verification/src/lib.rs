//! The ordering core of a non-planar slicer.
//!
//! Coordinates are signed 64-bit integers that the library only ever copies
//! and compares. Whatever needs arithmetic on measurements (tolerant
//! equality, interpolation, distances, the nozzle cone) is asked of the
//! caller through function values; the library owns the bookkeeping around
//! them: bounding boxes, the descent through a bounding-volume hierarchy,
//! ring assembly, surface components, stride chaining and the print order.

pub mod axis;
pub mod point;
pub mod line;
pub mod aabb;
pub mod kernel;
pub mod util;
pub mod triangle;
pub mod bvh;
pub mod slice_path;
pub mod base_slices;
pub mod mesh;
pub mod split_surface;
pub mod trace_surface;
pub mod z_projection;
pub mod schedule;
