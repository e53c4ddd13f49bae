//! Bounding-volume hierarchy and scene bookkeeping for a small ray tracer.
//!
//! The hierarchy is generic over the coordinate type and over the objects it
//! stores; the floating-point geometry is supplied by the caller through the
//! traits in [`objects`] and [`bvh`].

pub mod bvh;
pub mod geometry;
pub mod objects;
