//! Verified core of a Monte-Carlo path tracer: the bounding-volume hierarchy,
//! the Perlin lattice, the integrator's bounce policy and texel lookup.
pub mod bvh;
pub mod integrator;
pub mod perlin;
pub mod texture;
