//! A small ray-tracing toolkit.
//!
//! The crate provides the sampling machinery that drives antialiasing and
//! lens simulation: generators that lay out sample patterns on the unit
//! square, and a container that hands those sample sets out round-robin.
//! Sample patterns are described here by their exact integer skeletons
//! (grid cells, permutations, dyadic fractions); a renderer turns those
//! skeletons into floating-point offsets.

pub mod perm;
pub mod sampler;
pub mod tracer;
