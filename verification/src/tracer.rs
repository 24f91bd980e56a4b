//! Tracing strategies.
//!
//! A tracer turns a camera ray into a colour.  The types here select the
//! strategy; the colour evaluation itself is floating-point arithmetic over
//! the scene and is carried out by the renderer built around this crate.

use vstd::prelude::*;

verus! {

/// Diagnostic strategy: test the ray against a single object and answer
/// with a flat hit/miss colour.
pub struct SimpleTracer {}

/// Full strategy: resolve the nearest hit among all scene objects and
/// shade it with the hit object's material, falling back to the scene's
/// background colour on a miss.
pub struct MultipleObjectTracer {}

} // verus!
