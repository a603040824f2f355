//! Scene decoding and work partitioning for a Monte-Carlo path tracer.
use vstd::prelude::*;

pub mod util;
pub mod bsdf;
pub mod face;
pub mod scene;
pub mod render_arena;
pub mod estimator;

verus! {

} // verus!
