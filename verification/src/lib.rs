//! Step-wise sorting engine for an animated sorting visualizer.
//!
//! Each algorithm is a resumable state machine: one call to `step` performs
//! exactly one atomic unit of work (a comparison, a swap, or a pass
//! transition) against a mutable buffer and reports what changed, so that an
//! external render loop can drive the sort one frame at a time.

use vstd::prelude::*;

pub mod app;
pub mod sort;

verus! {

/// Length of the buffer the driver animates.
pub const ARRAY_LEN: usize = 100;

} // verus!
