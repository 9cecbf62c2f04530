//! Stepped animation engine for visualizing in-place sorting algorithms.
//!
//! The library owns the array model, the projection of the array to
//! renderable vertices, five resumable sorting step engines, and the
//! animation driver that advances one engine per display frame.  The
//! renderer and the frame clock themselves are external collaborators:
//! a host shell performs the drawing and schedules the frames, feeding
//! each frame callback into [`driver::Session::frame_tick`].

use vstd::prelude::*;

pub mod array;
pub mod bibubble;
pub mod bubble;
pub mod driver;
pub mod insertion;
pub mod merge;
pub mod quick;
pub mod sortspec;
pub mod vertex;

verus! {

/// Result of one bounded unit of algorithm progress: either more work
/// remains (`Continue`) or the algorithm has reached its terminal state
/// (`Done`).
#[derive(Clone, Copy, PartialEq, Eq, Structural, Debug)]
pub enum TickResult {
    Continue,
    Done,
}

} // verus!
