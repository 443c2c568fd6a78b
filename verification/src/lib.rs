//! Pitch detection after the YIN method: the decisions that turn normalised
//! difference values into pitch estimates, and a history of estimates into the
//! reported pitch period.

pub mod container;
pub mod estimate;
pub mod pitch_extractor;
pub mod ring;

use vstd::prelude::*;

verus! {

/// Number of channels of the frames that the container works on.
pub const CHANNELS: usize = 1;

/// Number of frames summed by the difference function.
pub const WINDOW_SIZE: usize = 100;

/// Largest lag, in frames, that the extractor looks at.
pub const PITCH_MAX_T: usize = 150;

} // verus!
