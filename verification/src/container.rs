//! The decision of the single-channel container: whether its pitch is reported.

use vstd::prelude::*;

verus! {

/// The period, in frames, that the container reports for a chosen pitch
/// `pitch_t`: none when no pitch was found (0) or when the signal is not loud
/// enough (its RMS below the container's threshold, as judged by the caller).
pub fn reported_period(pitch_t: usize, loud_enough: bool) -> (p: Option<usize>)
    ensures
        p == (if pitch_t != 0 && loud_enough { Some(pitch_t) } else { None::<usize> }),
{
    if pitch_t == 0 {
        return None;
    }
    if loud_enough {
        return Some(pitch_t);
    }
    None
}

} // verus!
