//! The fixed-size ring buffer of `dasp_ring_buffer` (the `sample` crate under its later name), as the library sees it:
//! a sequence whose first item is the oldest.

use vstd::prelude::*;
use dasp_ring_buffer::Fixed;
use crate::estimate::PitchEstimate;

verus! {

#[verifier::external_type_specification]
#[verifier::external_body]
#[verifier::reject_recursive_types(S)]
pub struct ExFixed<S>(Fixed<S>);

/// What a ring buffer of per-channel estimate frames holds, oldest first
/// (the order in which `Fixed::iter` yields them).
pub uninterp spec fn ring_frames(rb: Fixed<Vec<Vec<PitchEstimate>>>) -> Seq<Seq<PitchEstimate>>;

/// `Fixed::from`: the ring holds the given data in order, oldest first. The
/// source panics on empty data, which `requires` leaves out.
#[verifier::external_body]
pub(crate) fn ring_from(data: Vec<Vec<PitchEstimate>>) -> (rb: Fixed<Vec<Vec<PitchEstimate>>>)
    requires
        data@.len() > 0,
    ensures
        ring_frames(rb) == data@.map_values(|v: Vec<PitchEstimate>| v@),
{
    Fixed::from(data)
}

/// `Fixed::len`: the fixed number of items.
#[verifier::external_body]
pub(crate) fn ring_len(rb: &Fixed<Vec<Vec<PitchEstimate>>>) -> (n: usize)
    ensures
        n == ring_frames(*rb).len(),
{
    rb.len()
}

/// `Fixed::push`: the oldest item leaves and is returned, the new one becomes
/// the newest; the length stays. The ring is never empty (see `ring_from`).
#[verifier::external_body]
pub(crate) fn ring_push(rb: &mut Fixed<Vec<Vec<PitchEstimate>>>, item: Vec<PitchEstimate>) -> (oldest: Vec<PitchEstimate>)
    requires
        ring_frames(*old(rb)).len() > 0,
    ensures
        oldest@ == ring_frames(*old(rb))[0],
        ring_frames(*final(rb)) == ring_frames(*old(rb)).drop_first().push(item@),
{
    rb.push(item)
}

/// `Fixed::get`: for an index below the length, the item that many places
/// after the oldest.
#[verifier::external_body]
pub(crate) fn ring_get(rb: &Fixed<Vec<Vec<PitchEstimate>>>, index: usize) -> (item: &Vec<PitchEstimate>)
    requires
        index < ring_frames(*rb).len(),
    ensures
        item@ == ring_frames(*rb)[index as int],
{
    rb.get(index)
}

} // verus!
