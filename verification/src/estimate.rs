//! One pitch estimate for one channel, and the order in which estimates compete.

use vstd::prelude::*;
use std::cmp::Ordering;

verus! {

/// A candidate pitch period for one channel.
///
/// `pitch` is a lag in frames; 0 means that no period was found. `confidence`
/// is the ordering key of the normalised difference value at that lag: lower
/// is better, and it is ignored when `pitch` is 0.
#[derive(Clone, Copy, Debug, PartialEq, Eq, Structural)]
pub struct PitchEstimate {
    pub pitch: usize,
    pub confidence: u32,
}

/// The estimate that holds no period, with a confidence key of zero.
pub open spec fn unset_estimate() -> PitchEstimate {
    PitchEstimate { pitch: 0, confidence: 0 }
}

/// `a` strictly beats `b`: an estimate with a period beats one without, and
/// between two with a period the lower confidence key wins.
pub open spec fn precedes(a: PitchEstimate, b: PitchEstimate) -> bool {
    a.pitch != 0 && (b.pitch == 0 || a.confidence < b.confidence)
}

/// The three-way comparison of two estimates by `precedes`.
pub open spec fn estimate_order(a: PitchEstimate, b: PitchEstimate) -> Ordering {
    if precedes(a, b) {
        Ordering::Less
    } else if precedes(b, a) {
        Ordering::Greater
    } else {
        Ordering::Equal
    }
}

impl PitchEstimate {
    /// The estimate that holds no period.
    pub fn new() -> (e: Self)
        ensures
            e == unset_estimate(),
    {
        PitchEstimate { pitch: 0, confidence: 0 }
    }

    /// Compares two estimates: `Less` when `self` is the better one.
    pub fn cmp(&self, other: &PitchEstimate) -> (o: Ordering)
        ensures
            o == estimate_order(*self, *other),
            self.pitch != 0 && other.pitch != 0 ==> {
                &&& (o == Ordering::Less) == (self.confidence < other.confidence)
                &&& (o == Ordering::Greater) == (self.confidence > other.confidence)
                &&& (o == Ordering::Equal) == (self.confidence == other.confidence)
            },
            self.pitch != 0 && other.pitch == 0 ==> o == Ordering::Less,
            self.pitch == 0 && other.pitch != 0 ==> o == Ordering::Greater,
            self.pitch == 0 && other.pitch == 0 ==> o == Ordering::Equal,
    {
        if self.pitch == 0 {
            if other.pitch == 0 {
                return Ordering::Equal;
            }
            return Ordering::Greater;
        }
        if other.pitch == 0 {
            return Ordering::Less;
        }
        if self.confidence < other.confidence {
            return Ordering::Less;
        }
        if self.confidence > other.confidence {
            return Ordering::Greater;
        }
        Ordering::Equal
    }

    /// The same comparison as `cmp`, which is defined on every pair.
    pub fn partial_cmp(&self, other: &PitchEstimate) -> (o: Option<Ordering>)
        ensures
            o == Some(estimate_order(*self, *other)),
    {
        Some(self.cmp(other))
    }

    /// `self < other`: `self` strictly beats `other` by `cmp`.
    pub fn lt(&self, other: &PitchEstimate) -> (r: bool)
        ensures
            r == precedes(*self, *other),
            r == (self.pitch != 0 && (other.pitch == 0 || self.confidence < other.confidence)),
    {
        match self.cmp(other) {
            Ordering::Less => true,
            _ => false,
        }
    }
}

/// The comparison is antisymmetric: swapping the arguments reverses it.
pub proof fn lemma_order_reverses(a: PitchEstimate, b: PitchEstimate)
    ensures
        estimate_order(a, b) == Ordering::Less <==> estimate_order(b, a) == Ordering::Greater,
        estimate_order(a, b) == Ordering::Equal <==> estimate_order(b, a) == Ordering::Equal,
        !(precedes(a, b) && precedes(b, a)),
{
}

/// The order read off the fields: between two estimates with a period it is
/// exactly the order of their confidence keys (a strictly lower key wins, equal
/// keys tie); one with a period beats one without; two without tie.
pub proof fn lemma_order_by_fields(a: PitchEstimate, b: PitchEstimate)
    ensures
        a.pitch != 0 && b.pitch != 0 ==> {
            &&& (estimate_order(a, b) == Ordering::Less) == (a.confidence < b.confidence)
            &&& (estimate_order(a, b) == Ordering::Greater) == (a.confidence > b.confidence)
            &&& (estimate_order(a, b) == Ordering::Equal) == (a.confidence == b.confidence)
        },
        a.pitch != 0 && b.pitch == 0 ==> estimate_order(a, b) == Ordering::Less,
        a.pitch == 0 && b.pitch != 0 ==> estimate_order(a, b) == Ordering::Greater,
        a.pitch == 0 && b.pitch == 0 ==> estimate_order(a, b) == Ordering::Equal,
        precedes(a, b) == (a.pitch != 0 && (b.pitch == 0 || a.confidence < b.confidence)),
{
}

/// Every estimate compares equal to itself, so equal estimates compare equal.
pub proof fn lemma_order_reflexive(a: PitchEstimate, b: PitchEstimate)
    requires
        a == b,
    ensures
        estimate_order(a, b) == Ordering::Equal,
        !precedes(a, b),
{
}

/// Beating is transitive, and so is "not beaten by".
pub proof fn lemma_order_transitive(a: PitchEstimate, b: PitchEstimate, c: PitchEstimate)
    ensures
        precedes(a, b) && precedes(b, c) ==> precedes(a, c),
        !precedes(b, a) && !precedes(c, b) ==> !precedes(c, a),
{
}

/// An estimate without a period never beats anything, and every estimate with
/// a period beats every estimate without one.
pub proof fn lemma_unset_is_last(a: PitchEstimate, b: PitchEstimate)
    ensures
        a.pitch == 0 ==> !precedes(a, b),
        a.pitch != 0 && b.pitch == 0 ==> precedes(a, b),
{
}

} // verus!
