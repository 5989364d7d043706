//! Exact rational values in the unit interval.
//!
//! Every percentage the engine reports (per-color fill, per-tube completion,
//! level-wide completion) is an exact fraction `num / den` with
//! `num <= den`, so no result can ever leave `[0, 1]`, not even at the
//! capacity boundary.

use vstd::prelude::*;

verus! {

/// A rational number `num / den` constrained to the unit interval.
#[derive(Clone, Copy, Debug, PartialEq, Eq, Structural)]
pub struct Fraction {
    pub num: u64,
    pub den: u64,
}

impl Fraction {
    /// The value is well formed: the denominator is positive and the
    /// numerator does not exceed it, so the value lies in `[0, 1]`.
    pub open spec fn wf(self) -> bool {
        0 < self.den && self.num <= self.den
    }

    pub fn new(num: u64, den: u64) -> (r: Fraction)
        requires
            0 < den,
            num <= den,
        ensures
            r.num == num,
            r.den == den,
            r.wf(),
    {
        Fraction { num, den }
    }

    /// The fraction representing exactly one (a full tube, a won level).
    pub fn one() -> (r: Fraction)
        ensures
            r.num == 1,
            r.den == 1,
            r.wf(),
    {
        Fraction { num: 1, den: 1 }
    }

    /// Whether the value equals exactly one.
    pub fn is_one(&self) -> (r: bool)
        requires
            self.wf(),
        ensures
            r <==> self.num == self.den,
    {
        self.num == self.den
    }

    /// Whether the value equals exactly zero.
    pub fn is_zero(&self) -> (r: bool)
        requires
            self.wf(),
        ensures
            r <==> self.num == 0,
    {
        self.num == 0
    }
}

} // verus!
