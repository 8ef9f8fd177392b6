//! Exact decimal numbers.
//!
//! A cell of a raster is a decimal literal such as `-9999`, `12.5` or
//! `1.25e3`. The library keeps such a number exactly, as a whole count of
//! units of 10^-18, so that equality with the nodata value and the cutting
//! down of intensities never depend on a binary approximation.

use vstd::prelude::*;

verus! {

/// Largest magnitude of a [`Decimal`], in units of 10^-18: ten to the 35th.
pub const MAX_UNITS: i128 = 100_000_000_000_000_000_000_000_000_000_000_000;

/// Ten to the `n`th.
pub open spec fn pow10(n: nat) -> nat
    decreases n,
{
    if n == 0 {
        1
    } else {
        10 * pow10((n - 1) as nat)
    }
}

/// An exact decimal number: a whole count of units of 10^-18, at most
/// `MAX_UNITS` in magnitude.
#[derive(Clone, Copy, Debug, PartialEq, Eq, Structural)]
pub struct Decimal {
    units: i128,
}

impl View for Decimal {
    type V = int;

    /// The number in units of 10^-18.
    closed spec fn view(&self) -> int {
        self.units as int
    }
}

impl Decimal {
    #[verifier::type_invariant]
    spec fn in_range(self) -> bool {
        -MAX_UNITS <= self.units <= MAX_UNITS
    }

    /// The number of `units` units of 10^-18, if it is in range.
    pub fn from_units(units: i128) -> (r: Option<Decimal>)
        ensures
            r is Some <==> -MAX_UNITS <= units <= MAX_UNITS,
            r matches Some(d) ==> d@ == units,
    {
        if -MAX_UNITS <= units && units <= MAX_UNITS {
            Some(Decimal { units })
        } else {
            None
        }
    }

    /// The number in units of 10^-18.
    pub fn units(&self) -> (r: i128)
        ensures
            r == self@,
            -MAX_UNITS <= r <= MAX_UNITS,
    {
        proof {
            use_type_invariant(self);
        }
        self.units
    }

    /// Tells whether two numbers are equal.
    pub fn same(&self, other: &Decimal) -> (r: bool)
        ensures
            r == (self@ == other@),
    {
        self.units == other.units
    }
}


} // verus!
