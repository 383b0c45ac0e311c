//! Decimal numbers with twelve places after the point.
use vstd::prelude::*;

verus! {

/// Trillionths in one unit.
pub const PICOS: i128 = 1000000000000;

/// A signed decimal number with twelve places after the point, held exactly
/// as a count of trillionths.
#[derive(Clone, Copy, Debug, PartialEq, Eq, Structural)]
pub struct Fixed {
    pub picos: i128,
}

impl Fixed {
    /// The number `picos / 10^12`.
    pub fn from_picos(picos: i128) -> (r: Fixed)
        ensures
            r.picos == picos,
    {
        Fixed { picos }
    }

    /// The whole number `n`.
    pub fn from_whole(n: u64) -> (r: Fixed)
        ensures
            r.picos == n * PICOS,
    {
        Fixed { picos: n as i128 * PICOS }
    }

    /// The largest whole number not above `self`, for a number that is not negative.
    pub fn floor_whole(&self) -> (r: u128)
        requires
            self.picos >= 0,
        ensures
            r == self.picos as int / (PICOS as int),
    {
        (self.picos / PICOS) as u128
    }

    /// The smallest whole number not below `self`, for a number that is not negative.
    pub fn ceil_whole(&self) -> (r: u128)
        requires
            self.picos >= 0,
        ensures
            r == (self.picos as int + PICOS - 1) / (PICOS as int),
    {
        ((self.picos / PICOS) + if self.picos % PICOS == 0 { 0 } else { 1 }) as u128
    }
}

} // verus!
