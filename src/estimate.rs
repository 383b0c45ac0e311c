//! What every estimation method shares: its error, its input checks and its
//! interface.
use vstd::prelude::*;
use crate::fixed::{Fixed, PICOS};

verus! {

/// Why a set of values has no estimate.
#[derive(Clone, Copy, Debug, PartialEq, Eq, Structural)]
pub enum GeometricMeanError {
    EmptyInput,
    NonPositiveValue,
    ValueTooSmall,
}

/// Values are below `10^20`, in trillionths.
pub const MAX_VALUE_PICOS: i128 = 100000000000000000000000000000000;

/// Largest number of values in one estimate.
pub const MAX_VALUES: usize = 100000;

/// The sizes that the fixed-width arithmetic of the estimators can hold.
pub open spec fn within_limits(values: Seq<Fixed>) -> bool {
    &&& values.len() <= MAX_VALUES
    &&& forall|i: int| 0 <= i < values.len() ==> #[trigger] values[i].picos < MAX_VALUE_PICOS
}

/// What is wrong with one value for a pen-and-paper method, if anything.
pub open spec fn value_error(v: Fixed) -> Option<GeometricMeanError> {
    if v.picos <= 0 {
        Some(GeometricMeanError::NonPositiveValue)
    } else if v.picos < PICOS {
        Some(GeometricMeanError::ValueTooSmall)
    } else {
        None
    }
}

/// The error of the first wrong value at or after position `i`.
pub open spec fn first_value_error(values: Seq<Fixed>, i: int) -> Option<GeometricMeanError>
    decreases values.len() - i,
{
    if i < 0 || i >= values.len() {
        None
    } else if value_error(values[i]) is Some {
        value_error(values[i])
    } else {
        first_value_error(values, i + 1)
    }
}

/// Why a pen-and-paper method rejects `values`: empty input first, then the
/// first value that is not positive or is below one.
pub open spec fn input_error(values: Seq<Fixed>) -> Option<GeometricMeanError> {
    if values.len() == 0 {
        Some(GeometricMeanError::EmptyInput)
    } else {
        first_value_error(values, 0)
    }
}

/// Checks `values` in order and reports the first problem.
pub fn check_input(values: &[Fixed]) -> (r: Option<GeometricMeanError>)
    ensures
        r == input_error(values@),
        r is None ==> forall|i: int| 0 <= i < values@.len() ==> #[trigger] values@[i].picos >= PICOS,
{
    if values.len() == 0 {
        return Some(GeometricMeanError::EmptyInput);
    }
    let mut i: usize = 0;
    while i < values.len()
        invariant
            0 <= i <= values@.len(),
            values@.len() > 0,
            first_value_error(values@, 0) == first_value_error(values@, i as int),
            forall|j: int| 0 <= j < i ==> #[trigger] values@[j].picos >= PICOS,
        decreases values@.len() - i,
    {
        let v = values[i];
        if v.picos <= 0 {
            return Some(GeometricMeanError::NonPositiveValue);
        }
        if v.picos < PICOS {
            return Some(GeometricMeanError::ValueTooSmall);
        }
        i = i + 1;
    }
    None
}

/// A way of estimating the geometric mean of a set of values.
pub trait EstimateGeometricMean {
    /// The estimate that the method gives for `values`.
    spec fn spec_estimate(values: Seq<Fixed>) -> Result<Fixed, GeometricMeanError>;

    fn estimate_geometric_mean(values: &[Fixed]) -> (r: Result<Fixed, GeometricMeanError>)
        requires
            within_limits(values@),
        ensures
            r == Self::spec_estimate(values@),
            r is Ok ==> 0 < r->Ok_0.picos <= MAX_VALUE_PICOS,
    ;
}

} // verus!
