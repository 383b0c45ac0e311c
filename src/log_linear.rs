//! The log-linear method: a value with `d` digits becomes `d + v / 10^d`; the
//! encodings are averaged and the average is decoded. Encodings are held
//! exactly, scaled by `10^32`, which every value below `10^20` allows.
use vstd::prelude::*;
use vstd::arithmetic::div_mod::{
    lemma_div_is_ordered_by_denominator,
    lemma_fundamental_div_mod,
    lemma_mod_pos_bound,
};
use crate::digits::{
    pow10,
    num_digits,
    lemma_pow10_positive,
    lemma_pow10_add,
    lemma_pow10_monotone,
    lemma_num_digits_bounds,
    pow10_u128,
    digit_count,
};
use crate::estimate::{
    check_input,
    input_error,
    within_limits,
    EstimateGeometricMean,
    GeometricMeanError,
    MAX_VALUE_PICOS,
    MAX_VALUES,
};
use crate::fixed::{Fixed, PICOS};

verus! {

/// `10^32`: the scale of encodings.
pub const ENCODING_SCALE: u128 = 100000000000000000000000000000000;

/// The encoding `d + v / 10^d` of a value `v >= 1` with `d` digits before the
/// point, given in trillionths, times `10^32`.
pub open spec fn encode(picos: int) -> int {
    let k = num_digits(picos as nat);
    (k - 12) * ENCODING_SCALE + picos * pow10((32 - k) as nat)
}

/// Sum of the encodings of the first `n` values.
pub open spec fn encoding_sum(values: Seq<Fixed>, n: int) -> int
    decreases n,
{
    if n <= 0 {
        0
    } else {
        encoding_sum(values, n - 1) + encode(values[n - 1].picos as int)
    }
}

/// Decoding of the mean `sum / (count * 10^32)` of `count` encodings, in
/// trillionths rounded down: with `d` its whole part and `f` its fraction,
/// `f * 10^d`, where a fraction below one tenth counts as one tenth.
pub open spec fn decode(sum: int, count: int) -> int {
    let whole = count * ENCODING_SCALE;
    let d = sum / whole;
    let rem = sum % whole;
    if 10 * rem < whole {
        pow10((d + 11) as nat) as int
    } else {
        rem / (count * pow10((20 - d) as nat))
    }
}

/// The log-linear estimate of `values`, in trillionths rounded down.
pub open spec fn log_linear_estimate(values: Seq<Fixed>) -> Result<Fixed, GeometricMeanError> {
    match input_error(values) {
        Some(e) => Err(e),
        None => {
            let n = values.len() as int;
            Ok(Fixed { picos: decode(encoding_sum(values, n), n) as i128 })
        },
    }
}

/// The log-linear method.
#[derive(Debug, Clone, Copy)]
pub struct LogLinearApproximation;

impl EstimateGeometricMean for LogLinearApproximation {
    open spec fn spec_estimate(values: Seq<Fixed>) -> Result<Fixed, GeometricMeanError> {
        log_linear_estimate(values)
    }

    fn estimate_geometric_mean(values: &[Fixed]) -> (r: Result<Fixed, GeometricMeanError>) {
        log_linear_approximation(values)
    }
}

/// The encoding of `value`, a number of at least one and below `10^20`,
/// times `10^32`.
pub fn convert_to_log_linear(value: Fixed) -> (r: u128)
    requires
        PICOS <= value.picos < MAX_VALUE_PICOS,
    ensures
        r == encode(value.picos as int),
        ENCODING_SCALE <= r < 21 * ENCODING_SCALE,
{
    let picos = value.picos as u128;
    let k = digit_count(picos);
    proof {
        let kn = k as nat;
        lemma_num_digits_bounds(picos as nat);
        assert(pow10(12) == 1000000000000) by {
            reveal_with_fuel(pow10, 13);
        }
        assert(pow10(32) == ENCODING_SCALE) by {
            reveal_with_fuel(pow10, 33);
        }
        if k < 13 {
            lemma_pow10_monotone(kn, 12);
        }
        if k > 32 {
            lemma_pow10_monotone(32, (kn - 1) as nat);
        }
        lemma_pow10_add(kn, (32 - kn) as nat);
        lemma_pow10_positive((32 - kn) as nat);
        let q = pow10((32 - kn) as nat) as int;
        assert(picos * q < ENCODING_SCALE) by (nonlinear_arith)
            requires
                picos < pow10(kn),
                pow10(kn) * q == ENCODING_SCALE,
                q >= 1,
        ;
        assert(picos * q >= 0) by (nonlinear_arith)
            requires
                picos >= 0,
                q >= 1,
        ;
    }
    (k as u128 - 12) * ENCODING_SCALE + picos * pow10_u128(32 - k)
}

proof fn lemma_quotient_below_scale(rem: int, divisor: int, count: int)
    requires
        count >= 1,
        divisor >= count,
        0 <= rem < count * ENCODING_SCALE,
    ensures
        rem / divisor < ENCODING_SCALE,
{
    lemma_div_is_ordered_by_denominator(rem, count, divisor);
    lemma_fundamental_div_mod(rem, count);
    lemma_mod_pos_bound(rem, count);
    assert(rem / count < ENCODING_SCALE) by (nonlinear_arith)
        requires
            rem == count * (rem / count) + rem % count,
            rem % count >= 0,
            rem < count * ENCODING_SCALE,
            count >= 1,
    ;
}

/// The whole part `d` of a mean of encodings is below 21, so that every
/// power of ten the decoding takes fits.
proof fn lemma_decode_whole_part(sum: int, count: int, whole: int, d: int, rem: int)
    requires
        1 <= count <= MAX_VALUES,
        0 <= sum < count * 21 * ENCODING_SCALE,
        whole == count * ENCODING_SCALE,
        d == sum / whole,
        rem == sum % whole,
    ensures
        0 <= d < 21,
        0 <= rem < whole,
        pow10((d + 11) as nat) <= 10000000000000000000000000000000,
        1 <= count * pow10((20 - d) as nat) <= 100000 * 100000000000000000000,
{
    lemma_fundamental_div_mod(sum, whole);
    lemma_mod_pos_bound(sum, whole);
    assert(0 <= d < 21) by (nonlinear_arith)
        requires
            sum == whole * d + rem,
            0 <= rem < whole,
            0 <= sum < 21 * whole,
            whole > 0,
    ;
    lemma_pow10_monotone((d + 11) as nat, 31);
    lemma_pow10_monotone((20 - d) as nat, 20);
    lemma_pow10_positive((20 - d) as nat);
    assert(pow10(31) == 10000000000000000000000000000000) by {
        reveal_with_fuel(pow10, 32);
    }
    assert(pow10(20) == 100000000000000000000) by {
        reveal_with_fuel(pow10, 21);
    }
    let p = pow10((20 - d) as nat);
    assert(1 <= count * p <= 100000 * 100000000000000000000) by (nonlinear_arith)
        requires
            1 <= count <= 100000,
            1 <= p <= 100000000000000000000,
    ;
}

/// A fraction of at least one tenth decodes to a positive value below `10^20`.
proof fn lemma_decode_fraction(rem: int, count: int, whole: int, d: int, divisor: int)
    requires
        count >= 1,
        0 <= d < 21,
        whole == count * ENCODING_SCALE,
        0 <= rem < whole,
        10 * rem >= whole,
        divisor == count * pow10((20 - d) as nat),
    ensures
        1 <= rem / divisor < ENCODING_SCALE,
{
    lemma_pow10_monotone((20 - d) as nat, 20);
    lemma_pow10_positive((20 - d) as nat);
    assert(pow10(20) == 100000000000000000000) by {
        reveal_with_fuel(pow10, 21);
    }
    let p = pow10((20 - d) as nat);
    assert(count <= divisor <= rem) by (nonlinear_arith)
        requires
            divisor == count * p,
            1 <= p <= 100000000000000000000,
            10 * rem >= whole,
            whole == count * 100000000000000000000000000000000,
            count >= 1,
    ;
    assert(rem / divisor >= 1) by (nonlinear_arith)
        requires
            divisor >= 1,
            divisor <= rem,
    ;
    lemma_quotient_below_scale(rem, divisor, count);
}

/// Decodes the mean of `count` encodings whose sum is `sum`.
pub fn convert_from_log_linear(sum: u128, count: u64) -> (r: Fixed)
    requires
        1 <= count <= MAX_VALUES,
        sum < count * 21 * ENCODING_SCALE,
    ensures
        r.picos == decode(sum as int, count as int),
        0 < r.picos <= MAX_VALUE_PICOS,
{
    let whole: u128 = count as u128 * ENCODING_SCALE;
    let d: u128 = sum / whole;
    let rem: u128 = sum % whole;
    proof {
        lemma_decode_whole_part(sum as int, count as int, whole as int, d as int, rem as int);
    }
    if 10 * rem < whole {
        proof {
            lemma_pow10_positive((d + 11) as nat);
        }
        Fixed { picos: pow10_u128((d + 11) as u32) as i128 }
    } else {
        let divisor: u128 = count as u128 * pow10_u128((20 - d) as u32);
        proof {
            lemma_decode_fraction(rem as int, count as int, whole as int, d as int, divisor as int);
        }
        Fixed { picos: (rem / divisor) as i128 }
    }
}

/// The log-linear estimate of `values`, in trillionths rounded down.
pub fn log_linear_approximation(values: &[Fixed]) -> (r: Result<Fixed, GeometricMeanError>)
    requires
        within_limits(values@),
    ensures
        r == log_linear_estimate(values@),
        r is Ok ==> 0 < r->Ok_0.picos <= MAX_VALUE_PICOS,
{
    if let Some(e) = check_input(values) {
        return Err(e);
    }
    let n = values.len();
    let mut sum: u128 = 0;
    let mut i: usize = 0;
    while i < n
        invariant
            n == values@.len(),
            0 <= i <= n,
            n <= MAX_VALUES,
            within_limits(values@),
            forall|j: int| 0 <= j < n ==> #[trigger] values@[j].picos >= PICOS,
            sum == encoding_sum(values@, i as int),
            sum < i * 21 * ENCODING_SCALE || (i == 0 && sum == 0),
        decreases n - i,
    {
        let e = convert_to_log_linear(values[i]);
        sum = sum + e;
        i = i + 1;
    }
    Ok(convert_from_log_linear(sum, n as u64))
}

} // verus!
