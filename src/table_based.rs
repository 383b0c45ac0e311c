//! The table method: each value becomes a two-digit code (its power of ten
//! and the largest table multiplier not above its leading digits); the codes
//! are averaged rounding up, and the average is decoded.
use vstd::prelude::*;
use vstd::arithmetic::div_mod::{lemma_fundamental_div_mod, lemma_mod_pos_bound};
use crate::digits::{
    pow10,
    num_digits,
    lemma_pow10_positive,
    lemma_pow10_monotone,
    lemma_num_digits_bounds,
    lemma_pow10_38,
    pow10_u128,
    digit_count,
};
use crate::estimate::{
    check_input,
    input_error,
    within_limits,
    EstimateGeometricMean,
    GeometricMeanError,
    MAX_VALUE_PICOS,
    MAX_VALUES,
};
use crate::fixed::{Fixed, PICOS};

verus! {

/// The table's leading-digit multipliers, in hundredths:
/// 1.0, 1.25, 1.6, 2.0, 2.5, 3.0, 4.0, 5.0, 6.0, 8.0.
pub open spec fn multiplier(i: int) -> int {
    seq![100int, 125, 160, 200, 250, 300, 400, 500, 600, 800][i]
}

/// The largest index `j <= i` whose multiplier is at most `leading`
/// hundredths (index 0 when none is).
pub open spec fn table_index_at_most(leading: int, i: int) -> int
    decreases i,
{
    if i <= 0 {
        0
    } else if multiplier(i) <= leading {
        i
    } else {
        table_index_at_most(leading, i - 1)
    }
}

/// The code of a value of at least one, given in trillionths: ten times its
/// power of ten plus the table index of its leading digits.
pub open spec fn log_code(picos: int) -> int {
    let k = num_digits(picos as nat);
    let zeros = k - 13;
    // The leading digits `picos / 10^(k - 1)`, in hundredths, rounded down.
    let leading = picos / (pow10((k - 3) as nat) as int);
    zeros * 10 + table_index_at_most(leading, 9)
}

/// The value that `code` stands for, in trillionths.
pub open spec fn code_value(code: int) -> int {
    multiplier(code % 10) * pow10((code / 10 + 10) as nat)
}

/// Sum of the codes of the first `n` values.
pub open spec fn code_sum(values: Seq<Fixed>, n: int) -> int
    decreases n,
{
    if n <= 0 {
        0
    } else {
        code_sum(values, n - 1) + log_code(values[n - 1].picos as int)
    }
}

/// The table estimate of `values`.
pub open spec fn table_estimate(values: Seq<Fixed>) -> Result<Fixed, GeometricMeanError> {
    match input_error(values) {
        Some(e) => Err(e),
        None => {
            let n = values.len() as int;
            let average = (code_sum(values, n) + n - 1) / n;
            Ok(Fixed { picos: code_value(average) as i128 })
        },
    }
}

/// The table method.
#[derive(Debug, Clone, Copy)]
pub struct TableBasedApproximation;

impl EstimateGeometricMean for TableBasedApproximation {
    open spec fn spec_estimate(values: Seq<Fixed>) -> Result<Fixed, GeometricMeanError> {
        table_estimate(values)
    }

    fn estimate_geometric_mean(values: &[Fixed]) -> (r: Result<Fixed, GeometricMeanError>) {
        table_based_approximation(values)
    }
}

/// The multiplier at `i`, in hundredths.
fn multiplier_at(i: usize) -> (r: u128)
    requires
        i < 10,
    ensures
        r == multiplier(i as int),
{
    let table: [u128; 10] = [100, 125, 160, 200, 250, 300, 400, 500, 600, 800];
    proof {
        assert(table@ =~= seq![100u128, 125, 160, 200, 250, 300, 400, 500, 600, 800]);
    }
    table[i]
}

/// The largest table index whose multiplier is at most `leading` hundredths.
pub fn find_forward_table_entry(leading: u128) -> (r: usize)
    ensures
        r == table_index_at_most(leading as int, 9),
        r < 10,
{
    let mut i: usize = 9;
    while i > 0
        invariant
            i <= 9,
            table_index_at_most(leading as int, 9) == table_index_at_most(leading as int, i as int),
        decreases i,
    {
        if multiplier_at(i) <= leading {
            return i;
        }
        i = i - 1;
    }
    0
}

proof fn lemma_code_bounds(picos: int)
    requires
        PICOS <= picos < MAX_VALUE_PICOS,
    ensures
        0 <= log_code(picos) < 200,
        num_digits(picos as nat) >= 13,
        num_digits(picos as nat) <= 32,
{
    let k = num_digits(picos as nat);
    lemma_num_digits_bounds(picos as nat);
    assert(pow10(12) == 1000000000000) by {
        reveal_with_fuel(pow10, 13);
    }
    assert(pow10(32) == 100000000000000000000000000000000) by {
        reveal_with_fuel(pow10, 33);
    }
    if k < 13 {
        lemma_pow10_monotone(k, 12);
    }
    if k > 32 {
        lemma_pow10_monotone(32, (k - 1) as nat);
    }
    let leading = picos / (pow10((k - 3) as nat) as int);
    lemma_index_bounds(leading, 9);
}

proof fn lemma_index_bounds(leading: int, i: int)
    requires
        i <= 9,
    ensures
        0 <= table_index_at_most(leading, i) <= if i < 0 { 0 } else { i },
    decreases i,
{
    if i > 0 {
        lemma_index_bounds(leading, i - 1);
    }
}

/// The code of `value`, a number of at least one and below `10^20`.
pub fn number_to_log_representation(value: Fixed) -> (r: u64)
    requires
        PICOS <= value.picos < MAX_VALUE_PICOS,
    ensures
        r == log_code(value.picos as int),
        r < 200,
{
    proof {
        lemma_code_bounds(value.picos as int);
    }
    let picos = value.picos as u128;
    let k = digit_count(picos);
    proof {
        lemma_pow10_positive((k - 3) as nat);
        lemma_pow10_monotone((k - 3) as nat, 38);
        lemma_pow10_38();
    }
    let zeros = (k - 13) as u64;
    let leading = picos / pow10_u128(k - 3);
    let index = find_forward_table_entry(leading);
    zeros * 10 + index as u64
}

proof fn lemma_code_value_bounds(zeros: nat, index: int)
    requires
        zeros <= 19,
        0 <= index < 10,
    ensures
        0 < multiplier(index) * pow10(zeros + 10) <= 80000000000000000000000000000000,
{
    lemma_pow10_monotone(zeros + 10, 29);
    assert(pow10(29) == 100000000000000000000000000000) by {
        reveal_with_fuel(pow10, 30);
    }
    lemma_pow10_positive(zeros + 10);
    let m = multiplier(index);
    let p = pow10(zeros + 10);
    assert(100 <= m <= 800);
    assert(0 < m * p <= 800 * 100000000000000000000000000000) by (nonlinear_arith)
        requires
            100 <= m <= 800,
            1 <= p <= 100000000000000000000000000000,
    ;
}

/// The value that `code` stands for.
pub fn log_representation_to_number(code: u64) -> (r: Fixed)
    requires
        code < 200,
    ensures
        r.picos == code_value(code as int),
        0 < r.picos <= MAX_VALUE_PICOS,
{
    let zeros = (code / 10) as u32;
    let index = (code % 10) as usize;
    proof {
        lemma_code_value_bounds(zeros as nat, index as int);
    }
    let picos = multiplier_at(index) * pow10_u128(zeros + 10);
    Fixed { picos: picos as i128 }
}

/// The table estimate of `values`; the average code is rounded up.
pub fn table_based_approximation(values: &[Fixed]) -> (r: Result<Fixed, GeometricMeanError>)
    requires
        within_limits(values@),
    ensures
        r == table_estimate(values@),
        r is Ok ==> 0 < r->Ok_0.picos <= MAX_VALUE_PICOS,
{
    if let Some(e) = check_input(values) {
        return Err(e);
    }
    let n = values.len();
    let mut sum: u128 = 0;
    let mut i: usize = 0;
    while i < n
        invariant
            n == values@.len(),
            0 <= i <= n,
            n <= MAX_VALUES,
            within_limits(values@),
            forall|j: int| 0 <= j < n ==> #[trigger] values@[j].picos >= PICOS,
            sum == code_sum(values@, i as int),
            sum <= 199 * i,
        decreases n - i,
    {
        let code = number_to_log_representation(values[i]);
        sum = sum + code as u128;
        i = i + 1;
    }
    let average = (sum + n as u128 - 1) / n as u128;
    proof {
        let x = (sum + n - 1) as int;
        lemma_fundamental_div_mod(x, n as int);
        lemma_mod_pos_bound(x, n as int);
        assert(average < 200) by (nonlinear_arith)
            requires
                average == x / (n as int),
                x == (n as int) * (x / (n as int)) + x % (n as int),
                x % (n as int) >= 0,
                x <= 200 * n - 1,
                n >= 1,
        ;
    }
    Ok(log_representation_to_number(average as u64))
}

} // verus!
