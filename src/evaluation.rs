//! Scoring an estimation method over many trials: relative errors against
//! the exact geometric mean, and their mean, worst case, worst overestimate
//! and bias.
use vstd::prelude::*;
use vstd::arithmetic::div_mod::{
    lemma_div_is_ordered,
    lemma_fundamental_div_mod,
    lemma_hoist_over_denominator,
    lemma_mod_pos_bound,
};
use crate::estimate::{within_limits, EstimateGeometricMean, MAX_VALUE_PICOS};
use crate::fixed::{Fixed, PICOS};

verus! {

/// Largest number of trials in one run.
pub const MAX_TRIALS: usize = 1000000;

/// Largest relative error of one trial, in trillionths.
pub const MAX_RELATIVE_ERROR: i128 = 100000000000000000000000000000000;

pub open spec fn abs(x: int) -> int {
    if x >= 0 {
        x
    } else {
        -x
    }
}

/// `|estimate - exact| / exact`, in trillionths rounded down.
pub open spec fn relative_error(estimate: int, exact: int) -> int {
    abs(estimate - exact) * PICOS / exact
}

/// The relative error with the sign of `estimate - exact`.
pub open spec fn signed_relative_error(estimate: int, exact: int) -> int {
    if estimate >= exact {
        relative_error(estimate, exact)
    } else {
        -relative_error(estimate, exact)
    }
}

/// Running statistics over scored trials.
pub struct Tally {
    pub total: int,
    pub worst: int,
    pub worst_over: int,
    pub signed_total: int,
    pub count: int,
}

/// The statistics of trials given as `(estimate, exact)` pairs, in order.
pub open spec fn tally(pairs: Seq<(int, int)>) -> Tally
    decreases pairs.len(),
{
    if pairs.len() == 0 {
        Tally { total: 0, worst: 0, worst_over: 0, signed_total: 0, count: 0 }
    } else {
        let t = tally(pairs.drop_last());
        let p = pairs.last();
        let r = relative_error(p.0, p.1);
        let s = signed_relative_error(p.0, p.1);
        Tally {
            total: t.total + r,
            worst: if r > t.worst {
                r
            } else {
                t.worst
            },
            worst_over: if s > 0 && s > t.worst_over {
                s
            } else {
                t.worst_over
            },
            signed_total: t.signed_total + s,
            count: t.count + 1,
        }
    }
}

/// `x / n` rounded toward zero.
pub open spec fn trunc_div(x: int, n: int) -> int {
    if x >= 0 {
        x / n
    } else {
        -((-x) / n)
    }
}

/// The outcome of a run. A statistic is `None` when no trial could be scored.
#[derive(Debug)]
pub struct Results {
    pub mean_absolute_relative_error: Option<Fixed>,
    pub worst_case_error: Option<Fixed>,
    pub worst_case_overestimate: Option<Fixed>,
    pub overall_bias: Option<Fixed>,
    pub total_tests: usize,
}

/// `r` reports the statistics `t`.
pub open spec fn reports(r: Results, t: Tally) -> bool {
    &&& r.total_tests == t.count
    &&& if t.count == 0 {
        &&& r.mean_absolute_relative_error is None
        &&& r.worst_case_error is None
        &&& r.worst_case_overestimate is None
        &&& r.overall_bias is None
    } else {
        &&& r.mean_absolute_relative_error == Some(Fixed { picos: (t.total / t.count) as i128 })
        &&& r.worst_case_error == Some(Fixed { picos: t.worst as i128 })
        &&& r.worst_case_overestimate == Some(Fixed { picos: t.worst_over as i128 })
        &&& r.overall_bias == Some(Fixed { picos: trunc_div(t.signed_total, t.count) as i128 })
    }
}

/// The statistics of `r` hold together: the worst relative error bounds
/// the mean relative error and the size of the bias, and the worst
/// overestimate lies between zero and the worst error.
pub open spec fn statistics_consistent(r: Results) -> bool {
    r.total_tests > 0 ==> {
        &&& r.mean_absolute_relative_error is Some
        &&& r.worst_case_error is Some
        &&& r.worst_case_overestimate is Some
        &&& r.overall_bias is Some
        &&& r.mean_absolute_relative_error->Some_0.picos <= r.worst_case_error->Some_0.picos
        &&& 0 <= r.worst_case_overestimate->Some_0.picos <= r.worst_case_error->Some_0.picos
        &&& -r.worst_case_error->Some_0.picos <= r.overall_bias->Some_0.picos
            <= r.worst_case_error->Some_0.picos
    }
}

/// One trial: its values, and their exact geometric mean where it exists.
#[derive(Debug)]
pub struct TrialCase {
    pub values: Vec<Fixed>,
    pub exact: Option<Fixed>,
}

/// The `(estimate, exact)` pairs of the first `n` trials that method `E`
/// and the exact mean can both score.
pub open spec fn scored_pairs<E: EstimateGeometricMean>(cases: Seq<TrialCase>, n: int) -> Seq<
    (int, int),
>
    decreases n,
{
    if n <= 0 {
        Seq::empty()
    } else {
        let prev = scored_pairs::<E>(cases, n - 1);
        let c = cases[n - 1];
        let est = E::spec_estimate(c.values@);
        if c.exact is Some && est is Ok {
            prev.push((est->Ok_0.picos as int, c.exact->Some_0.picos as int))
        } else {
            prev
        }
    }
}

/// Over any trials, the worst relative error is at least the mean relative
/// error and at least the size of the mean signed error (the bias), and the
/// worst overestimate lies between zero and the worst error.
pub proof fn lemma_worst_case_bounds(pairs: Seq<(int, int)>)
    requires
        forall|i: int| 0 <= i < pairs.len() ==> #[trigger] pairs[i].1 > 0,
    ensures
        tally(pairs).count > 0 ==> tally(pairs).total / tally(pairs).count <= tally(pairs).worst,
        tally(pairs).count > 0 ==> abs(trunc_div(tally(pairs).signed_total, tally(pairs).count))
            <= tally(pairs).worst,
        0 <= tally(pairs).worst_over <= tally(pairs).worst,
{
    lemma_tally_invariants(pairs);
    let t = tally(pairs);
    if t.count > 0 {
        lemma_mean_bounds(t.total, t.signed_total, t.worst, t.count);
    }
}

/// The mean of `count` values of total `total` is at most their largest
/// `worst`, and a signed total no larger in size has a mean no larger in size.
proof fn lemma_mean_bounds(total: int, signed_total: int, worst: int, count: int)
    requires
        count > 0,
        0 <= total <= count * worst,
        abs(signed_total) <= total,
    ensures
        total / count <= worst,
        abs(trunc_div(signed_total, count)) <= total / count,
{
    assert(total / count <= worst) by (nonlinear_arith)
        requires
            0 <= total <= count * worst,
            count > 0,
    ;
    lemma_div_is_ordered(abs(signed_total), total, count);
    if signed_total >= 0 {
        assert(signed_total / count >= 0) by (nonlinear_arith)
            requires
                signed_total >= 0,
                count > 0,
        ;
    } else {
        assert((-signed_total) / count >= 0) by (nonlinear_arith)
            requires
                -signed_total >= 0,
                count > 0,
        ;
    }
}

/// A method that always returns the exact mean scores zero on every statistic.
pub proof fn lemma_exact_estimates_score_zero(pairs: Seq<(int, int)>)
    requires
        forall|i: int| 0 <= i < pairs.len() ==> #[trigger] pairs[i].0 == pairs[i].1,
        forall|i: int| 0 <= i < pairs.len() ==> #[trigger] pairs[i].1 > 0,
    ensures
        tally(pairs).total == 0,
        tally(pairs).worst == 0,
        tally(pairs).worst_over == 0,
        tally(pairs).signed_total == 0,
        tally(pairs).count == pairs.len(),
    decreases pairs.len(),
{
    if pairs.len() > 0 {
        let prefix = pairs.drop_last();
        assert forall|i: int| 0 <= i < prefix.len() implies #[trigger] prefix[i].0 == prefix[i].1
            && prefix[i].1 > 0 by {
            assert(prefix[i] == pairs[i]);
        }
        lemma_exact_estimates_score_zero(prefix);
        let p = pairs.last();
        assert(p == pairs[pairs.len() - 1]);
        assert(relative_error(p.0, p.1) == 0);
    }
}

/// What holds of the statistics of every sequence of trials.
proof fn lemma_tally_invariants(pairs: Seq<(int, int)>)
    requires
        forall|i: int| 0 <= i < pairs.len() ==> #[trigger] pairs[i].1 > 0,
    ensures
        tally(pairs).count == pairs.len(),
        0 <= tally(pairs).worst_over <= tally(pairs).worst,
        0 <= tally(pairs).total <= tally(pairs).count * tally(pairs).worst,
        abs(tally(pairs).signed_total) <= tally(pairs).total,
    decreases pairs.len(),
{
    if pairs.len() > 0 {
        let prefix = pairs.drop_last();
        assert forall|i: int| 0 <= i < prefix.len() implies #[trigger] prefix[i].1 > 0 by {
            assert(prefix[i] == pairs[i]);
        }
        lemma_tally_invariants(prefix);
        let t = tally(prefix);
        let p = pairs.last();
        assert(p == pairs[pairs.len() - 1]);
        let r = relative_error(p.0, p.1);
        assert(r >= 0) by (nonlinear_arith)
            requires
                r == abs(p.0 - p.1) * PICOS / p.1,
                abs(p.0 - p.1) >= 0,
                p.1 > 0,
        ;
        let w = if r > t.worst {
            r
        } else {
            t.worst
        };
        assert(t.total + r <= (t.count + 1) * w) by (nonlinear_arith)
            requires
                0 <= t.total <= t.count * t.worst,
                t.worst <= w,
                r <= w,
                t.count >= 0,
        ;
    }
}

/// `(n * m) / x` splits into the quotient of `n` and the rest.
proof fn lemma_div_split(n: int, m: int, x: int)
    requires
        n >= 0,
        m >= 0,
        x > 0,
    ensures
        (n * m) / x == (n / x) * m + ((n % x) * m) / x,
{
    lemma_fundamental_div_mod(n, x);
    assert(n * m == ((n % x) * m) + (n / x) * m * x) by (nonlinear_arith)
        requires
            n == x * (n / x) + n % x,
    ;
    lemma_hoist_over_denominator((n % x) * m, (n / x) * m, x as nat);
}

/// Relative error of one trial, in trillionths.
fn trial_relative_error(estimate: i128, exact: i128) -> (r: i128)
    requires
        0 < estimate <= MAX_VALUE_PICOS,
        PICOS <= exact <= MAX_VALUE_PICOS,
    ensures
        r == relative_error(estimate as int, exact as int),
        0 <= r <= MAX_RELATIVE_ERROR,
{
    let diff: u128 = if estimate >= exact {
        (estimate - exact) as u128
    } else {
        (exact - estimate) as u128
    };
    let x: u128 = exact as u128;
    // diff * 10^12 / x, as (diff / x) * 10^12 + ((diff % x) * 10^6 / x) * 10^6
    // + (((diff % x) * 10^6 % x) * 10^6) / x.
    let q: u128 = diff / x;
    let rest: u128 = diff % x;
    proof {
        lemma_fundamental_div_mod(diff as int, x as int);
        lemma_mod_pos_bound(diff as int, x as int);
        assert(q <= 100000000000000000000) by (nonlinear_arith)
            requires
                diff == x * q + rest,
                rest >= 0,
                diff < 100000000000000000000000000000000,
                x >= 1000000000000,
        ;
        lemma_mod_pos_bound((rest * 1000000) as int, x as int);
    }
    let a: u128 = (rest * 1000000) / x;
    let b: u128 = (rest * 1000000) % x;
    proof {
        lemma_fundamental_div_mod((rest * 1000000) as int, x as int);
        assert(a <= 1000000) by (nonlinear_arith)
            requires
                rest * 1000000 == x * a + b,
                b >= 0,
                rest < x,
        ;
        assert((b * 1000000) / (x as int) <= 1000000) by (nonlinear_arith)
            requires
                b < x,
                x > 0,
                b >= 0,
        ;
        lemma_div_split(diff as int, 1000000000000, x as int);
        lemma_div_split(rest * 1000000, 1000000, x as int);
        assert((rest as int * 1000000000000) == (rest * 1000000) * 1000000);
        let d = diff as int;
        assert(d * PICOS / (x as int) <= d) by (nonlinear_arith)
            requires
                d >= 0,
                x >= 1000000000000,
                PICOS == 1000000000000,
        ;
        assert(d * PICOS / (x as int) >= 0) by (nonlinear_arith)
            requires
                d >= 0,
                x > 0,
        ;
    }
    (q * 1000000000000 + a * 1000000 + (b * 1000000) / x) as i128
}

/// The `(estimate, exact)` pairs among the first `n` trials that have both.
pub open spec fn complete_pairs(trials: Seq<(Option<Fixed>, Option<Fixed>)>, n: int) -> Seq<
    (int, int),
>
    decreases n,
{
    if n <= 0 {
        Seq::empty()
    } else {
        let prev = complete_pairs(trials, n - 1);
        let t = trials[n - 1];
        if t.0 is Some && t.1 is Some {
            prev.push((t.0->Some_0.picos as int, t.1->Some_0.picos as int))
        } else {
            prev
        }
    }
}

/// A trial's estimate is positive, its exact mean at least one, and both
/// are below `10^20`.
pub open spec fn trial_in_range(t: (Option<Fixed>, Option<Fixed>)) -> bool {
    &&& (t.0 is Some ==> 0 < t.0->Some_0.picos <= MAX_VALUE_PICOS)
    &&& (t.1 is Some ==> PICOS <= t.1->Some_0.picos <= MAX_VALUE_PICOS)
}

/// Scores trials given as `(estimate, exact)`: a trial that lacks either is
/// left out; the others are scored in order.
pub fn score_trials(trials: &Vec<(Option<Fixed>, Option<Fixed>)>) -> (r: Results)
    requires
        trials@.len() <= MAX_TRIALS,
        forall|i: int| 0 <= i < trials@.len() ==> trial_in_range(#[trigger] trials@[i]),
    ensures
        reports(r, tally(complete_pairs(trials@, trials@.len() as int))),
        statistics_consistent(r),
{
    let mut total: i128 = 0;
    let mut worst: i128 = 0;
    let mut worst_over: i128 = 0;
    let mut signed_total: i128 = 0;
    let mut count: usize = 0;
    let mut i: usize = 0;
    while i < trials.len()
        invariant
            0 <= i <= trials@.len() <= MAX_TRIALS,
            forall|j: int| 0 <= j < trials@.len() ==> trial_in_range(#[trigger] trials@[j]),
            forall|j: int|
                0 <= j < complete_pairs(trials@, i as int).len() ==> #[trigger] complete_pairs(
                    trials@,
                    i as int,
                )[j].1 > 0,
            ({
                let t = tally(complete_pairs(trials@, i as int));
                &&& t.total == total
                &&& t.worst == worst
                &&& t.worst_over == worst_over
                &&& t.signed_total == signed_total
                &&& t.count == count
            }),
            count <= i,
            0 <= worst <= MAX_RELATIVE_ERROR,
            0 <= total <= count * MAX_RELATIVE_ERROR,
            -total <= signed_total <= total,
        decreases trials@.len() - i,
    {
        let ghost prev = complete_pairs(trials@, i as int);
        proof {
            lemma_tally_invariants(prev);
            assert(trial_in_range(trials@[i as int]));
        }
        if let (Some(estimate), Some(exact)) = trials[i] {
            let r = trial_relative_error(estimate.picos, exact.picos);
            let s = if estimate.picos >= exact.picos {
                r
            } else {
                -r
            };
            proof {
                let next = prev.push((estimate.picos as int, exact.picos as int));
                assert(next.drop_last() =~= prev);
                assert(total + r <= (count + 1) * MAX_RELATIVE_ERROR) by (nonlinear_arith)
                    requires
                        total <= count * MAX_RELATIVE_ERROR,
                        r <= MAX_RELATIVE_ERROR,
                ;
                assert((count + 1) * MAX_RELATIVE_ERROR <= MAX_TRIALS * MAX_RELATIVE_ERROR) by (
                nonlinear_arith)
                    requires
                        count + 1 <= MAX_TRIALS,
                ;
            }
            total = total + r;
            signed_total = signed_total + s;
            if r > worst {
                worst = r;
            }
            if s > 0 && s > worst_over {
                worst_over = s;
            }
            count = count + 1;
        }
        i = i + 1;
        proof {
            let next = complete_pairs(trials@, i as int);
            assert forall|j: int| 0 <= j < next.len() implies #[trigger] next[j].1 > 0 by {
                if j < prev.len() {
                    assert(next[j] == prev[j]);
                }
            }
        }
    }
    proof {
        lemma_tally_invariants(complete_pairs(trials@, trials@.len() as int));
        if count > 0 {
            lemma_mean_bounds(total as int, signed_total as int, worst as int, count as int);
        }
    }
    if count == 0 {
        return Results {
            mean_absolute_relative_error: None,
            worst_case_error: None,
            worst_case_overestimate: None,
            overall_bias: None,
            total_tests: 0,
        };
    }
    let n = count as i128;
    let bias = if signed_total >= 0 {
        signed_total / n
    } else {
        -((-signed_total) / n)
    };
    Results {
        mean_absolute_relative_error: Some(Fixed { picos: total / n }),
        worst_case_error: Some(Fixed { picos: worst }),
        worst_case_overestimate: Some(Fixed { picos: worst_over }),
        overall_bias: Some(Fixed { picos: bias }),
        total_tests: count,
    }
}

/// The `(estimate, exact)` trial that method `E` makes of `c`: no estimate
/// where the exact mean is missing or the method rejects the values.
pub open spec fn estimated_trial<E: EstimateGeometricMean>(c: TrialCase) -> (
    Option<Fixed>,
    Option<Fixed>,
) {
    let est = E::spec_estimate(c.values@);
    if c.exact is Some && est is Ok {
        (Some(est->Ok_0), c.exact)
    } else {
        (None, c.exact)
    }
}

proof fn lemma_estimated_pairs<E: EstimateGeometricMean>(
    cases: Seq<TrialCase>,
    trials: Seq<(Option<Fixed>, Option<Fixed>)>,
    n: int,
)
    requires
        0 <= n <= cases.len(),
        n <= trials.len(),
        forall|j: int| 0 <= j < n ==> #[trigger] trials[j] == estimated_trial::<E>(cases[j]),
    ensures
        complete_pairs(trials, n) == scored_pairs::<E>(cases, n),
    decreases n,
{
    if n > 0 {
        lemma_estimated_pairs::<E>(cases, trials, n - 1);
        assert(trials[n - 1] == estimated_trial::<E>(cases[n - 1]));
    }
}

/// Scores method `E` over `cases`: a trial without an exact mean, or one
/// that the method rejects, is left out; the others are scored in order.
pub fn evaluate_cases<E: EstimateGeometricMean>(cases: &Vec<TrialCase>) -> (r: Results)
    requires
        cases@.len() <= MAX_TRIALS,
        forall|i: int| 0 <= i < cases@.len() ==> within_limits(#[trigger] cases@[i].values@),
        forall|i: int|
            0 <= i < cases@.len() && (#[trigger] cases@[i]).exact is Some ==> PICOS
                <= cases@[i].exact->Some_0.picos <= MAX_VALUE_PICOS,
    ensures
        reports(r, tally(scored_pairs::<E>(cases@, cases@.len() as int))),
        statistics_consistent(r),
{
    let mut trials: Vec<(Option<Fixed>, Option<Fixed>)> = Vec::new();
    let mut i: usize = 0;
    while i < cases.len()
        invariant
            0 <= i <= cases@.len() <= MAX_TRIALS,
            trials@.len() == i,
            forall|j: int| 0 <= j < cases@.len() ==> within_limits(#[trigger] cases@[j].values@),
            forall|j: int|
                0 <= j < cases@.len() && (#[trigger] cases@[j]).exact is Some ==> PICOS
                    <= cases@[j].exact->Some_0.picos <= MAX_VALUE_PICOS,
            forall|j: int| 0 <= j < i ==> #[trigger] trials@[j] == estimated_trial::<E>(cases@[j]),
            forall|j: int| 0 <= j < i ==> trial_in_range(#[trigger] trials@[j]),
        decreases cases@.len() - i,
    {
        let case = &cases[i];
        let estimate = match case.exact {
            None => None,
            Some(_) => match E::estimate_geometric_mean(case.values.as_slice()) {
                Ok(e) => Some(e),
                Err(_) => None,
            },
        };
        trials.push((estimate, case.exact));
        i = i + 1;
    }
    proof {
        lemma_estimated_pairs::<E>(cases@, trials@, cases@.len() as int);
    }
    score_trials(&trials)
}

} // verus!
