//! Human-like "round number" guesses: the rounding rule and the guess generator.
use vstd::prelude::*;
use vstd::arithmetic::div_mod::{lemma_fundamental_div_mod, lemma_mod_pos_bound};
use crate::digits::{
    pow10,
    num_digits,
    lemma_pow10_positive,
    lemma_pow10_add,
    lemma_pow10_monotone,
    lemma_num_digits_bounds,
    lemma_num_digits_range,
    lemma_pow10_38,
    pow10_u128,
    digit_count,
};
use crate::fixed::{Fixed, PICOS};

verus! {

/// Why a guess distribution could not be built.
#[derive(Clone, Copy, Debug, PartialEq, Eq, Structural)]
pub enum TriviaGuessDistributionError {
    InvalidCorrectAnswer,
    InvalidLogStdDev,
    LogStdDevTooLarge,
}

/// Bit pattern of the double `50.0`, the largest spread accepted.
pub const MAX_LOG_STD_DEV_BITS: u64 = 0x4049000000000000;

/// A standard deviation in the natural-log domain, carried as the bit pattern
/// of an IEEE-754 double. The library only classifies it (finite, zero,
/// negative) and compares it with the largest accepted spread; the sampling
/// arithmetic that uses it as a number happens outside.
#[derive(Clone, Copy, Debug, PartialEq, Eq, Structural)]
pub struct LogStdDev {
    pub bits: u64,
}

impl LogStdDev {
    /// Neither infinite nor NaN: the exponent field is not all ones.
    pub open spec fn spec_is_finite(self) -> bool {
        (self.bits >> 52u64) & 0x7ffu64 != 0x7ffu64
    }

    /// Positive or negative zero.
    pub open spec fn spec_is_zero(self) -> bool {
        self.bits & 0x7fffffffffffffffu64 == 0
    }

    /// Strictly below zero (negative zero is not).
    pub open spec fn spec_is_negative(self) -> bool {
        self.bits >> 63u64 == 1 && !self.spec_is_zero()
    }

    /// Strictly above `50.0`, for a value that is not negative: the bit
    /// patterns of positive doubles are ordered as the numbers are.
    pub open spec fn spec_exceeds_limit(self) -> bool {
        self.bits >> 63u64 == 0 && self.bits > MAX_LOG_STD_DEV_BITS
    }

    pub fn from_bits(bits: u64) -> (r: LogStdDev)
        ensures
            r.bits == bits,
    {
        LogStdDev { bits }
    }

    pub fn is_finite(&self) -> (r: bool)
        ensures
            r == self.spec_is_finite(),
    {
        (self.bits >> 52u64) & 0x7ffu64 != 0x7ffu64
    }

    pub fn is_zero(&self) -> (r: bool)
        ensures
            r == self.spec_is_zero(),
    {
        self.bits & 0x7fffffffffffffffu64 == 0
    }

    pub fn is_negative(&self) -> (r: bool)
        ensures
            r == self.spec_is_negative(),
    {
        self.bits >> 63u64 == 1 && !self.is_zero()
    }

    pub fn exceeds_limit(&self) -> (r: bool)
        ensures
            r == self.spec_exceeds_limit(),
    {
        self.bits >> 63u64 == 0 && self.bits > MAX_LOG_STD_DEV_BITS
    }
}

/// Base and step of the grid of round numbers whose leading digit is `d`,
/// at magnitude `p = 10^m`: steps of 0.05 of `p` after a leading 1, of 0.1
/// after a leading 2 to 4, and of 0.5 after a leading 5 to 9.
pub open spec fn rounding_rule(d: int, p: int) -> (int, int) {
    if d == 1 {
        (p, p / 20)
    } else if d <= 4 {
        (d * p, p / 10)
    } else {
        (d * p, p / 2)
    }
}

/// The two neighbouring grid points around the whole number `w`.
pub open spec fn bracket(w: int, base: int, step: int) -> (int, int) {
    if step == 0 {
        (base, base)
    } else {
        let k = if w >= base {
            (w - base) / step
        } else {
            0
        };
        (base + k * step, base + (k + 1) * step)
    }
}

/// Of `low` and `high`, the one closer to `raw` (given in trillionths) in
/// log distance; on a tie `low`. For `low <= raw <= high`,
/// `ln(raw) - ln(low) <= ln(high) - ln(raw)` holds exactly when
/// `raw * raw <= low * high`.
pub open spec fn closer_in_log(raw: int, low: int, high: int) -> int {
    if low == 0 || high == 0 {
        if low > 0 {
            low
        } else {
            high
        }
    } else if raw * raw <= low * high * (PICOS * PICOS) {
        low
    } else {
        high
    }
}

/// The round number that a person would write for the value `raw`, given in
/// trillionths.
pub open spec fn trivia_round(raw: int) -> int {
    if raw <= PICOS {
        1
    } else {
        let w = raw / (PICOS as int);
        let m = (num_digits(w as nat) - 1) as nat;
        if m > 18 {
            u64::MAX as int
        } else {
            let p = pow10(m) as int;
            let rule = rounding_rule(w / p, p);
            let br = bracket(w, rule.0, rule.1);
            closer_in_log(raw, br.0, br.1)
        }
    }
}

proof fn lemma_div_bounds(x: int, d: int)
    requires
        x >= 0,
        d > 0,
    ensures
        d * (x / d) <= x < d * (x / d) + d,
        x / d >= 0,
{
    lemma_fundamental_div_mod(x, d);
    lemma_mod_pos_bound(x, d);
    assert(x / d >= 0) by (nonlinear_arith)
        requires
            x >= 0,
            d > 0,
            x == d * (x / d) + (x % d),
            x % d < d,
    ;
}

/// What the rule gives for a whole number `w >= 1` below `10^19`: its leading
/// digit, and a bracket that stays within the digit's range and below `10^19`.
proof fn lemma_rule_facts(w: int)
    requires
        1 <= w < pow10(19),
    ensures
        ({
            let m = (num_digits(w as nat) - 1) as nat;
            let p = pow10(m) as int;
            let d = w / p;
            let rule = rounding_rule(d, p);
            let br = bracket(w, rule.0, rule.1);
            &&& m <= 18
            &&& p >= 1
            &&& p <= w < 10 * p
            &&& 1 <= d <= 9
            &&& d * p <= w < (d + 1) * p
            &&& rule.0 <= w
            &&& rule.1 >= 0
            &&& (rule.1 > 0 ==> br.0 <= w < br.1 <= (d + 1) * p && br.1 == br.0 + rule.1)
            &&& (rule.1 == 0 ==> br.0 == rule.0 && br.1 == rule.0)
            &&& rule.0 <= br.0
            &&& (d + 1) * p <= pow10(19)
        }),
{
    let m = (num_digits(w as nat) - 1) as nat;
    lemma_num_digits_bounds(w as nat);
    if m > 18 {
        lemma_pow10_monotone(19, m);
    }
    let p = pow10(m) as int;
    lemma_pow10_positive(m);
    assert(pow10(m + 1) == 10 * pow10(m));
    assert(m + 1 == num_digits(w as nat));
    lemma_div_bounds(w, p);
    let d = w / p;
    assert(1 <= d <= 9) by (nonlinear_arith)
        requires
            p * d <= w < p * d + p,
            p <= w < 10 * p,
            p >= 1,
    ;
    assert(d * p <= w < (d + 1) * p) by (nonlinear_arith)
        requires
            p * d <= w < p * d + p,
    ;
    assert((d + 1) * p <= 10 * p) by (nonlinear_arith)
        requires
            d <= 9,
            p >= 1,
    ;
    assert(10 * p <= pow10(19)) by {
        lemma_pow10_monotone(m + 1, 19);
    }
    let rule = rounding_rule(d, p);
    let base = rule.0;
    let step = rule.1;
    // The number of steps from the base to the next leading digit.
    let c: int = if d == 1 {
        20
    } else if d <= 4 {
        10
    } else {
        2
    };
    assert(base + c * step == (d + 1) * p || step == 0) by {
        assert(d * p + p == (d + 1) * p) by (nonlinear_arith);
        if m >= 2 {
            lemma_pow10_add(2, (m - 2) as nat);
            assert(pow10(2) == 100) by {
                reveal_with_fuel(pow10, 3);
            }
            let q = pow10((m - 2) as nat) as int;
            assert(p == 100 * q);
            if d == 1 {
                assert(step == 5 * q);
                assert(c == 20);
                assert(c * step == 100 * q);
                assert((d + 1) * p == 2 * p);
            } else if d <= 4 {
                assert(step == 10 * q);
                assert(c == 10);
                assert(c * step == 100 * q);
                assert(base == d * p);
            } else {
                assert(step == 50 * q);
                assert(c == 2);
                assert(c * step == 100 * q);
                assert(base == d * p);
            }
            assert(base + c * step == (d + 1) * p);
        } else if m == 1 {
            assert(p == 10) by {
                reveal_with_fuel(pow10, 2);
            }
            if d == 1 {
                assert(step == 0);
            } else if d <= 4 {
                assert(step == 1);
                assert(c == 10);
                assert(base == d * p);
                assert(base + c * step == (d + 1) * p);
            } else {
                assert(step == 5);
                assert(c == 2);
                assert(base == d * p);
                assert(base + c * step == (d + 1) * p);
            }
        } else {
            assert(p == 1) by {
                reveal_with_fuel(pow10, 1);
            }
            assert(step == 0);
        }
    }
    assert(base <= w) by (nonlinear_arith)
        requires
            d * p <= w,
            d >= 1,
            p >= 1,
            base == p || base == d * p,
    ;
    if step > 0 {
        let k = (w - base) / step;
        lemma_div_bounds(w - base, step);
        assert(k * step <= w - base < k * step + step) by (nonlinear_arith)
            requires
                step * k <= w - base < step * k + step,
        ;
        assert(k + 1 <= c) by (nonlinear_arith)
            requires
                k * step <= w - base,
                w - base < (d + 1) * p - base,
                base + c * step == (d + 1) * p,
                step > 0,
                k >= 0,
        ;
        assert((k + 1) * step <= c * step) by (nonlinear_arith)
            requires
                k + 1 <= c,
                step > 0,
        ;
        assert((k + 1) * step == k * step + step) by (nonlinear_arith);
        assert(k * step >= 0) by (nonlinear_arith)
            requires
                k >= 0,
                step > 0,
        ;
    }
}

/// A whole number `o` on the grid of its own leading digit `d` at magnitude
/// `10^m` rounds to itself.
proof fn lemma_grid_point_is_fixed(o: int, m: nat, d: int, k: int)
    requires
        1 <= d <= 9,
        m <= 18,
        k >= 0,
        d * pow10(m) <= o < (d + 1) * pow10(m),
        ({
            let rule = rounding_rule(d, pow10(m) as int);
            &&& o == rule.0 + k * rule.1
            &&& (rule.1 == 0 ==> k == 0)
        }),
    ensures
        trivia_round(o * PICOS) == o,
{
    let p = pow10(m) as int;
    lemma_pow10_positive(m);
    assert(o >= 1) by (nonlinear_arith)
        requires
            d * p <= o,
            d >= 1,
            p >= 1,
    ;
    let raw = o * PICOS;
    assert(raw / (PICOS as int) == o);
    if o == 1 {
        assert(raw <= PICOS);
    } else {
        assert(raw > PICOS);
        assert(p <= o) by (nonlinear_arith)
            requires
                d * p <= o,
                d >= 1,
                p >= 1,
        ;
        assert(pow10(m + 1) == 10 * p);
        assert(o < 10 * p) by (nonlinear_arith)
            requires
                o < (d + 1) * p,
                d <= 9,
                p >= 1,
        ;
        lemma_num_digits_range(o as nat, m);
        lemma_div_bounds(o, p);
        assert(o / p == d) by (nonlinear_arith)
            requires
                p * (o / p) <= o < p * (o / p) + p,
                d * p <= o < (d + 1) * p,
                p >= 1,
        ;
        let rule = rounding_rule(d, p);
        let base = rule.0;
        let step = rule.1;
        let br = bracket(o, base, step);
        if step == 0 {
            assert(br.0 == o && br.1 == o);
        } else {
            assert(o - base == k * step);
            assert((k * step) / step == k) by (nonlinear_arith)
                requires
                    step > 0,
                    k >= 0,
            ;
            assert(br.0 == o);
            assert(br.1 == o + step) by (nonlinear_arith)
                requires
                    br.1 == base + (k + 1) * step,
                    o == base + k * step,
            ;
        }
        assert(raw * raw <= br.0 * br.1 * (PICOS * PICOS)) by (nonlinear_arith)
            requires
                raw == o * PICOS,
                br.0 == o,
                br.1 >= o,
                o >= 1,
        ;
    }
}

/// Rounding is idempotent: a round number rounds to itself. This holds for
/// every positive value except those that round to exactly `10^19`, the one
/// round number above the largest magnitude handled, which saturates to
/// `u64::MAX` when rounded again.
pub proof fn lemma_round_idempotent(raw: Fixed)
    requires
        raw.picos > 0,
        trivia_round(raw.picos as int) != pow10(19),
    ensures
        trivia_round(trivia_round(raw.picos as int) * PICOS) == trivia_round(raw.picos as int),
{
    let x = raw.picos as int;
    let o = trivia_round(x);
    assert(pow10(19) == 10000000000000000000u64) by {
        reveal_with_fuel(pow10, 20);
    }
    if x <= PICOS {
        assert(o == 1);
        assert(o * PICOS <= PICOS);
    } else {
        let w = x / (PICOS as int);
        let m = (num_digits(w as nat) - 1) as nat;
        if m > 18 {
            assert(o == u64::MAX);
            assert((o * PICOS) / (PICOS as int) == o);
            assert(pow10(20) == 10 * pow10(19));
            lemma_num_digits_range(u64::MAX as nat, 19);
        } else {
            lemma_num_digits_bounds(w as nat);
            lemma_pow10_monotone(m + 1, 19);
            assert(pow10(m + 1) == 10 * pow10(m));
            lemma_rule_facts(w);
            let p = pow10(m) as int;
            let d = w / p;
            let rule = rounding_rule(d, p);
            let base = rule.0;
            let step = rule.1;
            let br = bracket(w, base, step);
            assert(base == d * p) by {
                if d == 1 {
                    assert(1 * p == p);
                }
            }
            assert(base >= 1) by (nonlinear_arith)
                requires
                    base == d * p,
                    d >= 1,
                    p >= 1,
            ;
            assert(br.0 >= 1);
            if step == 0 {
                assert(o == base);
                lemma_grid_point_is_fixed(o, m, d, 0);
            } else {
                let k = (w - base) / step;
                lemma_div_bounds(w - base, step);
                assert(br.0 == base + k * step);
                assert(br.1 == base + (k + 1) * step);
                if o == br.0 {
                    assert(br.0 <= w);
                    lemma_grid_point_is_fixed(o, m, d, k);
                } else {
                    assert(o == br.1);
                    if br.1 < (d + 1) * p {
                        assert(br.0 >= d * p);
                        lemma_grid_point_is_fixed(o, m, d, k + 1);
                    } else if d < 9 {
                        assert(o == (d + 1) * p);
                        assert((d + 1) * p < (d + 2) * p) by (nonlinear_arith)
                            requires
                                p >= 1,
                        ;
                        lemma_grid_point_is_fixed(o, m, d + 1, 0);
                    } else {
                        assert(o == 10 * p);
                        assert(o == pow10(m + 1));
                        if m == 18 {
                            assert(false);
                        }
                        assert(pow10(m + 2) == 10 * pow10(m + 1));
                        assert(1 * pow10(m + 1) <= o < 2 * pow10(m + 1));
                        lemma_grid_point_is_fixed(o, m + 1, 1, 0);
                    }
                }
            }
        }
    }
}

/// The guess that a distribution around `correct_answer` with spread
/// `log_std_dev` gives for the log-normal `draw`.
pub open spec fn guess_for(correct_answer: u64, log_std_dev: LogStdDev, draw: Fixed) -> int {
    if log_std_dev.spec_is_zero() {
        trivia_round(correct_answer * PICOS)
    } else {
        trivia_round(draw.picos as int)
    }
}

/// With a zero spread, sampling is deterministic: any two draws give the
/// same guess, the rounded correct answer.
pub proof fn lemma_certain_sampling_is_deterministic(
    correct_answer: u64,
    log_std_dev: LogStdDev,
    first: Fixed,
    second: Fixed,
)
    requires
        log_std_dev.spec_is_zero(),
    ensures
        guess_for(correct_answer, log_std_dev, first) == guess_for(
            correct_answer,
            log_std_dev,
            second,
        ),
        guess_for(correct_answer, log_std_dev, first) == trivia_round(correct_answer * PICOS),
{
}

/// A log-normal spread around `correct_answer`, rounded to numbers a person
/// would actually write down.
#[derive(Clone, Copy, Debug, PartialEq, Eq, Structural)]
pub struct TriviaGuessDistribution {
    correct_answer: u64,
    log_std_dev: LogStdDev,
}

impl TriviaGuessDistribution {
    pub closed spec fn spec_correct_answer(self) -> u64 {
        self.correct_answer
    }

    pub closed spec fn spec_log_std_dev(self) -> LogStdDev {
        self.log_std_dev
    }

    /// Holds of every distribution that `new` builds.
    pub open spec fn wf(self) -> bool {
        &&& self.spec_correct_answer() > 0
        &&& self.spec_log_std_dev().spec_is_finite()
        &&& !self.spec_log_std_dev().spec_is_negative()
        &&& !self.spec_log_std_dev().spec_exceeds_limit()
    }

    /// A distribution around `correct_answer` with spread `log_std_dev`.
    /// Rejects a zero answer, then a spread that is not finite or is
    /// negative, then a spread above `50.0`.
    pub fn new(correct_answer: u64, log_std_dev: LogStdDev) -> (r: Result<
        TriviaGuessDistribution,
        TriviaGuessDistributionError,
    >)
        ensures
            correct_answer == 0 ==> r == Err::<
                TriviaGuessDistribution,
                TriviaGuessDistributionError,
            >(TriviaGuessDistributionError::InvalidCorrectAnswer),
            correct_answer != 0 && (!log_std_dev.spec_is_finite()
                || log_std_dev.spec_is_negative()) ==> r == Err::<
                TriviaGuessDistribution,
                TriviaGuessDistributionError,
            >(TriviaGuessDistributionError::InvalidLogStdDev),
            correct_answer != 0 && log_std_dev.spec_is_finite() && !log_std_dev.spec_is_negative()
                && log_std_dev.spec_exceeds_limit() ==> r == Err::<
                TriviaGuessDistribution,
                TriviaGuessDistributionError,
            >(TriviaGuessDistributionError::LogStdDevTooLarge),
            r is Ok <==> (correct_answer != 0 && log_std_dev.spec_is_finite()
                && !log_std_dev.spec_is_negative() && !log_std_dev.spec_exceeds_limit()),
            r is Ok ==> r->Ok_0.wf() && r->Ok_0.spec_correct_answer() == correct_answer
                && r->Ok_0.spec_log_std_dev() == log_std_dev,
    {
        if correct_answer == 0 {
            return Err(TriviaGuessDistributionError::InvalidCorrectAnswer);
        }
        if !log_std_dev.is_finite() || log_std_dev.is_negative() {
            return Err(TriviaGuessDistributionError::InvalidLogStdDev);
        }
        if log_std_dev.exceeds_limit() {
            return Err(TriviaGuessDistributionError::LogStdDevTooLarge);
        }
        Ok(TriviaGuessDistribution { correct_answer, log_std_dev })
    }

    pub fn correct_answer(&self) -> (r: u64)
        ensures
            r == self.spec_correct_answer(),
    {
        self.correct_answer
    }

    pub fn log_std_dev(&self) -> (r: LogStdDev)
        ensures
            r == self.spec_log_std_dev(),
    {
        self.log_std_dev
    }

    /// A spread of zero: every sample is the rounded correct answer, and no
    /// random draw is needed.
    pub fn is_certain(&self) -> (r: bool)
        ensures
            r == self.spec_log_std_dev().spec_is_zero(),
    {
        self.log_std_dev.is_zero()
    }

    /// Rounds `raw` to the nearest round number in log distance.
    pub fn round_to_trivia_value(&self, raw: Fixed) -> (r: u64)
        ensures
            r == trivia_round(raw.picos as int),
    {
        round_to_trivia(raw)
    }

    /// One guess, from `draw`, the log-normal value `exp(ln(answer) + spread * z)`
    /// for a standard normal `z`. With a zero spread the draw is not used.
    pub fn sample(&self, draw: Fixed) -> (r: u64)
        ensures
            r == guess_for(self.spec_correct_answer(), self.spec_log_std_dev(), draw),
            self.spec_log_std_dev().spec_is_zero() ==> r == trivia_round(
                self.spec_correct_answer() * PICOS,
            ),
            !self.spec_log_std_dev().spec_is_zero() ==> r == trivia_round(draw.picos as int),
    {
        if self.log_std_dev.is_zero() {
            round_to_trivia(Fixed::from_whole(self.correct_answer))
        } else {
            round_to_trivia(draw)
        }
    }
}

/// The rounding rule of `trivia_round`, computed with integers only.
fn round_to_trivia(raw: Fixed) -> (r: u64)
    ensures
        r == trivia_round(raw.picos as int),
{
    if raw.picos <= PICOS {
        return 1;
    }
    let w: u128 = (raw.picos / PICOS) as u128;
    let magnitude: u32 = digit_count(w) - 1;
    if magnitude > 18 {
        return u64::MAX;
    }
    proof {
        lemma_num_digits_bounds(w as nat);
        lemma_pow10_monotone(num_digits(w as nat), 19);
        lemma_rule_facts(w as int);
        lemma_pow10_monotone(magnitude as nat, 38);
        lemma_pow10_38();
        assert(pow10(19) == 10000000000000000000u64) by {
            reveal_with_fuel(pow10, 20);
        }
    }
    let whole: u64 = w as u64;
    let power: u64 = pow10_u128(magnitude) as u64;
    let first_digit: u64 = whole / power;
    let (base, step) = if first_digit == 1 {
        (power, power / 20)
    } else if first_digit <= 4 {
        (first_digit * power, power / 10)
    } else {
        (first_digit * power, power / 2)
    };
    let (low, high) = find_bracketing_candidates(whole, base, step);
    choose_closest_in_log_space(raw, low, high)
}

/// The grid points `base + k * step` and `base + (k + 1) * step` around `target`.
fn find_bracketing_candidates(target: u64, base: u64, step: u64) -> (r: (u64, u64))
    requires
        base <= target,
        step > 0 ==> bracket(target as int, base as int, step as int).1 <= u64::MAX,
    ensures
        r.0 == bracket(target as int, base as int, step as int).0,
        r.1 == bracket(target as int, base as int, step as int).1,
{
    if step == 0 {
        return (base, base);
    }
    let k: u64 = (target - base) / step;
    proof {
        lemma_div_bounds((target - base) as int, step as int);
        assert(k * step <= target - base) by (nonlinear_arith)
            requires
                step * k <= target - base,
        ;
        assert((k + 1) * step == k * step + step) by (nonlinear_arith);
    }
    let low = base + k * step;
    let high = low + step;
    (low, high)
}

/// `a * s + r <= b * s` for a remainder `r` below `s` decides as `a` and `b` do.
proof fn lemma_compare_with_remainder(a: int, b: int, r: int, s: int)
    requires
        s > 0,
        0 <= r < s,
    ensures
        (a * s + r <= b * s) == (a < b || (a == b && r == 0)),
{
    if a < b {
        assert(a * s + r < b * s) by (nonlinear_arith)
            requires
                a < b,
                0 <= r < s,
        ;
    } else if a > b {
        assert(a * s + r > b * s) by (nonlinear_arith)
            requires
                a > b,
                0 <= r,
                s > 0,
        ;
    }
}

/// `closer_in_log(raw, low, high)`, for a whole part of `raw` and candidates
/// no larger than `10^19`. The square of `raw` is compared through its whole
/// part `w` and fraction `f`, so that no product leaves 128 bits.
fn choose_closest_in_log_space(raw: Fixed, candidate_low: u64, candidate_high: u64) -> (r: u64)
    requires
        raw.picos >= 0,
        raw.picos / PICOS <= 10000000000000000000u64,
        candidate_low <= 10000000000000000000u64,
        candidate_high <= 10000000000000000000u64,
    ensures
        r == closer_in_log(raw.picos as int, candidate_low as int, candidate_high as int),
{
    if candidate_low == 0 || candidate_high == 0 {
        return if candidate_low > 0 {
            candidate_low
        } else {
            candidate_high
        };
    }
    let w: u128 = (raw.picos / PICOS) as u128;
    let f: u128 = (raw.picos % PICOS) as u128;
    proof {
        assert(candidate_low as int * candidate_high as int <= 100000000000000000000000000000000000000)
            by (nonlinear_arith)
            requires
                candidate_low <= 10000000000000000000u64,
                candidate_high <= 10000000000000000000u64,
        ;
        assert(w * w <= 100000000000000000000000000000000000000) by (nonlinear_arith)
            requires
                w <= 10000000000000000000u64,
        ;
    }
    let limit: u128 = candidate_low as u128 * candidate_high as u128;
    let ww: u128 = w * w;
    let ghost x = raw.picos as int;
    let ghost lim = limit as int;
    let ghost s = PICOS as int;
    proof {
        assert(x == w * s + f);
        assert(x * x == w * w * (s * s) + 2 * w * f * s + f * f) by (nonlinear_arith)
            requires
                x == w * s + f,
        ;
    }
    if ww > limit {
        proof {
            assert(x * x > lim * (s * s)) by (nonlinear_arith)
                requires
                    x * x == w * w * (s * s) + 2 * w * f * s + f * f,
                    ww == w * w,
                    ww > lim,
                    w >= 0,
                    f >= 0,
                    s == 1000000000000,
            ;
        }
        return candidate_high;
    }
    let gap: u128 = limit - ww;
    if gap > 2 * w {
        proof {
            assert(x * x <= lim * (s * s)) by (nonlinear_arith)
                requires
                    x * x == w * w * (s * s) + 2 * w * f * s + f * f,
                    ww == w * w,
                    gap == lim - ww,
                    gap >= 2 * w + 1,
                    w >= 0,
                    0 <= f < s,
                    s == 1000000000000,
            ;
        }
        return candidate_low;
    }
    // Now x * x <= lim * s * s reads 2 * w * f * s + f * f <= gap * s * s;
    // dividing by `s` leaves the quotient and remainder of `f * f`.
    proof {
        assert(f * f < 1000000000000000000000000) by (nonlinear_arith)
            requires
                f < 1000000000000,
        ;
        assert(2 * w * f <= 20000000000000000000000000000000) by (nonlinear_arith)
            requires
                w <= 10000000000000000000u64,
                f < 1000000000000,
        ;
        assert(gap * 1000000000000 <= 20000000000000000000000000000000) by (nonlinear_arith)
            requires
                gap <= 2 * w,
                w <= 10000000000000000000u64,
        ;
    }
    let square: u128 = f * f;
    let q: u128 = square / 1000000000000;
    let rem: u128 = square % 1000000000000;
    let lhs: u128 = 2 * w * f + q;
    let rhs: u128 = gap * 1000000000000;
    proof {
        assert(square == q * s + rem);
        assert(x * x - lim * (s * s) == (2 * w * f + q) * s + rem - gap * s * s) by (nonlinear_arith)
            requires
                x * x == w * w * (s * s) + 2 * w * f * s + f * f,
                ww == w * w,
                gap == lim - ww,
                square == f * f,
                square == q * s + rem,
        ;
        assert(gap * s * s == rhs * s) by (nonlinear_arith)
            requires
                rhs == gap * 1000000000000,
                s == 1000000000000,
        ;
        lemma_compare_with_remainder(lhs as int, rhs as int, rem as int, s);
    }
    if lhs < rhs || (lhs == rhs && rem == 0) {
        candidate_low
    } else {
        candidate_high
    }
}

} // verus!
