//! Powers of ten and decimal digit counts, in spec and in executable form.
use vstd::prelude::*;

verus! {

/// `10^n`.
pub open spec fn pow10(n: nat) -> nat
    decreases n,
{
    if n == 0 {
        1
    } else {
        10 * pow10((n - 1) as nat)
    }
}

/// Number of decimal digits of `x` (zero has one digit).
pub open spec fn num_digits(x: nat) -> nat
    decreases x,
{
    if x < 10 {
        1
    } else {
        1 + num_digits(x / 10)
    }
}

pub proof fn lemma_pow10_positive(n: nat)
    ensures
        pow10(n) >= 1,
    decreases n,
{
    if n > 0 {
        lemma_pow10_positive((n - 1) as nat);
    }
}

pub proof fn lemma_pow10_monotone(a: nat, b: nat)
    requires
        a <= b,
    ensures
        pow10(a) <= pow10(b),
    decreases b,
{
    if a < b {
        lemma_pow10_monotone(a, (b - 1) as nat);
        lemma_pow10_positive((b - 1) as nat);
    }
}

pub proof fn lemma_pow10_add(a: nat, b: nat)
    ensures
        pow10(a + b) == pow10(a) * pow10(b),
    decreases b,
{
    assert(pow10(0) == 1);
    if b > 0 {
        let b1 = (b - 1) as nat;
        lemma_pow10_add(a, b1);
        assert((a + b - 1) as nat == a + b1);
        let p = pow10(a);
        let q = pow10(b1);
        assert(pow10(a + b) == 10 * (p * q));
        assert(pow10(b) == 10 * q);
        assert(p * (10 * q) == 10 * (p * q)) by (nonlinear_arith);
        assert(pow10(a) * pow10(b) == p * (10 * q));
    } else {
        assert(a + b == a);
        assert(pow10(a) * 1 == pow10(a));
    }
}

/// A positive `x` has `m + 1` digits exactly when `10^m <= x < 10^(m+1)`.
pub proof fn lemma_num_digits_range(x: nat, m: nat)
    requires
        pow10(m) <= x < pow10(m + 1),
    ensures
        num_digits(x) == m + 1,
    decreases m,
{
    if m == 0 {
        assert(x < 10);
    } else {
        let m1 = (m - 1) as nat;
        assert(pow10(m) == 10 * pow10(m1));
        assert(pow10(m + 1) == 10 * pow10(m));
        assert(pow10(m1) <= x / 10 < pow10(m)) by {
            lemma_pow10_positive(m1);
        }
        lemma_num_digits_range(x / 10, m1);
        lemma_pow10_positive(m1);
        assert(x >= 10);
    }
}

/// Every `x` lies between `10^(d-1)` and `10^d`, `d` its digit count.
pub proof fn lemma_num_digits_bounds(x: nat)
    ensures
        num_digits(x) >= 1,
        x < pow10(num_digits(x)),
        x >= 1 ==> pow10((num_digits(x) - 1) as nat) <= x,
    decreases x,
{
    if x >= 10 {
        lemma_num_digits_bounds(x / 10);
        let d = num_digits(x / 10);
        assert(num_digits(x) == d + 1);
        assert(pow10(d + 1) == 10 * pow10(d));
        assert(pow10(d) == 10 * pow10((d - 1) as nat));
        assert(x < 10 * (x / 10) + 10);
        assert(10 * (x / 10) <= x);
    } else {
        assert(pow10(1) == 10 * pow10(0));
        assert(pow10(0) == 1);
    }
}

pub proof fn lemma_pow10_38()
    ensures
        pow10(38) == 100000000000000000000000000000000000000,
{
    reveal_with_fuel(pow10, 39);
}

/// `10^n` as an executable value.
pub fn pow10_u128(n: u32) -> (r: u128)
    requires
        n <= 38,
    ensures
        r == pow10(n as nat),
{
    let mut r: u128 = 1;
    let mut i: u32 = 0;
    while i < n
        invariant
            i <= n <= 38,
            r == pow10(i as nat),
        decreases n - i,
    {
        proof {
            lemma_pow10_monotone((i + 1) as nat, 38);
            assert(pow10((i + 1) as nat) == 10 * pow10(i as nat));
            lemma_pow10_38();
        }
        r = r * 10;
        i = i + 1;
    }
    r
}

/// Number of decimal digits of `x`.
pub fn digit_count(x: u128) -> (r: u32)
    ensures
        r as nat == num_digits(x as nat),
        1 <= r <= 39,
{
    proof {
        digit_count_at_most_39(x as nat);
    }
    let mut y: u128 = x;
    let mut count: u32 = 1;
    while y >= 10
        invariant
            count >= 1,
            num_digits(x as nat) == count - 1 + num_digits(y as nat),
            count - 1 + num_digits(y as nat) <= 39,
            y <= x,
        decreases y,
    {
        y = y / 10;
        count = count + 1;
    }
    count
}

proof fn digit_count_at_most_39(x: nat)
    requires
        x <= u128::MAX,
    ensures
        num_digits(x) <= 39,
{
    lemma_pow10_38();
    assert(pow10(39) == 10 * pow10(38));
    lemma_num_digits_bounds(x);
    if num_digits(x) > 39 {
        lemma_pow10_monotone(39, (num_digits(x) - 1) as nat);
    }
}

} // verus!
