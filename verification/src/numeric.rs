//! Fixed-point logarithm and exponential in millionths, for the
//! log-domain geometric means of the fitness formula.
//!
//! A value `x` in millionths stands for the real number `x / 10^6`.
//! The logarithm is computed by halving or doubling into `[1, 2)`
//! and summing an arctanh series; the exponential by splitting off
//! multiples of ln 2 and summing the power series of the remainder.
//! Both are exact integer algorithms, so they are their own
//! specification; the lemmas below pin the sign and range facts the
//! fitness contracts rest on.

use vstd::prelude::*;

verus! {

/// ln 2 in millionths, rounded to nearest.
pub open spec fn spec_ln2_micro() -> int {
    693147
}

/// Double a value below one until it reaches `[1, 2)`; the second
/// component counts the doublings, negatively.
pub open spec fn spec_norm_up(x: int) -> (int, int)
    decreases 2000000 - x,
{
    if x <= 0 || x >= 1000000 {
        (x, 0)
    } else {
        let r = spec_norm_up(2 * x);
        (r.0, r.1 - 1)
    }
}

/// Halve a value of two or more until it lands in `[1, 2)`; the
/// second component counts the halvings.
pub open spec fn spec_norm_down(x: int) -> (int, int)
    decreases x,
{
    if x < 2000000 {
        (x, 0)
    } else {
        let r = spec_norm_down(x / 2);
        (r.0, r.1 + 1)
    }
}

/// Normalize into `[1, 2)` with the power-of-two exponent.
pub open spec fn spec_ln_norm(x: int) -> (int, int) {
    if x < 1000000 {
        spec_norm_up(x)
    } else {
        spec_norm_down(x)
    }
}

/// The arctanh series for ln of a value in `[1, 2)`, in millionths.
pub open spec fn spec_ln_series(m: int) -> int {
    let t = (m - 1000000) * 1000000 / (m + 1000000);
    let t2 = t * t / 1000000;
    let t3 = t2 * t / 1000000;
    let t5 = t3 * t2 / 1000000;
    let t7 = t5 * t2 / 1000000;
    2 * (t + t3 / 3 + t5 / 5 + t7 / 7)
}

/// Natural logarithm of `x` millionths, in millionths.
pub open spec fn spec_ln_micro(x: int) -> int {
    let nk = spec_ln_norm(x);
    nk.1 * spec_ln2_micro() + spec_ln_series(nk.0)
}

/// Range of the normalization: the mantissa lands in `[1, 2)` and
/// the exponent is small.
pub proof fn lemma_norm_range(x: int)
    requires
        1 <= x <= 300000000,
    ensures
        1000000 <= spec_ln_norm(x).0 < 2000000,
        -20 <= spec_ln_norm(x).1 <= 9,
        x >= 1000000 ==> spec_ln_norm(x).1 >= 0,
        1000000 <= x < 2000000 ==> spec_ln_norm(x) == (x, 0int),
        x >= 2000000 ==> spec_ln_norm(x).1 >= 1,
{
    if x < 1000000 {
        lemma_norm_up_steps(x);
    } else {
        lemma_norm_down_range(x, 0);
    }
}

/// Small powers of two, by value.
proof fn lemma_pow2_values()
    ensures
        spec_pow2(1) == 2,
        spec_pow2(8) == 256,
        spec_pow2(21) == 2097152,
{
    assert(spec_pow2(0) == 1);
    assert(spec_pow2(1) == 2);
    assert(spec_pow2(2) == 4);
    assert(spec_pow2(3) == 8);
    assert(spec_pow2(4) == 16);
    assert(spec_pow2(5) == 32);
    assert(spec_pow2(6) == 64);
    assert(spec_pow2(7) == 128);
    assert(spec_pow2(8) == 256);
    assert(spec_pow2(9) == 512);
    assert(spec_pow2(10) == 1024);
    assert(spec_pow2(11) == 2048);
    assert(spec_pow2(12) == 4096);
    assert(spec_pow2(13) == 8192);
    assert(spec_pow2(14) == 16384);
    assert(spec_pow2(15) == 32768);
    assert(spec_pow2(16) == 65536);
    assert(spec_pow2(17) == 131072);
    assert(spec_pow2(18) == 262144);
    assert(spec_pow2(19) == 524288);
    assert(spec_pow2(20) == 1048576);
    assert(spec_pow2(21) == 2097152);
}

/// The number of doublings is bounded by the starting magnitude.
proof fn lemma_norm_up_steps(x: int)
    requires
        1 <= x < 1000000,
    ensures
        -20 <= spec_norm_up(x).1 <= -1,
        x * spec_pow2(-spec_norm_up(x).1) == spec_norm_up(x).0,
        1000000 <= spec_norm_up(x).0 < 2000000,
    decreases 2000000 - x,
{
    if 2 * x >= 1000000 {
        assert(spec_norm_up(2 * x) == (2 * x, 0int));
        assert(spec_norm_up(x) == (2 * x, -1));
        lemma_pow2_values();
    } else {
        lemma_norm_up_steps(2 * x);
        let k2 = spec_norm_up(2 * x).1;
        let m = spec_norm_up(2 * x).0;
        assert(spec_norm_up(x) == (m, k2 - 1));
        assert(spec_pow2(-(k2 - 1)) == 2 * spec_pow2(-k2));
        assert(x * spec_pow2(-(k2 - 1)) == (2 * x) * spec_pow2(-k2)) by (nonlinear_arith)
            requires
                spec_pow2(-(k2 - 1)) == 2 * spec_pow2(-k2),
        ;
        if k2 - 1 < -20 {
            assert(-(k2 - 1) >= 21);
            lemma_pow2_values();
            lemma_pow2_ge(21, -(k2 - 1));
            assert(x * spec_pow2(-(k2 - 1)) >= 2097152) by (nonlinear_arith)
                requires
                    x >= 1,
                    spec_pow2(-(k2 - 1)) >= 2097152,
            ;
            assert(false);
        }
    }
}

/// Powers of two.
pub open spec fn spec_pow2(k: int) -> int
    decreases k,
{
    if k <= 0 {
        1
    } else {
        2 * spec_pow2(k - 1)
    }
}

/// Powers of two grow with the exponent.
proof fn lemma_pow2_ge(a: int, b: int)
    requires
        0 <= a <= b,
    ensures
        spec_pow2(b) >= spec_pow2(a),
        spec_pow2(a) >= 1,
    decreases b,
{
    if b > a {
        lemma_pow2_ge(a, b - 1);
    } else if a > 0 {
        lemma_pow2_ge(a - 1, a - 1);
    }
}

/// Halving terminates in `[1, 2)` with a small positive exponent.
proof fn lemma_norm_down_range(x: int, depth: int)
    requires
        1000000 <= x <= 300000000,
    ensures
        1000000 <= spec_norm_down(x).0 < 2000000,
        0 <= spec_norm_down(x).1 <= 9,
        x >= 2000000 ==> spec_norm_down(x).1 >= 1,
        x < 2000000 ==> spec_norm_down(x) == (x, 0int),
    decreases x,
{
    if x >= 2000000 {
        lemma_norm_down_range(x / 2, depth + 1);
        assert(spec_norm_down(x).1 == spec_norm_down(x / 2).1 + 1);
        assert(spec_norm_down(x / 2).1 <= 8) by {
            lemma_pow2_values();
            lemma_norm_down_steps(x / 2, 8);
        };
    }
}

/// Few halvings are needed below a given bound.
proof fn lemma_norm_down_steps(x: int, cap: int)
    requires
        0 <= cap,
        1000000 <= x,
        x < 2000000 * spec_pow2(cap),
    ensures
        spec_norm_down(x).1 <= cap,
    decreases x,
{
    if x >= 2000000 {
        assert(cap >= 1) by {
            if cap == 0 {
                assert(spec_pow2(0) == 1);
            }
        };
        lemma_pow2_values();
        assert(x / 2 < 2000000 * spec_pow2(cap - 1)) by (nonlinear_arith)
            requires
                x < 2000000 * spec_pow2(cap),
                spec_pow2(cap) == 2 * spec_pow2(cap - 1),
                x >= 2000000,
        ;
        lemma_norm_down_steps(x / 2, cap - 1);
    }
}

/// The series argument stays within `[0, 333333]` and the series is
/// non-negative and small.
pub proof fn lemma_series_range(m: int)
    requires
        1000000 <= m < 2000000,
    ensures
        0 <= spec_ln_series(m) <= 2700000,
        m == 1000000 ==> spec_ln_series(m) == 0,
    {
    let t = (m - 1000000) * 1000000 / (m + 1000000);
    assert(0 <= t <= 333333) by (nonlinear_arith)
        requires
            1000000 <= m < 2000000,
            t == (m - 1000000) * 1000000 / (m + 1000000),
    ;
    let t2 = t * t / 1000000;
    let t3 = t2 * t / 1000000;
    let t5 = t3 * t2 / 1000000;
    let t7 = t5 * t2 / 1000000;
    assert(0 <= t2 <= t && 0 <= t3 <= t && 0 <= t5 <= t && 0 <= t7 <= t) by (nonlinear_arith)
        requires
            0 <= t <= 333333,
            t2 == t * t / 1000000,
            t3 == t2 * t / 1000000,
            t5 == t3 * t2 / 1000000,
            t7 == t5 * t2 / 1000000,
    ;
}

/// ln 1 is 0.
pub proof fn lemma_ln_one()
    ensures
        spec_ln_micro(1000000) == 0,
{
    assert(spec_ln_norm(1000000) == (1000000int, 0int));
    lemma_series_range(1000000);
}

/// ln is non-negative at and above 1.
pub proof fn lemma_ln_nonneg(x: int)
    requires
        1000000 <= x <= 300000000,
    ensures
        spec_ln_micro(x) >= 0,
{
    lemma_norm_range(x);
    lemma_series_range(spec_ln_norm(x).0);
}

/// ln is strictly positive from 1.05 up.
pub proof fn lemma_ln_pos(x: int)
    requires
        1050000 <= x <= 300000000,
    ensures
        spec_ln_micro(x) >= 1,
{
    lemma_norm_range(x);
    let m = spec_ln_norm(x).0;
    let k = spec_ln_norm(x).1;
    lemma_series_range(m);
    if x < 2000000 {
        assert(spec_ln_norm(x) == (x, 0int));
        let t = (m - 1000000) * 1000000 / (m + 1000000);
        assert(t >= 16000) by (nonlinear_arith)
            requires
                1050000 <= m < 2000000,
                t == (m - 1000000) * 1000000 / (m + 1000000),
        ;
        let t2 = t * t / 1000000;
        let t3 = t2 * t / 1000000;
        let t5 = t3 * t2 / 1000000;
        let t7 = t5 * t2 / 1000000;
        assert(t2 >= 0 && t3 >= 0 && t5 >= 0 && t7 >= 0) by (nonlinear_arith)
            requires
                t >= 0,
                t2 == t * t / 1000000,
                t3 == t2 * t / 1000000,
                t5 == t3 * t2 / 1000000,
                t7 == t5 * t2 / 1000000,
        ;
        assert(spec_ln_series(m) >= 2 * t);
    } else {
        assert(k >= 1);
    }
}

/// Overall output range of the logarithm.
pub proof fn lemma_ln_range(x: int)
    requires
        1 <= x <= 300000000,
    ensures
        -16600000 <= spec_ln_micro(x) <= 9000000,
{
    lemma_norm_range(x);
    lemma_series_range(spec_ln_norm(x).0);
}

/// Natural logarithm of `x` millionths, in millionths.
pub fn ln_micro(x: u64) -> (r: i64)
    requires
        1 <= x <= 300000000,
    ensures
        r == spec_ln_micro(x as int),
        -16600000 <= r <= 9000000,
{
    proof {
        lemma_norm_range(x as int);
        lemma_series_range(spec_ln_norm(x as int).0);
        lemma_ln_range(x as int);
    }
    let mut m: u64 = x;
    let mut k: i64 = 0;
    while m < 1000000
        invariant
            1 <= m <= 300000000,
            1 <= x <= 300000000,
            spec_ln_norm(x as int) == (spec_ln_norm(m as int).0, spec_ln_norm(m as int).1 + k),
            k == spec_ln_norm(x as int).1 - spec_ln_norm(m as int).1,
            -20 <= spec_ln_norm(x as int).1 <= 9,
        decreases 2000000 - m,
    {
        proof {
            lemma_norm_range(m as int);
            lemma_norm_range(2 * m as int);
            assert(spec_norm_up(m as int) == (
                spec_norm_up(2 * m as int).0,
                spec_norm_up(2 * m as int).1 - 1,
            ));
            if 2 * (m as int) >= 1000000 {
                assert(spec_ln_norm(2 * m as int) == spec_norm_down(2 * m as int));
                assert(spec_norm_down(2 * m as int) == (2 * m as int, 0int));
                assert(spec_norm_up(2 * m as int) == (2 * m as int, 0int));
            }
            assert(-20 <= spec_ln_norm(2 * m as int).1 <= 9);
        }
        m = m * 2;
        k = k - 1;
    }
    while m >= 2000000
        invariant
            1000000 <= m <= 300000000,
            1 <= x <= 300000000,
            spec_ln_norm(x as int) == (spec_ln_norm(m as int).0, spec_ln_norm(m as int).1 + k),
            k == spec_ln_norm(x as int).1 - spec_ln_norm(m as int).1,
            -20 <= spec_ln_norm(x as int).1 <= 9,
        decreases m,
    {
        proof {
            lemma_norm_range(m as int);
            lemma_norm_range(m as int / 2);
            assert(spec_norm_down(m as int) == (
                spec_norm_down(m as int / 2).0,
                spec_norm_down(m as int / 2).1 + 1,
            ));
        }
        m = m / 2;
        k = k + 1;
    }
    proof {
        lemma_norm_range(m as int);
        assert(spec_ln_norm(m as int) == (m as int, 0int));
        assert(spec_ln_norm(x as int) == (m as int, k as int));
        assert(-20 <= k <= 9);
        lemma_series_range(m as int);
    }
    let t: u64 = (m - 1000000) * 1000000 / (m + 1000000);
    proof {
        assert(0 <= t <= 333333) by (nonlinear_arith)
            requires
                1000000 <= m < 2000000,
                t == (m as int - 1000000) * 1000000 / (m as int + 1000000),
        ;
        assert(t * t <= 333333 * 333333) by (nonlinear_arith)
            requires
                0 <= t <= 333333,
        ;
    }
    let t2: u64 = t * t / 1000000;
    proof {
        assert(t2 <= 333333 && t2 * t <= 333333 * 333333) by (nonlinear_arith)
            requires
                0 <= t <= 333333,
                t2 == t * t / 1000000,
        ;
    }
    let t3: u64 = t2 * t / 1000000;
    proof {
        assert(t3 <= 333333 && t3 * t2 <= 333333 * 333333) by (nonlinear_arith)
            requires
                0 <= t <= 333333,
                0 <= t2 <= 333333,
                t3 == t2 * t / 1000000,
        ;
    }
    let t5: u64 = t3 * t2 / 1000000;
    proof {
        assert(t5 <= 333333 && t5 * t2 <= 333333 * 333333) by (nonlinear_arith)
            requires
                0 <= t2 <= 333333,
                0 <= t3 <= 333333,
                t5 == t3 * t2 / 1000000,
        ;
    }
    let t7: u64 = t5 * t2 / 1000000;
    proof {
        assert(t7 <= 333333) by (nonlinear_arith)
            requires
                0 <= t2 <= 333333,
                0 <= t5 <= 333333,
                t7 == t5 * t2 / 1000000,
        ;
    }
    let series: u64 = 2 * (t + t3 / 3 + t5 / 5 + t7 / 7);
    k * 693147 + series as i64
}

/// Divide by two `k` times.
pub open spec fn spec_shr(v: int, k: int) -> int
    decreases k,
{
    if k <= 0 {
        v
    } else {
        spec_shr(v / 2, k - 1)
    }
}

/// Halving keeps a non-negative value non-negative and never grows it.
proof fn lemma_shr_range(v: int, k: int)
    requires
        v >= 0,
        k >= 0,
    ensures
        0 <= spec_shr(v, k) <= v,
        k >= 1 ==> spec_shr(v, k) <= v / 2,
    decreases k,
{
    if k > 0 {
        lemma_shr_range(v / 2, k - 1);
    }
}

/// The exponential power series around zero, in millionths, for a
/// remainder below ln 2.
pub open spec fn spec_exp_poly(r: int) -> int {
    let r2 = r * r / 1000000;
    let r3 = r2 * r / 1000000;
    let r4 = r3 * r / 1000000;
    1000000 + r2 / 2 + r4 / 24 - r - r3 / 6
}

/// e to the minus `x` millionths, in millionths, floored at 1.
pub open spec fn spec_exp_neg(x: int) -> int {
    let k = x / spec_ln2_micro();
    let r = x % spec_ln2_micro();
    let p = spec_exp_poly(r);
    if k >= 20 {
        1
    } else {
        let v = spec_shr(p, k);
        if v <= 0 {
            1
        } else {
            v
        }
    }
}

/// The polynomial stays within `(0, 1]`, reaching 1 only at 0.
pub proof fn lemma_exp_poly_range(r: int)
    requires
        0 <= r < 693147,
    ensures
        1 <= spec_exp_poly(r) <= 1000000,
        r >= 1 ==> spec_exp_poly(r) < 1000000,
        r == 0 ==> spec_exp_poly(r) == 1000000,
{
    let r2 = r * r / 1000000;
    let r3 = r2 * r / 1000000;
    let r4 = r3 * r / 1000000;
    assert(0 <= r2 && r2 < 1000000 && (r >= 1 ==> r2 <= r - 1) && (r == 0 ==> r2 == 0)) by (
    nonlinear_arith)
        requires
            0 <= r < 693147,
            r2 == r * r / 1000000,
    ;
    assert(0 <= r3 && r3 <= r2 && 0 <= r4 && r4 <= r2) by (nonlinear_arith)
        requires
            0 <= r2 < 1000000,
            0 <= r < 693147,
            r3 == r2 * r / 1000000,
            r4 == r3 * r / 1000000,
    ;
}

/// e to the minus zero is one.
pub proof fn lemma_exp_zero()
    ensures
        spec_exp_neg(0) == 1000000,
{
    lemma_exp_poly_range(0);
    assert(spec_shr(spec_exp_poly(0), 0) == spec_exp_poly(0));
}

/// The exponential of a positive argument is strictly below one.
pub proof fn lemma_exp_lt_one(x: int)
    requires
        x >= 1,
    ensures
        1 <= spec_exp_neg(x) < 1000000,
{
    let k = x / spec_ln2_micro();
    let r = x % spec_ln2_micro();
    assert(0 <= r < 693147);
    assert(k >= 0) by (nonlinear_arith)
        requires
            x >= 1,
            k == x / 693147,
    ;
    lemma_exp_poly_range(r);
    if k < 20 {
        lemma_shr_range(spec_exp_poly(r), k);
        if k == 0 {
            assert(r == x % 693147);
            assert(r >= 1) by (nonlinear_arith)
                requires
                    x >= 1,
                    x / 693147 == 0,
                    r == x % 693147,
            ;
        }
    }
}

/// The exponential stays within `[1, 1]` times one.
pub proof fn lemma_exp_range(x: int)
    requires
        x >= 0,
    ensures
        1 <= spec_exp_neg(x) <= 1000000,
{
    if x == 0 {
        lemma_exp_zero();
    } else {
        lemma_exp_lt_one(x);
    }
}

/// e to the minus `x` millionths, in millionths, floored at 1.
pub fn exp_neg_micro(x: u64) -> (r: u64)
    requires
        x <= 100000000,
    ensures
        r == spec_exp_neg(x as int),
        1 <= r <= 1000000,
{
    proof {
        lemma_exp_range(x as int);
    }
    let k: u64 = x / 693147;
    let rem: u64 = x % 693147;
    proof {
        lemma_exp_poly_range(rem as int);
    }
    proof {
        assert(rem * rem <= 693146 * 693146) by (nonlinear_arith)
            requires
                0 <= rem <= 693146,
        ;
    }
    let r2: u64 = rem * rem / 1000000;
    proof {
        assert(r2 <= 693146 && r2 * rem <= 693146 * 693146) by (nonlinear_arith)
            requires
                0 <= rem <= 693146,
                r2 == rem * rem / 1000000,
        ;
    }
    let r3: u64 = r2 * rem / 1000000;
    proof {
        assert(r3 <= 693146 && r3 * rem <= 693146 * 693146) by (nonlinear_arith)
            requires
                0 <= rem <= 693146,
                0 <= r2 <= 693146,
                r3 == r2 * rem / 1000000,
        ;
    }
    let r4: u64 = r3 * rem / 1000000;
    proof {
        assert(r4 <= 693146) by (nonlinear_arith)
            requires
                0 <= rem <= 693146,
                0 <= r3 <= 693146,
                r4 == r3 * rem / 1000000,
        ;
        assert(r2 < 1000000 && r3 <= r2 && r4 <= r2) by (nonlinear_arith)
            requires
                0 <= rem < 693147,
                r2 == rem * rem / 1000000,
                r3 == r2 * rem / 1000000,
                r4 == r3 * rem / 1000000,
        ;
        assert(rem + r3 / 6 < 1000000 + r2 / 2 + r4 / 24) by (nonlinear_arith)
            requires
                0 <= rem < 693147,
                0 <= r3 < 1000000,
        ;
    }
    let mut p: u64 = (1000000 + r2 / 2 + r4 / 24) - (rem + r3 / 6);
    proof {
        assert(p == spec_exp_poly(rem as int));
    }
    if k >= 20 {
        return 1;
    }
    let mut i: u64 = 0;
    while i < k
        invariant
            i <= k < 20,
            p == spec_shr(spec_exp_poly(rem as int), i as int),
            0 <= p <= 1000000,
        decreases k - i,
    {
        proof {
            lemma_shr_succ(spec_exp_poly(rem as int), i as int);
        }
        p = p / 2;
        i = i + 1;
    }
    if p == 0 {
        1
    } else {
        p
    }
}

/// One more halving divides the result by two.
proof fn lemma_shr_succ(v: int, i: int)
    requires
        i >= 0,
    ensures
        spec_shr(v, i + 1) == spec_shr(v, i) / 2,
    decreases i,
{
    if i == 0 {
        assert(spec_shr(v, 1) == spec_shr(v / 2, 0));
    } else {
        lemma_shr_succ(v / 2, i - 1);
        assert(spec_shr(v, i + 1) == spec_shr(v / 2, i));
        assert(spec_shr(v, i) == spec_shr(v / 2, i - 1));
    }
}

} // verus!
