//! Fixed-point numeric kernels: integer square and fifth roots, and
//! exponential / logarithm approximations over scaled integers. Arguments
//! to `exp` are scaled by 1e6; its results, and the argument reductions of
//! `ln`, by 1e9.

use vstd::prelude::*;
use crate::util::{div_nn_i128, lemma_avg_bound};

verus! {

/// `r` is the integer square root of `x`.
pub open spec fn is_sqrt(x: int, r: int) -> bool {
    r >= 0 && r * r <= x && x < (r + 1) * (r + 1)
}

/// The integer square root.
pub open spec fn spec_isqrt(x: int) -> int {
    choose|r: int| is_sqrt(x, r)
}

pub proof fn lemma_sqrt_unique(x: int, a: int, b: int)
    requires
        is_sqrt(x, a),
        is_sqrt(x, b),
    ensures
        a == b,
{
    if a < b {
        assert((a + 1) * (a + 1) <= b * b) by (nonlinear_arith)
            requires
                0 <= a,
                a + 1 <= b,
        ;
    }
    if b < a {
        assert((b + 1) * (b + 1) <= a * a) by (nonlinear_arith)
            requires
                0 <= b,
                b + 1 <= a,
        ;
    }
}

/// Integer square root by bisection.
pub fn isqrt(x: u128) -> (r: i64)
    requires
        x <= 400_000_000_000_000_000_000,
    ensures
        is_sqrt(x as int, r as int),
        r as int == spec_isqrt(x as int),
        0 <= r <= 20_000_000_000,
{
    let mut lo: u128 = 0;
    let mut hi: u128 = 20_000_000_001;
    assert(hi * hi > x) by (nonlinear_arith)
        requires
            x <= 400_000_000_000_000_000_000,
            hi == 20_000_000_001u128,
    ;
    while lo + 1 < hi
        invariant
            lo < hi <= 20_000_000_001,
            lo * lo <= x,
            x < hi * hi,
        decreases hi - lo,
    {
        let mid = lo + (hi - lo) / 2;
        assert(lo < mid < hi);
        assert(mid * mid <= 20_000_000_001u128 * 20_000_000_001u128) by (nonlinear_arith)
            requires
                mid <= 20_000_000_001u128,
        ;
        if mid * mid <= x {
            lo = mid;
        } else {
            hi = mid;
        }
    }
    proof {
        assert(is_sqrt(x as int, lo as int));
        lemma_sqrt_unique(x as int, lo as int, spec_isqrt(x as int));
    }
    lo as i64
}

/// Fifth power.
pub open spec fn pow5(r: int) -> int {
    r * r * r * r * r
}

/// `r` is the integer fifth root of `x`.
pub open spec fn is_root5(x: int, r: int) -> bool {
    r >= 0 && pow5(r) <= x && x < pow5(r + 1)
}

/// The integer fifth root.
pub open spec fn spec_iroot5(x: int) -> int {
    choose|r: int| is_root5(x, r)
}

pub proof fn lemma_pow5_increases(a: int, b: int)
    requires
        0 <= a <= b,
    ensures
        pow5(a) <= pow5(b),
{
    assert(a * a * a * a * a <= b * b * b * b * b) by (nonlinear_arith)
        requires
            0 <= a <= b,
    ;
}

pub proof fn lemma_root5_unique(x: int, a: int, b: int)
    requires
        is_root5(x, a),
        is_root5(x, b),
    ensures
        a == b,
{
    if a < b {
        lemma_pow5_increases(a + 1, b);
    }
    if b < a {
        lemma_pow5_increases(b + 1, a);
    }
}

/// Integer fifth root by bisection.
pub fn iroot5(x: u128) -> (r: i64)
    requires
        x <= 1_000_000_000_000_000_000_000_000,
    ensures
        is_root5(x as int, r as int),
        r as int == spec_iroot5(x as int),
        0 <= r <= 65_535,
{
    let mut lo: u128 = 0;
    let mut hi: u128 = 65_536;
    assert(hi * hi * hi * hi * hi > x) by (nonlinear_arith)
        requires
            x <= 1_000_000_000_000_000_000_000_000,
            hi == 65_536u128,
    ;
    while lo + 1 < hi
        invariant
            lo < hi <= 65_536,
            pow5(lo as int) <= x,
            x < pow5(hi as int),
        decreases hi - lo,
    {
        let mid = lo + (hi - lo) / 2;
        assert(lo < mid < hi);
        assert(mid * mid <= 65_536u128 * 65_536u128) by (nonlinear_arith)
            requires
                mid <= 65_536u128,
        ;
        let m2 = mid * mid;
        assert(m2 * m2 <= 4_294_967_296u128 * 4_294_967_296u128) by (nonlinear_arith)
            requires
                m2 <= 4_294_967_296u128,
        ;
        let m4 = m2 * m2;
        assert(m4 * mid <= 18_446_744_073_709_551_616u128 * 65_536u128) by (nonlinear_arith)
            requires
                m4 <= 18_446_744_073_709_551_616u128,
                mid <= 65_536u128,
        ;
        let m5 = m4 * mid;
        assert(m5 as int == pow5(mid as int)) by (nonlinear_arith)
            requires
                m2 == mid * mid,
                m4 == m2 * m2,
                m5 == m4 * mid,
        ;
        if m5 <= x {
            lo = mid;
        } else {
            hi = mid;
        }
    }
    proof {
        assert(is_root5(x as int, lo as int));
        lemma_root5_unique(x as int, lo as int, spec_iroot5(x as int));
    }
    lo as i64
}

/// Taylor term `j` of `e^f` for a fractional argument `f` scaled by 1e6;
/// terms are scaled by 1e9.
pub open spec fn spec_exp_term(f: int, j: int) -> int
    decreases j,
{
    if j <= 0 {
        1_000_000_000
    } else {
        spec_exp_term(f, j - 1) * f / (1_000_000 * j)
    }
}

/// Partial Taylor sum of `e^f`, terms `0..=j`.
pub open spec fn spec_exp_frac_sum(f: int, j: int) -> int
    decreases j,
{
    if j <= 0 {
        1_000_000_000
    } else {
        spec_exp_frac_sum(f, j - 1) + spec_exp_term(f, j)
    }
}

/// `e^f` for `f` in `[0, 1]` (scaled 1e6), scaled by 1e9: the Taylor sum
/// with thirteen terms.
pub open spec fn spec_exp_frac(f: int) -> int {
    spec_exp_frac_sum(f, 12)
}

proof fn lemma_exp_term_bounds(f: int, j: int)
    requires
        0 <= f <= 1_000_000,
        0 <= j,
    ensures
        0 <= spec_exp_term(f, j) <= 1_000_000_000,
    decreases j,
{
    if j > 0 {
        lemma_exp_term_bounds(f, j - 1);
        let prev = spec_exp_term(f, j - 1);
        assert(0 <= prev * f <= prev * (1_000_000 * j)) by (nonlinear_arith)
            requires
                0 <= prev,
                0 <= f <= 1_000_000,
                j >= 1,
        ;
        lemma_avg_bound(prev * f, 1_000_000 * j, prev);
    }
}

proof fn lemma_exp_frac_sum_bounds(f: int, j: int)
    requires
        0 <= f <= 1_000_000,
        0 <= j,
    ensures
        1_000_000_000 <= spec_exp_frac_sum(f, j) <= (j + 1) * 1_000_000_000,
    decreases j,
{
    lemma_exp_term_bounds(f, j);
    if j > 0 {
        lemma_exp_frac_sum_bounds(f, j - 1);
        assert(j * 1_000_000_000 + 1_000_000_000 == (j + 1) * 1_000_000_000)
            by (nonlinear_arith);
    }
}

/// `e^f` stays within `[1, 13]` times the output scale.
pub proof fn lemma_exp_frac_bounds(f: int)
    requires
        0 <= f <= 1_000_000,
    ensures
        1_000_000_000 <= spec_exp_frac(f) <= 13_000_000_000,
{
    lemma_exp_frac_sum_bounds(f, 12);
}

/// Compute the Taylor sum of `e^f`, `f` in `[0, 1]` scaled 1e6.
fn exp_frac(f: i64) -> (r: i64)
    requires
        0 <= f <= 1_000_000,
    ensures
        r as int == spec_exp_frac(f as int),
        1_000_000_000 <= r <= 13_000_000_000,
{
    let mut term: i128 = 1_000_000_000;
    let mut sum: i128 = 1_000_000_000;
    let mut j: i64 = 1;
    while j <= 12
        invariant
            0 <= f <= 1_000_000,
            1 <= j <= 13,
            term == spec_exp_term(f as int, j as int - 1),
            sum == spec_exp_frac_sum(f as int, j as int - 1),
            0 <= term <= 1_000_000_000,
            1_000_000_000 <= sum <= (j as int) * 1_000_000_000,
        decreases 13 - j,
    {
        proof {
            lemma_exp_term_bounds(f as int, j as int);
            lemma_exp_frac_sum_bounds(f as int, j as int);
            assert(0 <= (term as int) * (f as int) <= 1_000_000_000_000_000int)
                by (nonlinear_arith)
                requires
                    0 <= term as int <= 1_000_000_000,
                    0 <= f as int <= 1_000_000,
            ;
        }
        term = div_nn_i128(term * (f as i128), 1_000_000 * (j as i128));
        sum = sum + term;
        j = j + 1;
    }
    proof { lemma_exp_frac_bounds(f as int); }
    sum as i64
}

/// `e^-k` for whole `k`, scaled by 1e9: repeated multiplication by
/// `1e9 / e`.
pub open spec fn spec_inv_e_pow(k: int) -> int
    decreases k,
{
    if k <= 0 {
        1_000_000_000
    } else {
        spec_inv_e_pow(k - 1) * 367_879_441 / 1_000_000_000
    }
}

proof fn lemma_inv_e_pow_bounds(k: int)
    requires
        0 <= k,
    ensures
        0 <= spec_inv_e_pow(k) <= 1_000_000_000,
    decreases k,
{
    if k > 0 {
        lemma_inv_e_pow_bounds(k - 1);
        let prev = spec_inv_e_pow(k - 1);
        assert(0 <= prev * 367_879_441 <= prev * 1_000_000_000) by (nonlinear_arith)
            requires
                0 <= prev,
        ;
        lemma_avg_bound(prev * 367_879_441, 1_000_000_000, prev);
    }
}

/// `e^-a` for `a >= 0` scaled by 1e6, result scaled by 1e9; zero beyond
/// an argument of thirty, where the true value rounds to zero anyway.
pub open spec fn spec_exp_neg(a: int) -> int {
    if a >= 30_000_000 {
        0
    } else {
        let k = a / 1_000_000;
        let f = a % 1_000_000;
        let ek = spec_inv_e_pow(k);
        let ef = 1_000_000_000_000_000_000int / spec_exp_frac(f);
        ek * ef / 1_000_000_000
    }
}

pub proof fn lemma_exp_neg_bounds(a: int)
    requires
        0 <= a,
    ensures
        0 <= spec_exp_neg(a) <= 1_000_000_000,
{
    if a < 30_000_000 {
        let k = a / 1_000_000;
        let f = a % 1_000_000;
        lemma_inv_e_pow_bounds(k);
        lemma_exp_frac_bounds(f);
        let ef = 1_000_000_000_000_000_000int / spec_exp_frac(f);
        lemma_avg_bound(1_000_000_000_000_000_000, spec_exp_frac(f), 1_000_000_000);
        assert(0 <= spec_inv_e_pow(k) * ef <= 1_000_000_000 * spec_inv_e_pow(k))
            by (nonlinear_arith)
            requires
                0 <= ef <= 1_000_000_000,
                0 <= spec_inv_e_pow(k),
        ;
        lemma_avg_bound(spec_inv_e_pow(k) * ef, 1_000_000_000, spec_inv_e_pow(k));
    }
}

/// Compute `e^-a`, `a >= 0` scaled 1e6, result scaled 1e9.
pub fn exp_neg(a: i128) -> (r: i64)
    requires
        a >= 0,
    ensures
        r as int == spec_exp_neg(a as int),
        0 <= r <= 1_000_000_000,
{
    proof { lemma_exp_neg_bounds(a as int); }
    if a >= 30_000_000 {
        return 0;
    }
    let k: i64 = div_nn_i128(a, 1_000_000) as i64;
    let f: i64 = (a - (k as i128) * 1_000_000) as i64;
    proof {
        vstd::arithmetic::div_mod::lemma_fundamental_div_mod(a as int, 1_000_000);
        assert(f as int == (a as int) % 1_000_000);
    }
    let mut ek: i128 = 1_000_000_000;
    let mut i: i64 = 0;
    while i < k
        invariant
            0 <= i <= k < 30,
            ek == spec_inv_e_pow(i as int),
            0 <= ek <= 1_000_000_000,
        decreases k - i,
    {
        proof { lemma_inv_e_pow_bounds(i as int + 1); }
        ek = div_nn_i128(ek * 367_879_441, 1_000_000_000);
        i = i + 1;
    }
    let ef_den = exp_frac(f);
    let ef: i128 = div_nn_i128(1_000_000_000_000_000_000, ef_den as i128);
    proof {
        lemma_avg_bound(1_000_000_000_000_000_000, ef_den as int, 1_000_000_000);
        assert(0 <= ek * ef <= 1_000_000_000 * ek) by (nonlinear_arith)
            requires
                0 <= ef <= 1_000_000_000,
                0 <= ek,
        ;
        lemma_avg_bound((ek as int) * (ef as int), 1_000_000_000, ek as int);
    }
    div_nn_i128(ek * ef, 1_000_000_000) as i64
}

/// `e^k` for whole `k`, scaled by 1e9.
pub open spec fn spec_e_pow(k: int) -> int
    decreases k,
{
    if k <= 0 {
        1_000_000_000
    } else {
        spec_e_pow(k - 1) * 2_718_281_828 / 1_000_000_000
    }
}

/// Powers of three, to bound `spec_e_pow`.
pub open spec fn pow3(k: int) -> int
    decreases k,
{
    if k <= 0 {
        1
    } else {
        3 * pow3(k - 1)
    }
}

proof fn lemma_e_pow_bounds(k: int)
    requires
        0 <= k,
    ensures
        1_000_000_000 <= spec_e_pow(k) <= pow3(k) * 1_000_000_000,
    decreases k,
{
    if k > 0 {
        lemma_e_pow_bounds(k - 1);
        let prev = spec_e_pow(k - 1);
        let b = pow3(k - 1) * 1_000_000_000;
        assert(prev * 2_718_281_828 <= (3 * prev) * 1_000_000_000) by (nonlinear_arith)
            requires
                0 <= prev,
        ;
        lemma_avg_bound(prev * 2_718_281_828, 1_000_000_000, 3 * prev);
        assert(prev * 1_000_000_000 <= prev * 2_718_281_828) by (nonlinear_arith)
            requires
                0 <= prev,
        ;
        vstd::arithmetic::div_mod::lemma_div_is_ordered(
            prev * 1_000_000_000,
            prev * 2_718_281_828,
            1_000_000_000,
        );
        vstd::arithmetic::div_mod::lemma_div_multiples_vanish(prev, 1_000_000_000);
        assert(prev * 1_000_000_000 == 1_000_000_000 * prev) by (nonlinear_arith);
        assert(spec_e_pow(k) <= 3 * prev);
        assert(3 * prev <= 3 * b);
        assert(3 * b == pow3(k) * 1_000_000_000) by (nonlinear_arith)
            requires
                b == pow3(k - 1) * 1_000_000_000,
                pow3(k) == 3 * pow3(k - 1),
        ;
    }
}

/// `e^a` for `a` in `[0, 10]` scaled by 1e6, result scaled by 1e9.
pub open spec fn spec_exp_pos(a: int) -> int {
    let k = a / 1_000_000;
    let f = a % 1_000_000;
    spec_e_pow(k) * spec_exp_frac(f) / 1_000_000_000
}

pub proof fn lemma_exp_pos_bounds(a: int)
    requires
        0 <= a <= 10_000_000,
    ensures
        1_000_000_000 <= spec_exp_pos(a) <= 768_000_000_000_000,
{
    let k = a / 1_000_000;
    let f = a % 1_000_000;
    assert(0 <= k <= 10);
    lemma_e_pow_bounds(k);
    lemma_exp_frac_bounds(f);
    assert(spec_e_pow(k) * spec_exp_frac(f) >= 1_000_000_000int * 1_000_000_000)
        by (nonlinear_arith)
        requires
            spec_e_pow(k) >= 1_000_000_000,
            spec_exp_frac(f) >= 1_000_000_000,
    ;
    vstd::arithmetic::div_mod::lemma_div_is_ordered(1_000_000_000_000_000_000,
        spec_e_pow(k) * spec_exp_frac(f), 1_000_000_000);
    assert(1_000_000_000_000_000_000int / 1_000_000_000 == 1_000_000_000);
    assert(pow3(10) == 59_049) by {
        reveal_with_fuel(pow3, 11);
    };
    assert(pow3(k) <= 59_049) by {
        lemma_pow3_increases(k, 10);
    };
    assert(pow3(k) * 1_000_000_000 <= 59_049_000_000_000int) by (nonlinear_arith)
        requires
            pow3(k) <= 59_049,
    ;
    assert(0 <= spec_e_pow(k) * spec_exp_frac(f)
        <= 59_049_000_000_000int * 13_000_000_000) by (nonlinear_arith)
        requires
            0 <= spec_e_pow(k) <= 59_049_000_000_000int,
            0 <= spec_exp_frac(f) <= 13_000_000_000,
    ;
    lemma_avg_bound(spec_e_pow(k) * spec_exp_frac(f), 1_000_000_000, 768_000_000_000_000);
}

proof fn lemma_pow3_increases(a: int, b: int)
    requires
        0 <= a <= b,
    ensures
        pow3(a) <= pow3(b),
        pow3(a) >= 1,
    decreases b,
{
    if b > 0 {
        if a == b {
            lemma_pow3_increases(a - 1, b - 1);
        } else {
            lemma_pow3_increases(a, b - 1);
        }
    }
}

/// Compute `e^a`, `a` in `[0, 10]` scaled 1e6, result scaled 1e9.
pub fn exp_pos(a: i64) -> (r: i64)
    requires
        0 <= a <= 10_000_000,
    ensures
        r as int == spec_exp_pos(a as int),
        1_000_000_000 <= r <= 768_000_000_000_000,
{
    proof { lemma_exp_pos_bounds(a as int); }
    let k: i64 = a / 1_000_000;
    let f: i64 = a % 1_000_000;
    let mut ek: i128 = 1_000_000_000;
    let mut i: i64 = 0;
    while i < k
        invariant
            0 <= i <= k <= 10,
            ek == spec_e_pow(i as int),
            1_000_000_000 <= ek <= 59_049_000_000_000,
        decreases k - i,
    {
        proof {
            lemma_e_pow_bounds(i as int + 1);
            lemma_pow3_increases(i as int + 1, 10);
            assert(pow3(10) == 59_049) by {
                reveal_with_fuel(pow3, 11);
            };
            assert(pow3(i as int + 1) * 1_000_000_000 <= 59_049_000_000_000int)
                by (nonlinear_arith)
                requires
                    pow3(i as int + 1) <= 59_049,
            ;
        }
        ek = div_nn_i128(ek * 2_718_281_828, 1_000_000_000);
        i = i + 1;
    }
    let ef = exp_frac(f);
    proof {
        assert(0 <= (ek as int) * (ef as int) <= 59_049_000_000_000int * 13_000_000_000)
            by (nonlinear_arith)
            requires
                0 <= ek as int <= 59_049_000_000_000int,
                0 <= ef as int <= 13_000_000_000,
        ;
        lemma_avg_bound((ek as int) * (ef as int), 1_000_000_000, 768_000_000_000_000);
    }
    div_nn_i128(ek * (ef as i128), 1_000_000_000) as i64
}

/// At a zero argument the positive exponential is exactly the output
/// scale.
pub proof fn lemma_exp_pos_zero()
    ensures
        spec_exp_pos(0) == 1_000_000_000,
{
    assert(spec_exp_frac(0) == 1_000_000_000) by {
        reveal_with_fuel(spec_exp_frac_sum, 14);
        reveal_with_fuel(spec_exp_term, 14);
    };
    assert(spec_e_pow(0) == 1_000_000_000);
    assert(1_000_000_000int * 1_000_000_000 / 1_000_000_000 == 1_000_000_000);
}

/// Number of halvings that bring `x` under twice the logarithm scale.
pub open spec fn spec_halvings(x: int) -> int
    decreases x,
{
    if x < 2_000_000 {
        0
    } else {
        1 + spec_halvings(x / 2)
    }
}

/// `x` after those halvings.
pub open spec fn spec_reduced(x: int) -> int
    decreases x,
{
    if x < 2_000_000 {
        x
    } else {
        spec_reduced(x / 2)
    }
}

/// Powers of two, to bound the halving count.
pub open spec fn pow2i(n: int) -> int
    decreases n,
{
    if n <= 0 {
        1
    } else {
        2 * pow2i(n - 1)
    }
}

proof fn lemma_halvings_bound(x: int, n: int)
    requires
        0 <= n,
        x < 2_000_000 * pow2i(n),
    ensures
        spec_halvings(x) <= n,
    decreases n,
{
    if x >= 2_000_000 {
        assert(pow2i(n) > 1);
        assert(n >= 1);
        assert(2_000_000 * pow2i(n) == 2 * (2_000_000 * pow2i(n - 1))) by (nonlinear_arith)
            requires
                pow2i(n) == 2 * pow2i(n - 1),
        ;
        lemma_halvings_bound(x / 2, n - 1);
    }
}

proof fn lemma_reduce_core(x: int)
    requires
        1_000_000 <= x,
    ensures
        1_000_000 <= spec_reduced(x) < 2_000_000,
        0 <= spec_halvings(x),
    decreases x,
{
    if x >= 2_000_000 {
        lemma_reduce_core(x / 2);
    }
}

proof fn lemma_reduce_bounds(x: int)
    requires
        1_000_000 <= x <= 1_000_000_000_000,
    ensures
        1_000_000 <= spec_reduced(x) < 2_000_000,
        0 <= spec_halvings(x) <= 20,
{
    lemma_reduce_core(x);
    assert(pow2i(20) == 1_048_576) by {
        reveal_with_fuel(pow2i, 21);
    };
    lemma_halvings_bound(x, 20);
}

/// Odd-power term `j` of the `atanh` series: `t^(2j+1)`, scaled by 1e9.
pub open spec fn spec_atanh_term(t: int, j: int) -> int
    decreases j,
{
    if j <= 0 {
        t
    } else {
        spec_atanh_term(t, j - 1) * t / 1_000_000_000 * t / 1_000_000_000
    }
}

/// Partial `atanh` sum: terms `0..=j`, each divided by its odd exponent.
pub open spec fn spec_atanh_sum(t: int, j: int) -> int
    decreases j,
{
    if j <= 0 {
        t
    } else {
        spec_atanh_sum(t, j - 1) + spec_atanh_term(t, j) / (2 * j + 1)
    }
}

proof fn lemma_atanh_term_bounds(t: int, j: int)
    requires
        0 <= t <= 340_000_000,
        0 <= j,
    ensures
        0 <= spec_atanh_term(t, j) <= 340_000_000,
    decreases j,
{
    if j > 0 {
        lemma_atanh_term_bounds(t, j - 1);
        let prev = spec_atanh_term(t, j - 1);
        assert(0 <= prev * t <= prev * 1_000_000_000) by (nonlinear_arith)
            requires
                0 <= prev,
                0 <= t <= 1_000_000_000,
        ;
        lemma_avg_bound(prev * t, 1_000_000_000, prev);
        let mid = prev * t / 1_000_000_000;
        assert(0 <= mid * t <= 340_000_000 * 1_000_000_000) by (nonlinear_arith)
            requires
                0 <= mid <= 340_000_000,
                0 <= t <= 1_000_000_000,
        ;
        lemma_avg_bound(mid * t, 1_000_000_000, 340_000_000);
    }
}

proof fn lemma_atanh_sum_bounds(t: int, j: int)
    requires
        0 <= t <= 340_000_000,
        0 <= j,
    ensures
        0 <= spec_atanh_sum(t, j) <= (j + 1) * 340_000_000,
    decreases j,
{
    lemma_atanh_term_bounds(t, j);
    lemma_avg_bound(spec_atanh_term(t, j), 2 * j + 1, 340_000_000);
    if j > 0 {
        lemma_atanh_sum_bounds(t, j - 1);
        assert(j * 340_000_000 + 340_000_000 == (j + 1) * 340_000_000) by (nonlinear_arith);
    }
}

/// Natural logarithm of a ratio `x` scaled by 1e6, for `x` in
/// `[1, 1e6]` times the scale; the result is scaled by 1e6. The argument
/// is halved into `[1, 2)` and the remainder handled by the `atanh`
/// series with eight terms.
pub open spec fn spec_ln(x: int) -> int {
    let k = spec_halvings(x);
    let red = spec_reduced(x);
    let t = (red - 1_000_000) * 1_000_000_000 / (red + 1_000_000);
    (2 * spec_atanh_sum(t, 7) + k * 693_147_180) / 1000
}

pub proof fn lemma_ln_bounds(x: int)
    requires
        1_000_000 <= x <= 1_000_000_000_000,
    ensures
        0 <= spec_ln(x) <= 20_000_000,
{
    lemma_reduce_bounds(x);
    let red = spec_reduced(x);
    let t = (red - 1_000_000) * 1_000_000_000 / (red + 1_000_000);
    assert((red - 1_000_000) * 1_000_000_000 <= (red + 1_000_000) * 340_000_000)
        by (nonlinear_arith)
        requires
            1_000_000 <= red < 2_000_000,
    ;
    lemma_avg_bound((red - 1_000_000) * 1_000_000_000, red + 1_000_000, 340_000_000);
    lemma_atanh_sum_bounds(t, 7);
    let k = spec_halvings(x);
    assert(k * 693_147_180 <= 20 * 693_147_180) by (nonlinear_arith)
        requires
            0 <= k <= 20,
    ;
    assert(k * 693_147_180 >= 0) by (nonlinear_arith)
        requires
            0 <= k,
    ;
    lemma_avg_bound(2 * spec_atanh_sum(t, 7) + k * 693_147_180, 1000, 20_000_000);
}

/// Compute the scaled natural logarithm of `x` (scale 1e6).
pub fn ln_scaled(x: i128) -> (r: i64)
    requires
        1_000_000 <= x <= 1_000_000_000_000,
    ensures
        r as int == spec_ln(x as int),
        0 <= r <= 20_000_000,
{
    proof { lemma_ln_bounds(x as int); }
    let ghost x0 = x as int;
    let mut v: i128 = x;
    let mut k: i64 = 0;
    proof { lemma_reduce_bounds(x as int); }
    while v >= 2_000_000
        invariant
            1_000_000 <= v <= 1_000_000_000_000,
            spec_halvings(x0) == k + spec_halvings(v as int),
            spec_reduced(x0) == spec_reduced(v as int),
            0 <= k <= 20,
            0 <= spec_halvings(v as int),
            k + spec_halvings(v as int) <= 20,
            1_000_000 <= x0 <= 1_000_000_000_000,
        decreases v,
    {
        proof {
            lemma_reduce_core(v as int);
            lemma_reduce_core(v as int / 2);
            assert(spec_halvings(v as int) == 1 + spec_halvings(v as int / 2));
        }
        v = v / 2;
        k = k + 1;
    }
    proof {
        lemma_reduce_bounds(x0);
        assert(v as int == spec_reduced(x0));
        assert(k as int == spec_halvings(x0));
    }
    let red: i128 = v;
    let t: i64 = div_nn_i128((red - 1_000_000) * 1_000_000_000, red + 1_000_000) as i64;
    proof {
        assert((red - 1_000_000) * 1_000_000_000 <= (red + 1_000_000) * 340_000_000)
            by (nonlinear_arith)
            requires
                1_000_000 <= (red as int) && (red as int) < 2_000_000,
        ;
        assert((red as int - 1_000_000) * 1_000_000_000 >= 0) by (nonlinear_arith)
            requires
                red as int >= 1_000_000,
        ;
        lemma_avg_bound((red as int - 1_000_000) * 1_000_000_000, red as int + 1_000_000,
            340_000_000);
    }

    let mut term: i128 = t as i128;
    let mut sum: i128 = t as i128;
    let mut j: i64 = 1;
    while j <= 7
        invariant
            0 <= t <= 340_000_000,
            1 <= j <= 8,
            term == spec_atanh_term(t as int, j as int - 1),
            sum == spec_atanh_sum(t as int, j as int - 1),
            0 <= term <= 340_000_000,
            0 <= sum <= (j as int) * 340_000_000,
        decreases 8 - j,
    {
        proof {
            lemma_atanh_term_bounds(t as int, j as int);
            lemma_atanh_sum_bounds(t as int, j as int);
        }
        proof {
            assert(0 <= (term as int) * (t as int) <= 340_000_000int * 1_000_000_000)
                by (nonlinear_arith)
                requires
                    0 <= term as int <= 340_000_000,
                    0 <= t as int <= 1_000_000_000,
            ;
            lemma_avg_bound((term as int) * (t as int), 1_000_000_000, 340_000_000);
        }
        let m1: i128 = div_nn_i128(term * (t as i128), 1_000_000_000);
        proof {
            assert(0 <= (m1 as int) * (t as int) <= 340_000_000int * 1_000_000_000)
                by (nonlinear_arith)
                requires
                    0 <= m1 as int <= 340_000_000,
                    0 <= t as int <= 1_000_000_000,
            ;
            lemma_avg_bound((m1 as int) * (t as int), 1_000_000_000, 340_000_000);
        }
        term = div_nn_i128(m1 * (t as i128), 1_000_000_000);
        sum = sum + div_nn_i128(term, 2 * (j as i128) + 1);
        j = j + 1;
    }
    proof {
        assert(k as int * 693_147_180 <= 20 * 693_147_180) by (nonlinear_arith)
            requires
                0 <= k as int <= 20,
        ;
        assert(k as int * 693_147_180 >= 0) by (nonlinear_arith)
            requires
                0 <= k as int,
        ;
        lemma_avg_bound(2 * (sum as int) + (k as int) * 693_147_180, 1000, 20_000_000);
    }
    div_nn_i128(2 * sum + (k as i128) * 693_147_180, 1000) as i64
}

} // verus!
