//! Small verified arithmetic helpers shared by the pipeline stages.

use vstd::prelude::*;
use crate::data::{Bar, SwingPoint, Level};

verus! {

pub fn copy_swings(v: &Vec<SwingPoint>) -> (r: Vec<SwingPoint>)
    ensures
        r@ == v@,
{
    let mut out: Vec<SwingPoint> = Vec::new();
    let mut i: usize = 0;
    while i < v.len()
        invariant
            i <= v@.len(),
            out@ == v@.take(i as int),
        decreases v@.len() - i,
    {
        out.push(v[i]);
        proof { assert(out@ =~= v@.take(i as int + 1)); }
        i = i + 1;
    }
    proof { assert(v@.take(v@.len() as int) =~= v@); }
    out
}

pub fn copy_bars(v: &Vec<Bar>) -> (r: Vec<Bar>)
    ensures
        r@ == v@,
{
    let mut out: Vec<Bar> = Vec::new();
    let mut i: usize = 0;
    while i < v.len()
        invariant
            i <= v@.len(),
            out@ == v@.take(i as int),
        decreases v@.len() - i,
    {
        out.push(v[i]);
        proof { assert(out@ =~= v@.take(i as int + 1)); }
        i = i + 1;
    }
    proof { assert(v@.take(v@.len() as int) =~= v@); }
    out
}

pub fn copy_levels(v: &Vec<Level>) -> (r: Vec<Level>)
    ensures
        r@ == v@,
{
    let mut out: Vec<Level> = Vec::new();
    let mut i: usize = 0;
    while i < v.len()
        invariant
            i <= v@.len(),
            out@ == v@.take(i as int),
        decreases v@.len() - i,
    {
        out.push(v[i]);
        proof { assert(out@ =~= v@.take(i as int + 1)); }
        i = i + 1;
    }
    proof { assert(v@.take(v@.len() as int) =~= v@); }
    out
}

/// Truncating (round-toward-zero) quotient, for a positive divisor.
pub open spec fn tdiv(a: int, b: int) -> int {
    if a >= 0 {
        a / b
    } else {
        -((-a) / b)
    }
}

pub open spec fn imax(a: int, b: int) -> int {
    if a >= b { a } else { b }
}

pub open spec fn imin(a: int, b: int) -> int {
    if a <= b { a } else { b }
}

pub open spec fn iabs(a: int) -> int {
    if a >= 0 { a } else { -a }
}

pub open spec fn iclamp(x: int, lo: int, hi: int) -> int {
    if x < lo { lo } else if x > hi { hi } else { x }
}

/// An average of values from `[0, c]` stays in `[0, c]`.
pub proof fn lemma_avg_bound(s: int, n: int, c: int)
    requires
        0 <= s,
        s <= n * c,
        0 < n,
        0 <= c,
    ensures
        0 <= s / n <= c,
{
    vstd::arithmetic::div_mod::lemma_div_pos_is_pos(s, n);
    vstd::arithmetic::div_mod::lemma_div_is_ordered(s, n * c, n);
    vstd::arithmetic::div_mod::lemma_div_multiples_vanish(c, n);
}

pub fn max_i64(a: i64, b: i64) -> (r: i64)
    ensures
        r == if a >= b { a } else { b },
{
    if a >= b { a } else { b }
}

pub fn max_usize(a: usize, b: usize) -> (r: usize)
    ensures
        r == if a >= b { a } else { b },
{
    if a >= b { a } else { b }
}

pub fn clamp_i64(x: i64, lo: i64, hi: i64) -> (r: i64)
    requires
        lo <= hi,
    ensures
        r == if x < lo { lo } else if x > hi { hi } else { x },
{
    if x < lo { lo } else if x > hi { hi } else { x }
}

/// Quotient of a nonnegative dividend by a positive divisor.
pub fn div_nn_i128(a: i128, b: i128) -> (r: i128)
    requires
        a >= 0,
        b > 0,
    ensures
        r == a as int / b as int,
        0 <= r <= a,
{
    let q: u128 = (a as u128) / (b as u128);
    assert(q <= a as u128);
    q as i128
}

/// Truncating quotient of any dividend by a positive divisor.
pub fn div_tr_i128(a: i128, b: i128) -> (r: i128)
    requires
        a > i128::MIN,
        b > 0,
    ensures
        r == tdiv(a as int, b as int),
{
    if a >= 0 {
        div_nn_i128(a, b)
    } else {
        let m: i128 = -a;
        let q: i128 = div_nn_i128(m, b);
        -q
    }
}

} // verus!
