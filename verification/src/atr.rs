//! Wilder-smoothed Average True Range series.

use vstd::prelude::*;
use crate::data::{Bar, bars_wf, PRICE_CAP};
use crate::util::{imax, iabs, lemma_avg_bound, div_nn_i128};

verus! {

/// True range of bar `i`: the bar's own span widened by the gap to the
/// previous close, floored at zero.
pub open spec fn spec_true_range(bars: Seq<Bar>, i: int) -> int
    recommends
        0 <= i < bars.len(),
{
    let b = bars[i];
    if i == 0 {
        imax(b.high - b.low, 0)
    } else {
        let pc = bars[i - 1].close;
        imax(imax(imax(b.high - b.low, iabs(b.high - pc)), iabs(b.low - pc)), 0)
    }
}

/// Sum of the first `n` true ranges.
pub open spec fn spec_tr_sum(bars: Seq<Bar>, n: int) -> int
    decreases n,
{
    if n <= 0 {
        0
    } else {
        spec_tr_sum(bars, n - 1) + spec_true_range(bars, n - 1)
    }
}

/// Wilder recursion seeded with the simple mean of the first `period` true
/// ranges; defined for `i >= period - 1`.
pub open spec fn spec_wilder(bars: Seq<Bar>, period: int, i: int) -> int
    decreases i,
{
    if period < 1 {
        0
    } else if i <= period - 1 {
        spec_tr_sum(bars, period) / period
    } else {
        (spec_wilder(bars, period, i - 1) * (period - 1) + spec_true_range(bars, i)) / period
    }
}

/// The ATR value at index `i` of a series of `bars.len()` bars: the mean
/// true range when the series is shorter than the period, otherwise the
/// Wilder recursion with the seed value back-filled over `[0, period-2]`.
pub open spec fn spec_atr(bars: Seq<Bar>, period: int, i: int) -> int {
    if bars.len() < period {
        spec_tr_sum(bars, bars.len() as int) / (bars.len() as int)
    } else {
        spec_wilder(bars, period, i)
    }
}

/// The whole ATR series as a sequence.
pub open spec fn spec_atr_series(bars: Seq<Bar>, period: int) -> Seq<i64> {
    if bars.len() == 0 || period == 0 {
        Seq::empty()
    } else {
        Seq::new(bars.len(), |i: int| spec_atr(bars, period, i) as i64)
    }
}

/// An ATR series the downstream stages accept.
pub open spec fn atr_series_wf(s: Seq<i64>) -> bool {
    forall|i: int| 0 <= i < s.len() ==> 0 <= #[trigger] s[i] <= PRICE_CAP
}

proof fn lemma_tr_range(bars: Seq<Bar>, i: int)
    requires
        bars_wf(bars),
        0 <= i < bars.len(),
    ensures
        0 <= spec_true_range(bars, i) <= PRICE_CAP,
{
}

proof fn lemma_tr_sum_range(bars: Seq<Bar>, n: int)
    requires
        bars_wf(bars),
        0 <= n <= bars.len(),
    ensures
        0 <= spec_tr_sum(bars, n) <= n * PRICE_CAP,
    decreases n,
{
    if n > 0 {
        lemma_tr_sum_range(bars, n - 1);
        lemma_tr_range(bars, n - 1);
        assert((n - 1) * PRICE_CAP + PRICE_CAP == n * PRICE_CAP) by (nonlinear_arith);
    }
}

proof fn lemma_wilder_range(bars: Seq<Bar>, period: int, i: int)
    requires
        bars_wf(bars),
        1 <= period <= bars.len(),
        0 <= i < bars.len(),
    ensures
        0 <= spec_wilder(bars, period, i) <= PRICE_CAP,
    decreases i,
{
    if i <= period - 1 {
        lemma_tr_sum_range(bars, period);
        lemma_avg_bound(spec_tr_sum(bars, period), period, PRICE_CAP as int);
    } else {
        lemma_wilder_range(bars, period, i - 1);
        lemma_tr_range(bars, i);
        let prev = spec_wilder(bars, period, i - 1);
        let s = prev * (period - 1) + spec_true_range(bars, i);
        assert(s <= period * PRICE_CAP && s >= 0) by (nonlinear_arith)
            requires
                0 <= prev <= PRICE_CAP,
                0 <= spec_true_range(bars, i) <= PRICE_CAP,
                period >= 1,
                s == prev * (period - 1) + spec_true_range(bars, i),
        ;
        lemma_avg_bound(s, period, PRICE_CAP as int);
    }
}

/// Compute the Wilder ATR series: same length as the input, empty only for
/// an empty input or a zero period.
pub fn compute_atr(bars: &Vec<Bar>, period: usize) -> (r: Vec<i64>)
    requires
        bars_wf(bars@),
    ensures
        r@.len() == if bars@.len() == 0 || period == 0 { 0int } else { bars@.len() as int },
        forall|i: int| 0 <= i < r@.len() ==> r@[i] == spec_atr(bars@, period as int, i),
        r@ == spec_atr_series(bars@, period as int),
        atr_series_wf(r@),
{
    proof {
        if bars@.len() == 0 || period == 0 {
            assert(Seq::<i64>::empty() =~= spec_atr_series(bars@, period as int));
        }
    }
    if bars.len() == 0 || period == 0 {
        return Vec::new();
    }

    let n = bars.len();
    let mut true_ranges: Vec<i64> = Vec::new();
    let mut idx: usize = 0;
    while idx < n
        invariant
            bars_wf(bars@),
            n == bars@.len(),
            0 < n,
            idx <= n,
            true_ranges@.len() == idx as int,
            forall|j: int| 0 <= j < idx as int ==> true_ranges@[j] == spec_true_range(bars@, j),
            forall|j: int| 0 <= j < idx as int ==> 0 <= #[trigger] true_ranges@[j] <= PRICE_CAP,
        decreases n - idx,
    {
        let b = bars[idx];
        let tr: i64 = if idx == 0 {
            b.high - b.low
        } else {
            let pc = bars[idx - 1].close;
            let hl = b.high - b.low;
            let hc = if b.high >= pc { b.high - pc } else { pc - b.high };
            let lc = if b.low >= pc { b.low - pc } else { pc - b.low };
            let m = if hl >= hc { hl } else { hc };
            if m >= lc { m } else { lc }
        };
        let tr = if tr >= 0 { tr } else { 0 };
        proof { lemma_tr_range(bars@, idx as int); }
        true_ranges.push(tr);
        idx = idx + 1;
    }

    if n < period {
        let mut s: i128 = 0;
        let mut j: usize = 0;
        while j < n
            invariant
                bars_wf(bars@),
                n == bars@.len(),
                0 < n,
                j <= n,
                true_ranges@.len() == n as int,
                forall|k: int| 0 <= k < n as int ==> true_ranges@[k] == spec_true_range(bars@, k),
                forall|k: int| 0 <= k < n as int ==> 0 <= #[trigger] true_ranges@[k] <= PRICE_CAP,
                s == spec_tr_sum(bars@, j as int),
                0 <= s <= (j as int) * PRICE_CAP,
            decreases n - j,
        {
            proof {
                assert((j as int) * PRICE_CAP + PRICE_CAP == (j as int + 1) * PRICE_CAP)
                    by (nonlinear_arith);
            }
            s = s + true_ranges[j] as i128;
            j = j + 1;
        }
        proof { lemma_avg_bound(s as int, n as int, PRICE_CAP as int); }
        let avg: i128 = div_nn_i128(s, n as i128);
        let avg64: i64 = avg as i64;
        let mut out: Vec<i64> = Vec::new();
        let mut k: usize = 0;
        while k < n
            invariant
                k <= n,
                out@.len() == k as int,
                forall|t: int| 0 <= t < k as int ==> out@[t] == avg64 as int,
            decreases n - k,
        {
            out.push(avg64);
            k = k + 1;
        }
        assert(forall|i: int| 0 <= i < n as int
            ==> #[trigger] out@[i] == spec_atr(bars@, period as int, i));
        assert(out@ =~= spec_atr_series(bars@, period as int));
        return out;
    }

    let mut s: i128 = 0;
    let mut j: usize = 0;
    while j < period
        invariant
            bars_wf(bars@),
            n == bars@.len(),
            period <= n,
            0 < period,
            j <= period,
            true_ranges@.len() == n as int,
            forall|k: int| 0 <= k < n as int ==> true_ranges@[k] == spec_true_range(bars@, k),
            forall|k: int| 0 <= k < n as int ==> 0 <= #[trigger] true_ranges@[k] <= PRICE_CAP,
            s == spec_tr_sum(bars@, j as int),
            0 <= s <= (j as int) * PRICE_CAP,
        decreases period - j,
    {
        proof {
            assert((j as int) * PRICE_CAP + PRICE_CAP == (j as int + 1) * PRICE_CAP)
                by (nonlinear_arith);
        }
        s = s + true_ranges[j] as i128;
        j = j + 1;
    }
    proof { lemma_avg_bound(s as int, period as int, PRICE_CAP as int); }
    let initial: i64 = div_nn_i128(s, period as i128) as i64;
    assert(initial as int == spec_wilder(bars@, period as int, period as int - 1));

    let mut out: Vec<i64> = Vec::new();
    let mut k: usize = 0;
    while k < n
        invariant
            k <= n,
            out@.len() == k as int,
            forall|t: int| 0 <= t < k as int ==> out@[t] == 0int,
        decreases n - k,
    {
        out.push(0i64);
        k = k + 1;
    }
    out.set(period - 1, initial);

    let mut prev: i64 = initial;
    let mut idx2: usize = period;
    while idx2 < n
        invariant
            bars_wf(bars@),
            n == bars@.len(),
            1 <= period <= n,
            period <= idx2 <= n,
            true_ranges@.len() == n as int,
            out@.len() == n as int,
            forall|k: int| 0 <= k < n as int ==> true_ranges@[k] == spec_true_range(bars@, k),
            forall|k: int| 0 <= k < n as int ==> 0 <= #[trigger] true_ranges@[k] <= PRICE_CAP,
            prev == spec_wilder(bars@, period as int, idx2 as int - 1),
            0 <= prev <= PRICE_CAP,
            forall|t: int| period - 1 <= t < idx2 as int
                ==> #[trigger] out@[t] == spec_wilder(bars@, period as int, t),
        decreases n - idx2,
    {
        let tr = true_ranges[idx2];
        proof {
            assert(0 <= (prev as int) * (period as int - 1)
                <= 10_000_000_000int * 0xffff_ffff_ffff_ffffint) by (nonlinear_arith)
                requires
                    0 <= prev as int <= 10_000_000_000int,
                    1 <= period as int <= 0xffff_ffff_ffff_ffffint,
            ;
        }
        let num: i128 = (prev as i128) * (period as i128 - 1) + (tr as i128);
        proof {
            assert(num <= (period as int) * PRICE_CAP && num >= 0) by (nonlinear_arith)
                requires
                    0 <= prev as int <= PRICE_CAP,
                    0 <= tr as int <= PRICE_CAP,
                    period as int >= 1,
                    num as int == (prev as int) * (period as int - 1) + tr as int,
            ;
            lemma_avg_bound(num as int, period as int, PRICE_CAP as int);
        }
        let next: i64 = div_nn_i128(num, period as i128) as i64;
        out.set(idx2, next);
        prev = next;
        proof { lemma_wilder_range(bars@, period as int, idx2 as int); }
        idx2 = idx2 + 1;
    }

    let mut b: usize = 0;
    while b < period - 1
        invariant
            bars_wf(bars@),
            n == bars@.len(),
            1 <= period <= n,
            b <= period - 1,
            out@.len() == n as int,
            forall|t: int| period - 1 <= t < n as int
                ==> #[trigger] out@[t] == spec_wilder(bars@, period as int, t),
            forall|t: int| 0 <= t < b as int
                ==> #[trigger] out@[t] == spec_wilder(bars@, period as int, period as int - 1),
            initial == spec_wilder(bars@, period as int, period as int - 1),
            0 <= initial <= PRICE_CAP,
        decreases period - 1 - b,
    {
        out.set(b, initial);
        b = b + 1;
    }

    proof {
        assert forall|i: int| 0 <= i < n as int
            implies #[trigger] out@[i] == spec_atr(bars@, period as int, i) by {
        };
        assert forall|i: int| 0 <= i < out@.len()
            implies 0 <= #[trigger] out@[i] <= PRICE_CAP by {
            lemma_wilder_range(bars@, period as int, i);
        };
        assert(out@ =~= spec_atr_series(bars@, period as int));
    }
    out
}

/// With a constant true range the whole smoothed series equals that range:
/// the seed mean is exact and each Wilder step is a fixed point.
pub proof fn lemma_atr_constant_true_range(bars: Seq<Bar>, period: int, r: int)
    requires
        bars_wf(bars),
        1 <= period,
        1 <= bars.len(),
        forall|i: int| 0 <= i < bars.len() ==> spec_true_range(bars, i) == r,
    ensures
        forall|i: int| 0 <= i < bars.len() ==> spec_atr(bars, period, i) == r,
{
    assert(r >= 0) by {
        assert(spec_true_range(bars, 0) == r);
    };
    assert forall|n: int| 0 <= n <= bars.len()
        implies spec_tr_sum(bars, n) == n * r by {
        lemma_tr_sum_const(bars, n, r);
    };
    if bars.len() < period {
        vstd::arithmetic::div_mod::lemma_div_multiples_vanish(r, bars.len() as int);
        assert((bars.len() as int) * r == r * (bars.len() as int)) by (nonlinear_arith);
    } else {
        assert forall|i: int| 0 <= i < bars.len()
            implies spec_wilder(bars, period, i) == r by {
            lemma_wilder_const(bars, period, r, i);
        };
    }
}

proof fn lemma_tr_sum_const(bars: Seq<Bar>, n: int, r: int)
    requires
        0 <= n <= bars.len(),
        forall|i: int| 0 <= i < bars.len() ==> spec_true_range(bars, i) == r,
    ensures
        spec_tr_sum(bars, n) == n * r,
    decreases n,
{
    if n > 0 {
        lemma_tr_sum_const(bars, n - 1, r);
        assert(spec_true_range(bars, n - 1) == r);
        assert(spec_tr_sum(bars, n) == spec_tr_sum(bars, n - 1) + spec_true_range(bars, n - 1));
        assert((n - 1) * r + r == n * r) by (nonlinear_arith);
    } else {
        assert(n * r == 0) by (nonlinear_arith)
            requires
                n == 0,
        ;
    }
}

proof fn lemma_wilder_const(bars: Seq<Bar>, period: int, r: int, i: int)
    requires
        1 <= period <= bars.len(),
        0 <= i < bars.len(),
        0 <= r,
        forall|j: int| 0 <= j < bars.len() ==> spec_true_range(bars, j) == r,
    ensures
        spec_wilder(bars, period, i) == r,
    decreases i,
{
    if i <= period - 1 {
        lemma_tr_sum_const(bars, period, r);
        vstd::arithmetic::div_mod::lemma_div_multiples_vanish(r, period);
        assert(period * r == r * period) by (nonlinear_arith);
    } else {
        lemma_wilder_const(bars, period, r, i - 1);
        assert(r * (period - 1) + r == period * r) by (nonlinear_arith);
        vstd::arithmetic::div_mod::lemma_div_multiples_vanish(r, period);
        assert(period * r == r * period) by (nonlinear_arith);
    }
}

} // verus!
