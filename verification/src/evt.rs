//! Extreme-value tail extrapolation: a peaks-over-threshold generalized
//! Pareto fit over the bar highs, projecting resistance levels beyond the
//! observed price range.

use vstd::prelude::*;
use crate::data::{Bar, Level, LevelType, PerformanceStats, empty_performance, level_wf, bars_wf,
    PRICE_CAP, SERIES_CAP, LEVEL_PRICE_CAP};
use crate::sort::{spec_sort_by, lt_i64, lt_level_confidence, sort_i64, sort_levels_by_confidence,
    sorted_ord};
use crate::math::{spec_ln, spec_exp_pos, spec_exp_neg, ln_scaled, exp_pos, exp_neg};
use crate::util::{imax, imin, iabs, iclamp, tdiv, lemma_avg_bound, div_nn_i128};

verus! {

/// The bar highs in ascending order.
pub open spec fn spec_highs(bars: Seq<Bar>) -> Seq<i64> {
    spec_sort_by(lt_i64(), bars.map_values(|b: Bar| b.high))
}

/// Exceedances above the threshold among the first `i` sorted highs.
pub open spec fn spec_exceedances(highs: Seq<i64>, threshold: i64, i: int) -> Seq<i64>
    decreases i,
{
    if i <= 0 {
        Seq::empty()
    } else if highs[i - 1] > threshold {
        spec_exceedances(highs, threshold, i - 1).push((highs[i - 1] - threshold) as i64)
    } else {
        spec_exceedances(highs, threshold, i - 1)
    }
}

/// Sum of the first `i` values.
pub open spec fn spec_sum_i64(s: Seq<i64>, i: int) -> int
    decreases i,
{
    if i <= 0 {
        0
    } else {
        spec_sum_i64(s, i - 1) + s[i - 1]
    }
}

/// Sum of squared deviations from `mean` over the first `i` values.
pub open spec fn spec_sq_dev_sum(s: Seq<i64>, mean: int, i: int) -> int
    decreases i,
{
    if i <= 0 {
        0
    } else {
        spec_sq_dev_sum(s, mean, i - 1) + (s[i - 1] - mean) * (s[i - 1] - mean)
    }
}

/// Generalized Pareto parameters: shape in parts per million, scale in
/// ticks.
pub struct GpdFit {
    pub shape: int,
    pub scale: int,
}

/// Method-of-moments fit: `shape = (1 - mean^2/variance) / 2`; the scale
/// is `mean * (1 - shape)`, with an exponential-tail fallback when that
/// is not positive.
pub open spec fn spec_gpd(mean: int, variance: int) -> GpdFit {
    if variance > 0 {
        let xi = 500_000 - 500_000 * (mean * mean) / variance;
        let sigma = mean * (1_000_000 - xi) / 1_000_000;
        if sigma <= 0 {
            GpdFit { shape: 0, scale: imax(mean, 1) }
        } else {
            GpdFit { shape: xi, scale: sigma }
        }
    } else {
        GpdFit { shape: 0, scale: imax(mean, 1) }
    }
}

/// The exceedance ratio `lambda / tail`, scaled by 1e6.
pub open spec fn spec_ratio(nu: int, n: int, tail: int) -> int {
    nu * 1_000_000_000_000 / (n * tail)
}

/// Raw tail projection above the threshold: `scale * ln(ratio)` for a
/// vanishing shape, else `(scale/shape) * (ratio^shape - 1)`.
pub open spec fn spec_projected(threshold: i64, fit: GpdFit, lnr: int) -> int {
    if -1 <= fit.shape <= 1 {
        threshold + fit.scale * lnr / 1_000_000
    } else {
        let y = tdiv(fit.shape * lnr, 1_000_000);
        let inner = if y >= 0 {
            spec_exp_pos(y)
        } else {
            spec_exp_neg(-y)
        };
        let q = if fit.shape > 0 {
            fit.scale * 1_000_000 / fit.shape
        } else {
            -(fit.scale * 1_000_000 / (-fit.shape))
        };
        threshold + q * (inner - 1_000_000_000) / 1_000_000_000
    }
}

/// The tolerance band a projected level receives: the given band, or a
/// relative fallback when it is not positive.
pub open spec fn spec_band_fixed(band: i64, price: int) -> int {
    if band > 0 {
        band as int
    } else {
        imax(iabs(price) / 1000, 10_000)
    }
}

/// The level projected for one requested upper-tail probability, `None`
/// when the probability is out of range, its tail is not below the
/// exceedance rate, or the capped projection is not strictly forward of
/// both the threshold and the current price.
pub open spec fn spec_level_for_prob(
    p: i64,
    fit: GpdFit,
    nu: int,
    n: int,
    threshold: i64,
    max_high: i64,
    band: i64,
    current: i64,
) -> Option<Level> {
    if !(0 <= p < 1_000_000) {
        None
    } else {
        let tail = 1_000_000 - p;
        if tail * n >= nu * 1_000_000 {
            None
        } else {
            let lnr = spec_ln(spec_ratio(nu, n, tail));
            let cap = max_high + imax(band as int, 10_000) * 5;
            let proj = imin(spec_projected(threshold, fit, lnr), cap);
            if proj <= threshold || proj <= current {
                None
            } else {
                Some(Level {
                    price: proj as i64,
                    density: 0,
                    confidence: p,
                    confidence_band: spec_band_fixed(band, proj) as i64,
                    level_type: LevelType::Resistance,
                    performance: empty_performance(),
                    distance_from_last: iabs(proj - current) as i64,
                })
            }
        }
    }
}

/// Projected levels for the first `i` requested probabilities.
pub open spec fn spec_evt_upto(
    probs: Seq<i64>,
    fit: GpdFit,
    nu: int,
    n: int,
    threshold: i64,
    max_high: i64,
    band: i64,
    current: i64,
    i: int,
) -> Seq<Level>
    decreases i,
{
    if i <= 0 {
        Seq::empty()
    } else {
        let prev = spec_evt_upto(probs, fit, nu, n, threshold, max_high, band, current, i - 1);
        match spec_level_for_prob(probs[i - 1], fit, nu, n, threshold, max_high, band, current) {
            Some(l) => prev.push(l),
            None => prev,
        }
    }
}

/// The single fallback level emitted when no probability yields a valid
/// projection: one band step above the observed maximum, pulled forward
/// of the current price where needed.
pub open spec fn spec_fallback_level(
    probs: Seq<i64>,
    max_high: i64,
    band: i64,
    current: i64,
) -> Level {
    let step = imax(band as int, 10_000);
    let f0 = imin(max_high + step, max_high + step * 5);
    let f = if f0 <= current {
        imin(current + step, max_high + step * 5)
    } else {
        f0
    };
    let c = if probs.len() > 0 {
        probs[0] as int
    } else {
        990_000
    };
    Level {
        price: f as i64,
        density: 0,
        confidence: iclamp(c, 0, 1_000_000) as i64,
        confidence_band: spec_band_fixed(band, f) as i64,
        level_type: LevelType::Resistance,
        performance: empty_performance(),
        distance_from_last: iabs(f - current) as i64,
    }
}

/// The full extrapolation result: the projected level of each admissible
/// tail probability, or the single fallback level when none is valid,
/// sorted by descending confidence; empty for short series or thin tails.
pub open spec fn spec_evt_resistances(
    bars: Seq<Bar>,
    probs: Seq<i64>,
    quantile: i64,
    band: i64,
    current: i64,
) -> Seq<Level> {
    if bars.len() < 50 || probs.len() == 0 {
        Seq::empty()
    } else {
        let highs = spec_highs(bars);
        let n = bars.len() as int;
        let t_idx = iclamp(n * quantile / 1_000_000, 0, n - 1);
        let threshold = highs[t_idx];
        let max_high = highs.last();
        let exc = spec_exceedances(highs, threshold, n);
        let nu = exc.len() as int;
        if nu < 5 {
            Seq::empty()
        } else {
            let mean = spec_sum_i64(exc, nu) / nu;
            let variance = spec_sq_dev_sum(exc, mean, nu) / imax(nu - 1, 1);
            let fit = spec_gpd(mean, variance);
            let collected = spec_evt_upto(probs, fit, nu, n, threshold, max_high, band,
                current, probs.len() as int);
            let with_fallback = if collected.len() == 0 {
                seq![spec_fallback_level(probs, max_high, band, current)]
            } else {
                collected
            };
            spec_sort_by(lt_level_confidence(), with_fallback)
        }
    }
}

proof fn lemma_sum_exc_bounds(s: Seq<i64>, i: int)
    requires
        forall|j: int| 0 <= j < s.len() ==> 1 <= #[trigger] s[j] <= PRICE_CAP,
        0 <= i <= s.len(),
    ensures
        i <= spec_sum_i64(s, i) <= i * PRICE_CAP,
    decreases i,
{
    if i > 0 {
        lemma_sum_exc_bounds(s, i - 1);
        assert((i - 1) * PRICE_CAP + PRICE_CAP == i * PRICE_CAP) by (nonlinear_arith);
    }
}

proof fn lemma_sq_dev_bounds(s: Seq<i64>, mean: int, i: int)
    requires
        forall|j: int| 0 <= j < s.len() ==> 1 <= #[trigger] s[j] <= PRICE_CAP,
        0 <= mean <= PRICE_CAP,
        0 <= i <= s.len(),
    ensures
        0 <= spec_sq_dev_sum(s, mean, i) <= i * 100_000_000_000_000_000_000,
    decreases i,
{
    if i > 0 {
        lemma_sq_dev_bounds(s, mean, i - 1);
        let d = s[i - 1] - mean;
        assert(0 <= d * d <= 100_000_000_000_000_000_000) by (nonlinear_arith)
            requires
                -10_000_000_000 <= d <= 10_000_000_000,
        ;
        assert((i - 1) * 100_000_000_000_000_000_000 + 100_000_000_000_000_000_000
            == i * 100_000_000_000_000_000_000) by (nonlinear_arith);
    }
}

/// Bounds of the fitted parameters for a well-formed mean and variance.
proof fn lemma_gpd_bounds(mean: int, variance: int)
    requires
        1 <= mean <= PRICE_CAP,
        0 <= variance,
    ensures
        ({
            let fit = spec_gpd(mean, variance);
            &&& -50_000_000_000_000_000_000_000_000 <= fit.shape <= 500_000
            &&& 1 <= fit.scale
            &&& fit.scale * 1_000_000 <= mean * (1_000_000 - fit.shape)
            &&& (fit.shape >= 0 ==> fit.scale <= mean)
        }),
{
    if variance > 0 {
        let m2 = mean * mean;
        assert(0 <= m2 <= 100_000_000_000_000_000_000) by (nonlinear_arith)
            requires
                1 <= mean <= 10_000_000_000,
                m2 == mean * mean,
        ;
        assert(0 <= 500_000 * m2 <= 50_000_000_000_000_000_000_000_000) by (nonlinear_arith)
            requires
                0 <= m2 <= 100_000_000_000_000_000_000,
        ;
        assert(500_000 * m2 <= variance * (500_000 * m2)) by (nonlinear_arith)
            requires
                variance >= 1,
                500_000 * m2 >= 0,
        ;
        lemma_avg_bound(500_000 * m2, variance, 500_000 * m2);
        let xi = 500_000 - 500_000 * m2 / variance;
        let sigma = mean * (1_000_000 - xi) / 1_000_000;
        vstd::arithmetic::div_mod::lemma_div_pos_is_pos(500_000 * m2, variance);
        if sigma > 0 {
            vstd::arithmetic::div_mod::lemma_fundamental_div_mod(mean * (1_000_000 - xi),
                1_000_000);
            assert(sigma * 1_000_000 <= mean * (1_000_000 - xi));
            if xi >= 0 {
                assert(mean * (1_000_000 - xi) <= mean * 1_000_000) by (nonlinear_arith)
                    requires
                        0 <= xi,
                        1 <= mean,
                ;
                vstd::arithmetic::div_mod::lemma_div_is_ordered(mean * (1_000_000 - xi),
                    mean * 1_000_000, 1_000_000);
                vstd::arithmetic::div_mod::lemma_div_multiples_vanish(mean, 1_000_000);
                assert(mean * 1_000_000 == 1_000_000 * mean) by (nonlinear_arith);
            }
        } else {
            assert(imax(mean, 1) * 1_000_000 <= mean * 1_000_000) by (nonlinear_arith)
                requires
                    mean >= 1,
            ;
        }
    } else {
        assert(imax(mean, 1) * 1_000_000 <= mean * 1_000_000) by (nonlinear_arith)
            requires
                mean >= 1,
        ;
    }
}

/// The projection never falls below the threshold.
proof fn lemma_projected_bounds(threshold: i64, fit: GpdFit, lnr: int)
    requires
        0 <= threshold <= PRICE_CAP,
        0 <= lnr <= 20_000_000,
        -50_000_000_000_000_000_000_000_000 <= fit.shape <= 500_000,
        1 <= fit.scale,
        fit.scale * 1_000_000 <= (PRICE_CAP as int) * (1_000_000 - fit.shape),
        fit.shape >= 0 ==> fit.scale <= PRICE_CAP,
    ensures
        threshold <= spec_projected(threshold, fit, lnr),
{
    if -1 <= fit.shape <= 1 {
        assert(fit.scale * lnr >= 0) by (nonlinear_arith)
            requires
                fit.scale >= 0,
                lnr >= 0,
        ;
        vstd::arithmetic::div_mod::lemma_div_pos_is_pos(fit.scale * lnr, 1_000_000);
    } else {
        let y = tdiv(fit.shape * lnr, 1_000_000);
        let inner = if y >= 0 {
            spec_exp_pos(y)
        } else {
            spec_exp_neg(-y)
        };
        let q = if fit.shape > 0 {
            fit.scale * 1_000_000 / fit.shape
        } else {
            -(fit.scale * 1_000_000 / (-fit.shape))
        };
        if fit.shape > 0 {
            assert(y >= 0) by (nonlinear_arith)
                requires
                    fit.shape >= 0,
                    lnr >= 0,
                    y == tdiv(fit.shape * lnr, 1_000_000),
            ;
            assert(fit.shape * lnr <= 500_000 * 20_000_000) by (nonlinear_arith)
                requires
                    0 <= fit.shape <= 500_000,
                    0 <= lnr <= 20_000_000,
            ;
            lemma_avg_bound(fit.shape * lnr, 1_000_000, 10_000_000);
            crate::math::lemma_exp_pos_bounds(y);
            assert(q * (inner - 1_000_000_000) >= 0) by (nonlinear_arith)
                requires
                    q >= 0,
                    inner >= 1_000_000_000,
            ;
            vstd::arithmetic::div_mod::lemma_div_pos_is_pos(q * (inner - 1_000_000_000),
                1_000_000_000);
            vstd::arithmetic::div_mod::lemma_div_pos_is_pos(fit.scale * 1_000_000, fit.shape);
            assert(fit.scale * 1_000_000 >= 0) by (nonlinear_arith)
                requires
                    fit.scale >= 0,
            ;
        } else {
            assert(fit.shape * lnr <= 0) by (nonlinear_arith)
                requires
                    fit.shape < 0,
                    lnr >= 0,
            ;
            assert(y <= 0);
            if y == 0 {
                crate::math::lemma_exp_pos_zero();
                assert(inner == 1_000_000_000);
            } else {
                crate::math::lemma_exp_neg_bounds(-y);
                assert(inner <= 1_000_000_000);
            }
            assert(fit.scale * 1_000_000 >= 0) by (nonlinear_arith)
                requires
                    fit.scale >= 0,
            ;
            vstd::arithmetic::div_mod::lemma_div_pos_is_pos(fit.scale * 1_000_000, -fit.shape);
            assert(q <= 0);
            assert(q * (inner - 1_000_000_000) >= 0) by (nonlinear_arith)
                requires
                    q <= 0,
                    inner - 1_000_000_000 <= 0,
            ;
            vstd::arithmetic::div_mod::lemma_div_pos_is_pos(q * (inner - 1_000_000_000),
                1_000_000_000);
        }
    }
}

/// Compute the EVT-based resistance projections. Every returned level is
/// a well-formed resistance level with an empty performance record, and
/// the list descends by confidence.
#[verifier::rlimit(100)]
pub fn compute_evt_resistances(
    bars: &Vec<Bar>,
    tail_probs: &Vec<i64>,
    threshold_quantile: i64,
    confidence_band: i64,
    current_price: i64,
) -> (r: Vec<Level>)
    requires
        bars_wf(bars@),
        0 <= threshold_quantile <= 1_000_000,
        0 <= confidence_band <= 100_000_000_000_000,
        0 <= current_price <= PRICE_CAP,
    ensures
        r@ == spec_evt_resistances(bars@, tail_probs@, threshold_quantile, confidence_band,
            current_price),
        forall|k: int| 0 <= k < r@.len() ==> level_wf(#[trigger] r@[k]),
        forall|k: int| 0 <= k < r@.len()
            ==> (#[trigger] r@[k]).level_type == LevelType::Resistance
                && r@[k].performance == empty_performance(),
        sorted_ord(lt_level_confidence(), r@),
{
    if bars.len() < 50 || tail_probs.len() == 0 {
        let r: Vec<Level> = Vec::new();
        assert(r@ =~= spec_evt_resistances(bars@, tail_probs@, threshold_quantile,
            confidence_band, current_price));
        return r;
    }

    let n = bars.len();
    let mut raw_highs: Vec<i64> = Vec::new();
    let mut i: usize = 0;
    while i < n
        invariant
            bars_wf(bars@),
            n == bars@.len(),
            i <= n,
            raw_highs@ == bars@.take(i as int).map_values(|b: Bar| b.high),
        decreases n - i,
    {
        raw_highs.push(bars[i].high);
        proof {
            assert(bars@.take(i as int + 1).map_values(|b: Bar| b.high) =~= raw_highs@);
        }
        i = i + 1;
    }
    proof {
        assert(bars@.take(n as int) =~= bars@);
        assert forall|j: int| 0 <= j < raw_highs@.len()
            implies 0 <= #[trigger] raw_highs@[j] <= PRICE_CAP by {
            assert(crate::data::bar_wf(bars@[j]));
        };
    }
    let highs = sort_i64(raw_highs);
    proof {
        assert(highs@ == spec_highs(bars@));
        assert forall|j: int| 0 <= j < highs@.len()
            implies 0 <= #[trigger] highs@[j] <= PRICE_CAP by {
            assert(highs@.contains(highs@[j]));
        };
    }

    proof {
        assert(0 <= (n as int) * (threshold_quantile as int)
            <= 1_000_000 * (n as int)) by (nonlinear_arith)
            requires
                0 <= threshold_quantile as int <= 1_000_000,
                0 <= n as int,
        ;
        lemma_avg_bound((n as int) * (threshold_quantile as int), 1_000_000,
            (n as int));
    }
    let ti_raw: i128 = div_nn_i128((n as i128) * (threshold_quantile as i128), 1_000_000);
    let threshold_idx: usize = if ti_raw > (n as i128) - 1 { n - 1 } else { ti_raw as usize };
    assert(threshold_idx as int
        == iclamp((n as int) * (threshold_quantile as int) / 1_000_000, 0, n as int - 1));
    let threshold: i64 = highs[threshold_idx];
    let max_high: i64 = highs[n - 1];

    let mut exceedances: Vec<i64> = Vec::new();
    let mut j: usize = 0;
    while j < n
        invariant
            n == highs@.len(),
            forall|t: int| 0 <= t < highs@.len() ==> 0 <= #[trigger] highs@[t] <= PRICE_CAP,
            0 <= threshold <= PRICE_CAP,
            j <= n,
            exceedances@ == spec_exceedances(highs@, threshold, j as int),
            exceedances@.len() <= j as int,
            forall|t: int| 0 <= t < exceedances@.len()
                ==> 1 <= #[trigger] exceedances@[t] <= PRICE_CAP,
        decreases n - j,
    {
        let v = highs[j];
        if v > threshold {
            exceedances.push(v - threshold);
        }
        j = j + 1;
    }
    let nu = exceedances.len();
    if nu < 5 {
        let r: Vec<Level> = Vec::new();
        assert(r@ =~= spec_evt_resistances(bars@, tail_probs@, threshold_quantile,
            confidence_band, current_price));
        return r;
    }

    let mut s: i128 = 0;
    let mut k: usize = 0;
    while k < nu
        invariant
            nu == exceedances@.len(),
            forall|t: int| 0 <= t < exceedances@.len()
                ==> 1 <= #[trigger] exceedances@[t] <= PRICE_CAP,
            k <= nu,
            s == spec_sum_i64(exceedances@, k as int),
            0 <= s <= (k as int) * PRICE_CAP,
        decreases nu - k,
    {
        proof {
            lemma_sum_exc_bounds(exceedances@, k as int + 1);
            assert((k as int) * PRICE_CAP + PRICE_CAP == (k as int + 1) * PRICE_CAP)
                by (nonlinear_arith);
        }
        s = s + exceedances[k] as i128;
        k = k + 1;
    }
    proof {
        lemma_sum_exc_bounds(exceedances@, nu as int);
        lemma_avg_bound(s as int, nu as int, PRICE_CAP as int);
        vstd::arithmetic::div_mod::lemma_div_by_self(nu as int);
        vstd::arithmetic::div_mod::lemma_div_is_ordered(nu as int, s as int, nu as int);
    }
    let mean: i64 = div_nn_i128(s, nu as i128) as i64;
    assert(1 <= mean <= PRICE_CAP);

    let mut vs: i128 = 0;
    let mut k2: usize = 0;
    while k2 < nu
        invariant
            nu == exceedances@.len(),
            nu <= SERIES_CAP,
            forall|t: int| 0 <= t < exceedances@.len()
                ==> 1 <= #[trigger] exceedances@[t] <= PRICE_CAP,
            1 <= mean <= PRICE_CAP,
            k2 <= nu,
            vs == spec_sq_dev_sum(exceedances@, mean as int, k2 as int),
            0 <= vs <= (k2 as int) * 100_000_000_000_000_000_000,
        decreases nu - k2,
    {
        let d: i64 = exceedances[k2] - mean;
        proof {
            assert(0 <= (d as int) * (d as int) <= 100_000_000_000_000_000_000int)
                by (nonlinear_arith)
                requires
                    -10_000_000_000 <= d as int <= 10_000_000_000,
            ;
            assert((k2 as int) * 100_000_000_000_000_000_000
                + 100_000_000_000_000_000_000
                == (k2 as int + 1) * 100_000_000_000_000_000_000) by (nonlinear_arith);
        }
        vs = vs + (d as i128) * (d as i128);
        k2 = k2 + 1;
    }
    let denom: i128 = if nu - 1 >= 1 { (nu - 1) as i128 } else { 1 };
    proof {
        assert(vs as int <= (nu as int) * 100_000_000_000_000_000_000) by {
        };
        assert((nu as int) * 100_000_000_000_000_000_000
            <= (denom as int) * 200_000_000_000_000_000_000) by (nonlinear_arith)
            requires
                nu as int >= 5,
                denom as int == nu as int - 1,
        ;
        lemma_avg_bound(vs as int, denom as int, 200_000_000_000_000_000_000int);
    }
    let variance: i128 = div_nn_i128(vs, denom);
    assert(variance as int
        == spec_sq_dev_sum(exceedances@, mean as int, nu as int) / imax(nu as int - 1, 1));

    let mut shape: i128 = 0;
    let mut scale: i128 = if mean >= 1 { mean as i128 } else { 1 };
    if variance > 0 {
        proof {
            assert(0 <= (mean as int) * (mean as int) <= 100_000_000_000_000_000_000int)
                by (nonlinear_arith)
                requires
                    1 <= mean as int <= 10_000_000_000,
            ;
            assert(0 <= 500_000 * ((mean as int) * (mean as int))
                <= 50_000_000_000_000_000_000_000_000int) by (nonlinear_arith)
                requires
                    0 <= (mean as int) * (mean as int) <= 100_000_000_000_000_000_000int,
            ;
            lemma_avg_bound(500_000 * ((mean as int) * (mean as int)), variance as int,
                50_000_000_000_000_000_000_000_000int);
            assert(500_000 * ((mean as int) * (mean as int))
                <= (variance as int) * 50_000_000_000_000_000_000_000_000int)
                by (nonlinear_arith)
                requires
                    variance as int >= 1,
                    0 <= 500_000 * ((mean as int) * (mean as int))
                        <= 50_000_000_000_000_000_000_000_000int,
            ;
        }
        let xi: i128 = 500_000 - div_nn_i128(
            500_000 * ((mean as i128) * (mean as i128)),
            variance,
        );
        proof {
            assert(0 <= (mean as int) * (1_000_000 - xi as int)
                <= 10_000_000_000int * (1_000_000 + 50_000_000_000_000_000_000_000_000int))
                by (nonlinear_arith)
                requires
                    1 <= mean as int <= 10_000_000_000,
                    -50_000_000_000_000_000_000_000_000 <= xi as int <= 500_000,
            ;
            lemma_avg_bound((mean as int) * (1_000_000 - xi as int), 1_000_000,
                10_000_000_000int * (1_000_000 + 50_000_000_000_000_000_000_000_000int));
        }
        let sigma: i128 = div_nn_i128((mean as i128) * (1_000_000 - xi), 1_000_000);
        if sigma > 0 {
            shape = xi;
            scale = sigma;
        }
    }
    let ghost fit = spec_gpd(mean as int, variance as int);
    proof {
        assert(shape as int == fit.shape && scale as int == fit.scale);
        lemma_gpd_bounds(mean as int, variance as int);
        assert(fit.scale * 1_000_000 <= (PRICE_CAP as int) * (1_000_000 - fit.shape))
            by (nonlinear_arith)
            requires
                fit.scale * 1_000_000 <= (mean as int) * (1_000_000 - fit.shape),
                1 <= mean as int <= PRICE_CAP as int,
                fit.shape <= 500_000,
        ;
    }

    let mut levels: Vec<Level> = Vec::new();
    let np = tail_probs.len();
    let mut pi: usize = 0;
    while pi < np
        invariant
            np == tail_probs@.len(),
            n == bars@.len(),
            50 <= n <= SERIES_CAP,
            5 <= nu <= n,
            0 <= threshold <= PRICE_CAP,
            0 <= max_high <= PRICE_CAP,
            0 <= confidence_band <= 100_000_000_000_000,
            0 <= current_price <= PRICE_CAP,
            1 <= mean <= PRICE_CAP,
            shape as int == fit.shape,
            scale as int == fit.scale,
            -50_000_000_000_000_000_000_000_000 <= fit.shape <= 500_000,
            1 <= fit.scale,
            fit.scale * 1_000_000 <= (mean as int) * (1_000_000 - fit.shape),
            fit.scale * 1_000_000 <= (PRICE_CAP as int) * (1_000_000 - fit.shape),
            fit.shape >= 0 ==> fit.scale <= mean as int,
            pi <= np,
            levels@ == spec_evt_upto(tail_probs@, fit, nu as int, n as int, threshold,
                max_high, confidence_band, current_price, pi as int),
            forall|t: int| 0 <= t < levels@.len() ==> level_wf(#[trigger] levels@[t]),
            forall|t: int| 0 <= t < levels@.len()
                ==> (#[trigger] levels@[t]).level_type == LevelType::Resistance
                    && levels@[t].performance == empty_performance(),
        decreases np - pi,
    {
        let p = tail_probs[pi];
        if 0 <= p && p < 1_000_000 {
            let tail: i64 = 1_000_000 - p;
            proof {
                assert(1 <= (tail as int) * (n as int) <= 10_000_000_000_000int)
                    by (nonlinear_arith)
                    requires
                        1 <= tail as int <= 1_000_000,
                        1 <= n as int <= 10_000_000,
                ;
            }
            if (tail as i128) * (n as i128) < (nu as i128) * 1_000_000 {
                proof {
                    assert((nu as int) * 1_000_000_000_000
                        >= ((n as int) * (tail as int)) * 1_000_000) by (nonlinear_arith)
                        requires
                            (tail as int) * (n as int) < (nu as int) * 1_000_000,
                            (tail as int) * (n as int) >= 1,
                    ;
                    assert((nu as int) * 1_000_000_000_000
                        <= ((n as int) * (tail as int)) * 1_000_000_000_000)
                        by (nonlinear_arith)
                        requires
                            nu as int <= n as int,
                            tail as int >= 1,
                            nu as int >= 0,
                            n as int >= 1,
                    ;
                    assert((n as int) * (tail as int) >= 1) by (nonlinear_arith)
                        requires
                            n as int >= 1,
                            tail as int >= 1,
                    ;
                    assert(0 <= (nu as int) * 1_000_000_000_000
                        <= 10_000_000_000_000_000_000int) by (nonlinear_arith)
                        requires
                            0 <= nu as int <= 10_000_000,
                    ;
                    let b = (n as int) * (tail as int);
                    vstd::arithmetic::div_mod::lemma_div_is_ordered(
                        b * 1_000_000, (nu as int) * 1_000_000_000_000, b);
                    vstd::arithmetic::div_mod::lemma_div_multiples_vanish(1_000_000, b);
                    assert(b * 1_000_000 == 1_000_000 * b) by (nonlinear_arith);
                    vstd::arithmetic::div_mod::lemma_div_is_ordered(
                        (nu as int) * 1_000_000_000_000, b * 1_000_000_000_000, b);
                    vstd::arithmetic::div_mod::lemma_div_multiples_vanish(1_000_000_000_000, b);
                    assert(b * 1_000_000_000_000 == 1_000_000_000_000 * b)
                        by (nonlinear_arith);
                }
                let ratio: i128 = div_nn_i128(
                    (nu as i128) * 1_000_000_000_000,
                    (n as i128) * (tail as i128),
                );
                assert(1_000_000 <= ratio <= 1_000_000_000_000);
                assert(ratio as int == spec_ratio(nu as int, n as int, tail as int));
                let lnr: i64 = ln_scaled(ratio);

                let mut proj0: i128;
                if -1 <= shape && shape <= 1 {
                    proof {
                        assert(fit.scale <= 10_000_010_000int) by (nonlinear_arith)
                            requires
                                fit.scale * 1_000_000
                                    <= (PRICE_CAP as int) * (1_000_000 - fit.shape),
                                -1 <= fit.shape <= 1,
                                fit.scale >= 1,
                        ;
                        assert(0 <= fit.scale * (lnr as int)
                            <= 10_000_010_000int * 20_000_000) by (nonlinear_arith)
                            requires
                                1 <= fit.scale <= 10_000_010_000int,
                                0 <= lnr as int <= 20_000_000,
                        ;
                        lemma_avg_bound(fit.scale * (lnr as int), 1_000_000,
                            10_000_010_000int * 20_000_000);
                    }
                    proj0 = (threshold as i128) + div_nn_i128(scale * (lnr as i128), 1_000_000);
                } else {
                    let y: i128 = if shape >= 0 {
                        proof {
                            assert(0 <= (fit.shape) * (lnr as int) <= 500_000 * 20_000_000)
                                by (nonlinear_arith)
                                requires
                                    0 <= fit.shape <= 500_000,
                                    0 <= lnr as int <= 20_000_000,
                            ;
                            lemma_avg_bound(fit.shape * (lnr as int), 1_000_000, 10_000_000);
                        }
                        div_nn_i128(shape * (lnr as i128), 1_000_000)
                    } else {
                        proof {
                            assert(0 <= (-fit.shape) * (lnr as int)
                                <= 50_000_000_000_000_000_000_000_000int * 20_000_000)
                                by (nonlinear_arith)
                                requires
                                    0 <= -fit.shape <= 50_000_000_000_000_000_000_000_000int,
                                    0 <= lnr as int <= 20_000_000,
                            ;
                            lemma_avg_bound((-fit.shape) * (lnr as int), 1_000_000,
                                1_000_000_000_000_000_000_000_000_000int);
                        }
                        -div_nn_i128((-shape) * (lnr as i128), 1_000_000)
                    };
                    proof {
                        if fit.shape >= 0 {
                            assert(fit.shape * (lnr as int) >= 0) by (nonlinear_arith)
                                requires
                                    fit.shape >= 0,
                                    lnr as int >= 0,
                            ;
                        } else {
                            assert((-fit.shape) * (lnr as int) == -(fit.shape * (lnr as int)))
                                by (nonlinear_arith);
                            assert(fit.shape * (lnr as int) <= 0) by (nonlinear_arith)
                                requires
                                    fit.shape < 0,
                                    lnr as int >= 0,
                            ;
                        }
                        assert(y as int == tdiv(fit.shape * (lnr as int), 1_000_000));
                    }
                    let inner: i128 = if y >= 0 {
                        assert(0 <= y <= 10_000_000);
                        exp_pos(y as i64) as i128
                    } else {
                        exp_neg(-y) as i128
                    };
                    let q: i128 = if shape > 0 {
                        proof {
                            assert(0 <= fit.scale * 1_000_000
                                <= 10_000_000_000_000_000int) by (nonlinear_arith)
                                requires
                                    1 <= fit.scale <= (mean as int),
                                    mean as int <= 10_000_000_000,
                            ;
                        }
                        div_nn_i128(scale * 1_000_000, shape)
                    } else {
                        proof {
                            let negxi = -fit.shape;
                            assert(fit.scale * 1_000_000
                                <= negxi * ((mean as int) * 1_000_000 + mean as int))
                                by (nonlinear_arith)
                                requires
                                    fit.scale * 1_000_000
                                        <= (mean as int) * (1_000_000 + negxi),
                                    negxi >= 2,
                                    mean as int >= 1,
                            ;
                            assert(0 <= fit.scale * 1_000_000) by (nonlinear_arith)
                                requires
                                    fit.scale >= 0,
                            ;
                            vstd::arithmetic::div_mod::lemma_div_is_ordered(
                                fit.scale * 1_000_000,
                                negxi * ((mean as int) * 1_000_000 + mean as int), negxi);
                            vstd::arithmetic::div_mod::lemma_div_multiples_vanish(
                                (mean as int) * 1_000_000 + mean as int, negxi);
                            assert(negxi * ((mean as int) * 1_000_000 + mean as int)
                                == ((mean as int) * 1_000_000 + mean as int) * negxi)
                                by (nonlinear_arith);
                        }
                        -div_nn_i128(scale * 1_000_000, -shape)
                    };
                    proof {
                        assert(0 <= (if q >= 0 { q as int } else { -(q as int) })
                            <= (mean as int) * 1_000_000 + mean as int);
                        assert((mean as int) * 1_000_000 + mean as int
                            <= 10_000_010_000_000_000int) by (nonlinear_arith)
                            requires
                                1 <= mean as int <= 10_000_000_000,
                        ;
                        if fit.shape > 1 {
                            crate::math::lemma_exp_pos_bounds(y as int);
                            assert(0 <= (q as int) * (inner as int - 1_000_000_000)
                                <= 1_000_000_000int * 7_700_000_000_000_000_000_000int)
                                by (nonlinear_arith)
                                requires
                                    0 <= q as int <= 10_000_010_000_000_000int,
                                    1_000_000_000 <= inner as int <= 768_000_000_000_000int,
                            ;
                        } else {
                            if y == 0 {
                                crate::math::lemma_exp_pos_zero();
                            } else {
                                crate::math::lemma_exp_neg_bounds(-(y as int));
                            }
                            assert(0 <= (q as int) * (inner as int - 1_000_000_000)
                                <= 1_000_000_000int * 7_700_000_000_000_000_000_000int)
                                by (nonlinear_arith)
                                requires
                                    -10_000_010_000_000_000int <= q as int <= 0,
                                    0 <= inner as int <= 1_000_000_000,
                            ;
                        }
                        lemma_avg_bound((q as int) * (inner as int - 1_000_000_000),
                            1_000_000_000, 7_700_000_000_000_000_000_000int);
                    }
                    proj0 = (threshold as i128)
                        + div_nn_i128(q * (inner - 1_000_000_000), 1_000_000_000);
                }
                let step_band: i128 = if confidence_band >= 10_000 {
                    confidence_band as i128
                } else {
                    10_000
                };
                let cap: i128 = (max_high as i128) + step_band * 5;
                let proj: i128 = if proj0 <= cap { proj0 } else { cap };
                proof {
                    assert(proj as int
                        == imin(spec_projected(threshold, fit, lnr as int),
                            max_high as int + imax(confidence_band as int, 10_000) * 5));
                }
                if proj > threshold as i128 && proj > current_price as i128 {
                    let projected: i64 = proj as i64;
                    let band_final: i64 = if confidence_band > 0 {
                        confidence_band
                    } else {
                        let pa = if projected >= 0 { projected } else { -projected };
                        let fb = pa / 1000;
                        if fb >= 10_000 { fb } else { 10_000 }
                    };
                    let lvl = Level {
                        price: projected,
                        density: 0,
                        confidence: p,
                        confidence_band: band_final,
                        level_type: LevelType::Resistance,
                        performance: PerformanceStats::empty(),
                        distance_from_last: projected - current_price,
                    };
                    proof {
                        assert(Some(lvl) == spec_level_for_prob(p, fit, nu as int, n as int,
                            threshold, max_high, confidence_band, current_price));
                    }
                    levels.push(lvl);
                }
            }
        }
        pi = pi + 1;
    }

    if levels.len() == 0 {
        let step: i64 = if confidence_band >= 10_000 { confidence_band } else { 10_000 };
        let a1: i128 = (max_high as i128) + step as i128;
        let a5: i128 = (max_high as i128) + (step as i128) * 5;
        let f0: i128 = if a1 <= a5 { a1 } else { a5 };
        let f: i128 = if f0 <= current_price as i128 {
            let c1: i128 = (current_price as i128) + step as i128;
            if c1 <= a5 { c1 } else { a5 }
        } else {
            f0
        };
        let fprice: i64 = f as i64;
        let c0: i64 = if tail_probs.len() > 0 { tail_probs[0] } else { 990_000 };
        let conf: i64 = if c0 < 0 { 0 } else if c0 > 1_000_000 { 1_000_000 } else { c0 };
        let band_final: i64 = if confidence_band > 0 {
            confidence_band
        } else {
            let pa = if fprice >= 0 { fprice } else { -fprice };
            let fb = pa / 1000;
            if fb >= 10_000 { fb } else { 10_000 }
        };
        let dist: i64 = if fprice >= current_price {
            fprice - current_price
        } else {
            current_price - fprice
        };
        let lvl = Level {
            price: fprice,
            density: 0,
            confidence: conf,
            confidence_band: band_final,
            level_type: LevelType::Resistance,
            performance: PerformanceStats::empty(),
            distance_from_last: dist,
        };
        proof {
            assert(lvl == spec_fallback_level(tail_probs@, max_high, confidence_band,
                current_price));
        }
        levels.push(lvl);
    }

    let ghost lv = levels@;
    let sorted = sort_levels_by_confidence(levels);
    proof {
        let highs_s = spec_highs(bars@);
        let n_s = bars@.len() as int;
        let t_idx_s = iclamp(n_s * threshold_quantile / 1_000_000, 0, n_s - 1);
        assert(highs@ == highs_s);
        assert(threshold == highs_s[t_idx_s]);
        assert(max_high == highs_s.last());
        let exc_s = spec_exceedances(highs_s, threshold, n_s);
        assert(exceedances@ == exc_s);
        let nu_s = exc_s.len() as int;
        assert(nu as int == nu_s);
        let mean_s = spec_sum_i64(exc_s, nu_s) / nu_s;
        assert(mean as int == mean_s);
        let var_s = spec_sq_dev_sum(exc_s, mean_s, nu_s) / imax(nu_s - 1, 1);
        assert(variance as int == var_s);
        assert(fit == spec_gpd(mean_s, var_s));
        let collected_s = spec_evt_upto(tail_probs@, fit, nu_s, n_s, threshold, max_high,
            confidence_band, current_price, tail_probs@.len() as int);
        let with_fb = if collected_s.len() == 0 {
            seq![spec_fallback_level(tail_probs@, max_high, confidence_band, current_price)]
        } else {
            collected_s
        };
        assert(lv =~= with_fb);
        assert(sorted@ == spec_sort_by(lt_level_confidence(), with_fb));
        assert(spec_evt_resistances(bars@, tail_probs@, threshold_quantile, confidence_band,
            current_price) == spec_sort_by(lt_level_confidence(), with_fb));
        assert(sorted@ == spec_evt_resistances(bars@, tail_probs@, threshold_quantile,
            confidence_band, current_price));
        assert forall|t: int| 0 <= t < sorted@.len()
            implies level_wf(#[trigger] sorted@[t])
                && sorted@[t].level_type == LevelType::Resistance
                && sorted@[t].performance == empty_performance() by {
            assert(sorted@.contains(sorted@[t]));
        };
    }
    sorted
}

} // verus!
