//! Orchestration of the analytical pipeline: series validation, trading
//! window filters, the adaptive swing-detection search, regime
//! combination, and the end-to-end analysis entry point.

use vstd::prelude::*;
use crate::data::{Bar, SwingPoint, Level, DensityPoint, RthWindow, bars_wf, bar_wf, swings_wf,
    swing_wf, level_wf, empty_performance, PRICE_CAP, SERIES_CAP, SECONDS_PER_DAY,
    LEVEL_PRICE_CAP};
use crate::config::{AppConfig, config_wf};
use crate::density::DensityAnalysis;
use crate::math::{spec_exp_neg, exp_neg};
use crate::util::{imax, imin, iabs, iclamp, tdiv, lemma_avg_bound, div_nn_i128, copy_bars, copy_levels,
    copy_swings, max_i64, max_usize};

verus! {

/// Why a series or an analysis window was rejected.
#[derive(Debug, Clone, Copy, PartialEq, Eq, Structural)]
pub enum AnalysisError {
    /// Fewer than ten bars remain after filtering.
    TooFewBars,
    /// Timestamps do not strictly increase.
    NonMonotonicTimestamps,
    /// No bars remain after the trading-hours filter.
    EmptyTradingWindow,
    /// The analysis window holds fewer bars than the cluster minimum.
    InsufficientWindow,
    /// Too few swing points even after the full relaxation search.
    InsufficientSwings,
    /// Density estimation produced no grid.
    EmptyDensity,
    /// No density peaks were detected.
    NoPeaks,
}

/// Whether the timestamps of a series strictly increase.
pub open spec fn strictly_increasing(bars: Seq<Bar>) -> bool {
    forall|i: int| 0 <= i < bars.len() - 1
        ==> (#[trigger] bars[i]).timestamp < bars[i + 1].timestamp
}

/// Check that a series is long enough and strictly ordered in time.
pub fn validate_series(bars: &Vec<Bar>) -> (r: Result<(), AnalysisError>)
    ensures
        bars@.len() < 10 ==> r == Result::<(), AnalysisError>::Err(AnalysisError::TooFewBars),
        bars@.len() >= 10 && !strictly_increasing(bars@)
            ==> r == Result::<(), AnalysisError>::Err(AnalysisError::NonMonotonicTimestamps),
        bars@.len() >= 10 && strictly_increasing(bars@)
            ==> r == Result::<(), AnalysisError>::Ok(()),
{
    if bars.len() < 10 {
        return Err(AnalysisError::TooFewBars);
    }
    let mut i: usize = 0;
    while i < bars.len() - 1
        invariant
            bars@.len() >= 10,
            i <= bars@.len() - 1,
            forall|j: int| 0 <= j < i as int
                ==> (#[trigger] bars@[j]).timestamp < bars@[j + 1].timestamp,
        decreases bars@.len() - i,
    {
        if bars[i + 1].timestamp <= bars[i].timestamp {
            assert(!strictly_increasing(bars@)) by {
                assert(!(bars@[i as int].timestamp < bars@[i as int + 1].timestamp));
            };
            return Err(AnalysisError::NonMonotonicTimestamps);
        }
        i = i + 1;
    }
    Ok(())
}

/// Bars whose time of day lies inside the trading window, in order.
pub open spec fn spec_filter_rth(bars: Seq<Bar>, rth: RthWindow, i: int) -> Seq<Bar>
    decreases i,
{
    if i <= 0 {
        Seq::empty()
    } else if rth.start <= bars[i - 1].second_of_day < rth.end {
        spec_filter_rth(bars, rth, i - 1).push(bars[i - 1])
    } else {
        spec_filter_rth(bars, rth, i - 1)
    }
}

/// Keep the bars inside the regular trading hours window.
pub fn filter_rth(bars: &Vec<Bar>, rth: RthWindow) -> (r: Vec<Bar>)
    requires
        bars_wf(bars@),
    ensures
        r@ == spec_filter_rth(bars@, rth, bars@.len() as int),
        bars_wf(r@),
        r@.len() <= bars@.len(),
{
    let mut out: Vec<Bar> = Vec::new();
    let mut i: usize = 0;
    while i < bars.len()
        invariant
            bars_wf(bars@),
            i <= bars@.len(),
            out@ == spec_filter_rth(bars@, rth, i as int),
            out@.len() <= i as int,
            forall|j: int| 0 <= j < out@.len() ==> bar_wf(#[trigger] out@[j]),
        decreases bars@.len() - i,
    {
        let b = bars[i];
        assert(bar_wf(bars@[i as int]));
        if rth.contains(b.second_of_day) {
            out.push(b);
        }
        i = i + 1;
    }
    out
}

/// Bars within the lookback window ending at the last bar's timestamp.
pub open spec fn spec_filter_lookback(bars: Seq<Bar>, cutoff: int, i: int) -> Seq<Bar>
    decreases i,
{
    if i <= 0 {
        Seq::empty()
    } else if bars[i - 1].timestamp >= cutoff {
        spec_filter_lookback(bars, cutoff, i - 1).push(bars[i - 1])
    } else {
        spec_filter_lookback(bars, cutoff, i - 1)
    }
}

/// The cutoff timestamp of a lookback window over a series.
pub open spec fn spec_lookback_cutoff(bars: Seq<Bar>, lookback_days: int) -> int {
    bars.last().timestamp - lookback_days * SECONDS_PER_DAY
}

/// Keep the bars of the last `lookback_days` days; zero keeps everything.
/// A nonempty input always yields a nonempty result, because the last bar
/// is always within its own lookback.
pub fn filter_by_lookback(bars: &Vec<Bar>, lookback_days: usize) -> (r: Vec<Bar>)
    requires
        bars_wf(bars@),
        lookback_days <= 100_000,
    ensures
        bars@.len() == 0 || lookback_days == 0 ==> r@ == bars@,
        bars@.len() > 0 && lookback_days > 0 ==> r@ == spec_filter_lookback(
            bars@, spec_lookback_cutoff(bars@, lookback_days as int), bars@.len() as int),
        bars_wf(r@),
        r@.len() <= bars@.len(),
        bars@.len() > 0 ==> r@.len() > 0 && r@.last() == bars@.last(),
        strictly_increasing(bars@) ==> strictly_increasing(r@),
{
    if bars.len() == 0 || lookback_days == 0 {
        let r = copy_bars(bars);
        proof {
            if bars@.len() > 0 {
                assert(r@.last() == bars@.last());
            }
        }
        return r;
    }
    let last = bars[bars.len() - 1];
    proof {
        assert(bar_wf(bars@[bars@.len() - 1]));
        assert(0 <= (lookback_days as int) * SECONDS_PER_DAY <= 8_640_000_000)
            by (nonlinear_arith)
            requires
                0 <= lookback_days as int <= 100_000,
        ;
    }
    let cutoff: i64 = last.timestamp - (lookback_days as i64) * (SECONDS_PER_DAY);
    let mut out: Vec<Bar> = Vec::new();
    let mut i: usize = 0;
    while i < bars.len()
        invariant
            bars_wf(bars@),
            i <= bars@.len(),
            out@ == spec_filter_lookback(bars@, cutoff as int, i as int),
            out@.len() <= i as int,
            forall|j: int| 0 <= j < out@.len() ==> bar_wf(#[trigger] out@[j]),
        decreases bars@.len() - i,
    {
        let b = bars[i];
        assert(bar_wf(bars@[i as int]));
        if b.timestamp >= cutoff {
            out.push(b);
        }
        i = i + 1;
    }
    proof {
        assert(bars@.last().timestamp >= cutoff as int);
        if strictly_increasing(bars@) {
            lemma_lookback_keeps_order(bars@, cutoff as int, bars@.len() as int);
        }
        lemma_lookback_last(bars@, cutoff as int, bars@.len() as int);
    }
    out
}

/// The lookback filter keeps a subsequence: when the source strictly
/// increases in time, so does the result.
proof fn lemma_lookback_keeps_order(bars: Seq<Bar>, cutoff: int, i: int)
    requires
        0 <= i <= bars.len(),
        strictly_increasing(bars),
    ensures
        strictly_increasing(spec_filter_lookback(bars, cutoff, i)),
        forall|j: int| 0 <= j < spec_filter_lookback(bars, cutoff, i).len()
            ==> (#[trigger] spec_filter_lookback(bars, cutoff, i)[j]).timestamp
                <= bars[i - 1].timestamp,
    decreases i,
{
    if i > 0 {
        lemma_lookback_keeps_order(bars, cutoff, i - 1);
        let prev = spec_filter_lookback(bars, cutoff, i - 1);
        if bars[i - 1].timestamp >= cutoff {
            assert forall|j: int| 0 <= j < prev.len()
                implies (#[trigger] prev[j]).timestamp < bars[i - 1].timestamp by {
                if i >= 2 {
                    assert(prev[j].timestamp <= bars[i - 2].timestamp);
                    assert(bars[i - 2].timestamp < bars[i - 1].timestamp);
                }
            };
        } else {
            assert forall|j: int| 0 <= j < prev.len()
                implies (#[trigger] prev[j]).timestamp <= bars[i - 1].timestamp by {
                if i >= 2 {
                    assert(prev[j].timestamp <= bars[i - 2].timestamp);
                }
            };
        }
    }
}

/// When the last bar passes the cutoff, it ends the filtered sequence.
proof fn lemma_lookback_last(bars: Seq<Bar>, cutoff: int, i: int)
    requires
        1 <= i <= bars.len(),
        bars[i - 1].timestamp >= cutoff,
    ensures
        spec_filter_lookback(bars, cutoff, i).len() >= 1,
        spec_filter_lookback(bars, cutoff, i).last() == bars[i - 1],
{
}

/// The alternative windows other than the requested one, among the first
/// `i` rungs of the relaxation ladder.
pub open spec fn spec_alt_lookbacks(alts: Seq<usize>, requested: int, i: int) -> Seq<usize>
    decreases i,
{
    if i <= 0 {
        Seq::empty()
    } else if alts[i - 1] as int != requested {
        spec_alt_lookbacks(alts, requested, i - 1).push(alts[i - 1])
    } else {
        spec_alt_lookbacks(alts, requested, i - 1)
    }
}

/// The fixed relaxation ladder of alternative lookback windows.
pub open spec fn spec_lookback_ladder() -> Seq<usize> {
    seq![60usize, 45usize, 30usize, 20usize, 15usize, 10usize, 5usize, 0usize]
}

/// The candidate lookback windows, most specific first: the requested
/// window, then the fixed relaxation ladder, ending in the full history.
pub open spec fn spec_candidate_lookbacks(requested: int) -> Seq<usize> {
    if requested == 0 {
        seq![0usize, 90usize, 60usize, 45usize, 30usize, 20usize, 15usize, 10usize, 5usize]
    } else {
        seq![requested as usize]
            + spec_alt_lookbacks(spec_lookback_ladder(), requested, 8)
    }
}

/// Build the ordered list of lookback windows to try.
pub fn candidate_lookbacks(requested: usize) -> (r: Vec<usize>)
    ensures
        r@ == spec_candidate_lookbacks(requested as int),
        r@.len() >= 1,
        r@[0] == requested || (requested == 0 && r@[0] == 0),
        forall|i: int| 0 <= i < r@.len()
            ==> (#[trigger] r@[i]) as int <= imax(requested as int, 90),
{
    let mut windows: Vec<usize> = Vec::new();
    if requested == 0 {
        windows.push(0);
        windows.push(90);
        windows.push(60);
        windows.push(45);
        windows.push(30);
        windows.push(20);
        windows.push(15);
        windows.push(10);
        windows.push(5);
        proof {
            assert(windows@ =~= spec_candidate_lookbacks(requested as int));
        }
    } else {
        windows.push(requested);
        let alts: [usize; 8] = [60, 45, 30, 20, 15, 10, 5, 0];
        proof {
            assert(alts@ =~= spec_lookback_ladder());
        }
        let mut i: usize = 0;
        while i < 8
            invariant
                requested != 0,
                i <= 8,
                alts@ == spec_lookback_ladder(),
                windows@ == seq![requested]
                    + spec_alt_lookbacks(alts@, requested as int, i as int),
                forall|t: int| 0 <= t < windows@.len()
                    ==> (#[trigger] windows@[t]) as int <= imax(requested as int, 90),
            decreases 8 - i,
        {
            let a = alts[i];
            if a != requested {
                windows.push(a);
            }
            proof {
                assert(windows@ =~= seq![requested]
                    + spec_alt_lookbacks(alts@, requested as int, i as int + 1));
            }
            i = i + 1;
        }
        proof {
            assert(windows@ =~= spec_candidate_lookbacks(requested as int));
        }
    }
    windows
}

/// The descending ladder of EVT tail probabilities, in parts per million:
/// the clamped starting probability, then steps of 2500 ppm capped just
/// below one.
pub open spec fn spec_tail_probs(current: int, count: int) -> Seq<i64>
    decreases count,
{
    if count <= 0 {
        Seq::empty()
    } else {
        let capped = imin(current, 999_900);
        let next = if capped >= 999_900 { 999_900int } else { current + 2_500 };
        seq![capped as i64] + spec_tail_probs(next, count - 1)
    }
}

/// Build the EVT tail probabilities from the configured start.
pub fn build_evt_tail_probs(start: i64, max_levels: usize) -> (r: Vec<i64>)
    requires
        max_levels <= 1_000,
    ensures
        r@ == spec_tail_probs(crate::util::iclamp(start as int, 800_000, 999_900),
            max_levels as int),
        r@.len() == max_levels as int,
        forall|i: int| 0 <= i < r@.len() ==> 800_000 <= #[trigger] r@[i] <= 999_900,
{
    proof { lemma_tail_probs_range(crate::util::iclamp(start as int, 800_000, 999_900),
        max_levels as int); }
    let mut current: i64 = if start < 800_000 {
        800_000
    } else if start > 999_900 {
        999_900
    } else {
        start
    };
    let mut probs: Vec<i64> = Vec::new();
    let ghost start0 = current as int;
    while probs.len() < max_levels
        invariant
            max_levels <= 1_000,
            probs@.len() <= max_levels as int,
            800_000 <= current <= 1_002_400,
            spec_tail_probs(start0, max_levels as int)
                =~= probs@ + spec_tail_probs(current as int, (max_levels - probs@.len()) as int),
            forall|i: int| 0 <= i < probs@.len() ==> 800_000 <= #[trigger] probs@[i] <= 999_900,
        decreases max_levels - probs@.len(),
    {
        let capped: i64 = if current < 999_900 { current } else { 999_900 };
        probs.push(capped);
        if capped >= 999_900 {
            current = 999_900;
        } else {
            current = current + 2_500;
        }
        proof {
            assert(spec_tail_probs(start0, max_levels as int)
                =~= probs@ + spec_tail_probs(current as int,
                    (max_levels - probs@.len()) as int));
        }
    }
    proof {
        assert(probs@ + spec_tail_probs(current as int, 0) =~= probs@);
        assert(probs@ =~= spec_tail_probs(start0, max_levels as int));
    }
    probs
}

proof fn lemma_tail_probs_range(current: int, count: int)
    requires
        800_000 <= current,
    ensures
        spec_tail_probs(current, count).len() == if count <= 0 { 0int } else { count },
        forall|i: int| 0 <= i < spec_tail_probs(current, count).len()
            ==> 800_000 <= (#[trigger] spec_tail_probs(current, count)[i]) <= 999_900,
    decreases count,
{
    if count > 0 {
        let capped = imin(current, 999_900);
        let next = if capped >= 999_900 { 999_900int } else { current + 2_500 };
        lemma_tail_probs_range(next, count - 1);
    }
}

/// The all-time high and the moment it was set.
#[derive(Debug, Clone, Copy, PartialEq, Eq, Structural)]
pub struct AthContext {
    pub price: i64,
    pub timestamp: i64,
}

/// The bar with the largest high among the first `i`; later bars win
/// ties.
pub open spec fn spec_ath(bars: Seq<Bar>, i: int) -> Bar
    decreases i,
{
    if i <= 1 {
        bars[0]
    } else if bars[i - 1].high >= spec_ath(bars, i - 1).high {
        bars[i - 1]
    } else {
        spec_ath(bars, i - 1)
    }
}

/// Find the all-time high of the series.
pub fn compute_ath(bars: &Vec<Bar>) -> (r: Option<AthContext>)
    requires
        bars_wf(bars@),
    ensures
        bars@.len() == 0 ==> r is None,
        bars@.len() > 0 ==> r == Some(AthContext {
            price: spec_ath(bars@, bars@.len() as int).high,
            timestamp: spec_ath(bars@, bars@.len() as int).timestamp,
        }),
{
    if bars.len() == 0 {
        return None;
    }
    let mut best = bars[0];
    let mut i: usize = 1;
    while i < bars.len()
        invariant
            bars_wf(bars@),
            1 <= i <= bars@.len(),
            best == spec_ath(bars@, i as int),
        decreases bars@.len() - i,
    {
        let b = bars[i];
        if b.high >= best.high {
            best = b;
        }
        i = i + 1;
    }
    Some(AthContext { price: best.high, timestamp: best.timestamp })
}

/// A swing with its bar volume decayed by the age of the bar: half the
/// weight is lost per half life.
pub open spec fn spec_weighted_swing(s: SwingPoint, reference: i64, half_life_days: i64)
    -> SwingPoint {
    let age_seconds = imax(reference - s.bar.timestamp, 0);
    let arg = 693_147 * age_seconds / (SECONDS_PER_DAY * imax(half_life_days as int, 1));
    let decay_ppm = imax(spec_exp_neg(arg) / 1000, 100);
    SwingPoint {
        bar: Bar { volume: (imax(s.bar.volume as int, 1) * decay_ppm / 1_000_000) as i64, ..s.bar },
        ..s
    }
}

/// Reweight the swings so that recent bars count for more in the density
/// estimate.
pub fn apply_recency_weighting(
    swings: &Vec<SwingPoint>,
    reference: i64,
    half_life_days: i64,
) -> (r: Vec<SwingPoint>)
    requires
        swings_wf(swings@),
        0 <= reference <= 100_000_000_000,
        1 <= half_life_days <= 100_000,
    ensures
        r@.len() == swings@.len(),
        forall|i: int| 0 <= i < r@.len()
            ==> #[trigger] r@[i] == spec_weighted_swing(swings@[i], reference, half_life_days),
        swings_wf(r@),
{
    let mut out: Vec<SwingPoint> = Vec::new();
    let mut i: usize = 0;
    while i < swings.len()
        invariant
            swings_wf(swings@),
            0 <= reference <= 100_000_000_000,
            1 <= half_life_days <= 100_000,
            i <= swings@.len(),
            out@.len() == i as int,
            forall|j: int| 0 <= j < i as int
                ==> #[trigger] out@[j] == spec_weighted_swing(swings@[j], reference,
                    half_life_days),
            forall|j: int| 0 <= j < out@.len() ==> swing_wf(#[trigger] out@[j]),
        decreases swings@.len() - i,
    {
        let s = swings[i];
        assert(swing_wf(swings@[i as int]));
        let age_seconds: i64 = if reference >= s.bar.timestamp {
            reference - s.bar.timestamp
        } else {
            0
        };
        let hl: i64 = if half_life_days >= 1 { half_life_days } else { 1 };
        proof {
            assert(0 <= 693_147 * (age_seconds as int) <= 69_314_700_000_000_000int)
                by (nonlinear_arith)
                requires
                    0 <= age_seconds as int <= 100_000_000_000,
            ;
            assert(SECONDS_PER_DAY * (hl as int) >= 86_400) by (nonlinear_arith)
                requires
                    hl as int >= 1,
            ;
        }
        let arg: i128 = div_nn_i128(
            693_147 * (age_seconds as i128),
            (SECONDS_PER_DAY as i128) * (hl as i128),
        );
        let decay_1e9: i64 = exp_neg(arg);
        let decay_ppm: i64 = max_i64(decay_1e9 / 1000, 100);
        let w: i64 = max_i64(s.bar.volume, 1);
        proof {
            assert(0 <= (w as int) * (decay_ppm as int)
                <= 1_000_000_000int * 1_000_000) by (nonlinear_arith)
                requires
                    0 <= w as int <= 1_000_000_000,
                    0 <= decay_ppm as int <= 1_000_000,
            ;
            lemma_avg_bound((w as int) * (decay_ppm as int), 1_000_000, 1_000_000_000);
        }
        let new_volume: i64 = div_nn_i128((w as i128) * (decay_ppm as i128), 1_000_000) as i64;
        let weighted = SwingPoint {
            bar: Bar { volume: new_volume, ..s.bar },
            ..s
        };
        proof {
            assert(weighted == spec_weighted_swing(swings@[i as int], reference,
                half_life_days));
        }
        out.push(weighted);
        i = i + 1;
    }
    out
}

/// A level entering the combination: confidence scaled by the regime
/// weight, performance reset.
pub open spec fn spec_scaled_level(l: Level, weight: i64) -> Level {
    Level {
        confidence: (l.confidence * weight / 1_000_000) as i64,
        performance: empty_performance(),
        ..l
    }
}

/// First index of a combined level within the merge tolerance of `price`,
/// or -1.
pub open spec fn spec_find_merge(combined: Seq<Level>, price: i64, tol: i64, i: int) -> int
    decreases combined.len() - i,
{
    if i < 0 || i >= combined.len() {
        -1
    } else if iabs(combined[i].price - price) <= tol {
        i
    } else {
        spec_find_merge(combined, price, tol, i + 1)
    }
}

/// Fold one secondary level into the combined set: merge it into the
/// first level within tolerance by confidence-weighted price averaging,
/// or append it.
pub open spec fn spec_merge_one(combined: Seq<Level>, l: Level, tol: i64) -> Seq<Level> {
    let idx = spec_find_merge(combined, l.price, tol, 0);
    if idx == -1 {
        combined.push(l)
    } else {
        let e = combined[idx];
        let total = e.confidence + l.confidence;
        if total > 0 {
            combined.update(idx, Level {
                price: tdiv(e.price * e.confidence + l.price * l.confidence, total) as i64,
                confidence: total as i64,
                confidence_band: ((e.confidence_band + l.confidence_band) / 2) as i64,
                ..e
            })
        } else {
            combined
        }
    }
}

/// The combined set after folding in the first `i` secondary levels.
pub open spec fn spec_combine_upto(
    primary: Seq<Level>,
    secondary: Seq<Level>,
    primary_weight: i64,
    secondary_weight: i64,
    tol: i64,
    i: int,
) -> Seq<Level>
    decreases i,
{
    if i <= 0 {
        primary.map_values(|l: Level| spec_scaled_level(l, primary_weight))
    } else {
        spec_merge_one(
            spec_combine_upto(primary, secondary, primary_weight, secondary_weight, tol, i - 1),
            spec_scaled_level(secondary[i - 1], secondary_weight),
            tol,
        )
    }
}

/// Bounds preserved by the combination, parameterised by how many
/// secondary levels have been folded in.
pub open spec fn combined_wf(s: Seq<Level>, folded: int) -> bool {
    forall|k: int| 0 <= k < s.len() ==> {
        let l = #[trigger] s[k];
        &&& -LEVEL_PRICE_CAP <= l.price <= LEVEL_PRICE_CAP
        &&& 0 < l.confidence_band <= LEVEL_PRICE_CAP
        &&& 0 <= l.confidence <= (folded + 1) * 1_000_000
        &&& 0 <= l.distance_from_last
        &&& 0 <= l.density
        &&& l.performance == empty_performance()
    }
}

/// A confidence-weighted mean of two in-range prices stays in range.
proof fn lemma_two_point_mean(p1: int, c1: int, p2: int, c2: int)
    requires
        -LEVEL_PRICE_CAP <= p1 <= LEVEL_PRICE_CAP,
        -LEVEL_PRICE_CAP <= p2 <= LEVEL_PRICE_CAP,
        0 <= c1,
        0 <= c2,
        c1 + c2 > 0,
    ensures
        -LEVEL_PRICE_CAP <= tdiv(p1 * c1 + p2 * c2, c1 + c2) <= LEVEL_PRICE_CAP,
{
    let t = c1 + c2;
    assert((-(LEVEL_PRICE_CAP as int)) * t <= p1 * c1 + p2 * c2
        && p1 * c1 + p2 * c2 <= (LEVEL_PRICE_CAP as int) * t) by (nonlinear_arith)
        requires
            -(LEVEL_PRICE_CAP as int) <= p1 <= LEVEL_PRICE_CAP as int,
            -(LEVEL_PRICE_CAP as int) <= p2 <= LEVEL_PRICE_CAP as int,
            0 <= c1,
            0 <= c2,
            t == c1 + c2,
    ;
    vstd::arithmetic::div_mod::lemma_div_is_ordered((-(LEVEL_PRICE_CAP as int)) * t,
        p1 * c1 + p2 * c2, t);
    vstd::arithmetic::div_mod::lemma_div_is_ordered(p1 * c1 + p2 * c2,
        (LEVEL_PRICE_CAP as int) * t, t);
    vstd::arithmetic::div_mod::lemma_div_multiples_vanish(-(LEVEL_PRICE_CAP as int), t);
    vstd::arithmetic::div_mod::lemma_div_multiples_vanish(LEVEL_PRICE_CAP as int, t);
    assert((LEVEL_PRICE_CAP as int) * t == t * (LEVEL_PRICE_CAP as int)) by (nonlinear_arith);
    let s = p1 * c1 + p2 * c2;
    assert((-(LEVEL_PRICE_CAP as int)) * t == -((LEVEL_PRICE_CAP as int) * t))
        by (nonlinear_arith);
    if s >= 0 {
        vstd::arithmetic::div_mod::lemma_div_pos_is_pos(s, t);
        vstd::arithmetic::div_mod::lemma_div_is_ordered(s, (LEVEL_PRICE_CAP as int) * t, t);
        vstd::arithmetic::div_mod::lemma_div_multiples_vanish(LEVEL_PRICE_CAP as int, t);
    } else {
        vstd::arithmetic::div_mod::lemma_div_pos_is_pos(-s, t);
        vstd::arithmetic::div_mod::lemma_div_is_ordered(-s, (LEVEL_PRICE_CAP as int) * t, t);
        vstd::arithmetic::div_mod::lemma_div_multiples_vanish(LEVEL_PRICE_CAP as int, t);
    }
}

/// Merge a recent and a full-history level set: primary levels keep
/// priority, nearby secondary levels fold in by confidence-weighted price
/// averaging, the rest are appended; the result descends by confidence.
pub fn combine_level_sets(
    primary: Vec<Level>,
    secondary: Vec<Level>,
    primary_weight: i64,
    secondary_weight: i64,
    merge_tolerance: i64,
) -> (r: Vec<Level>)
    requires
        forall|k: int| 0 <= k < primary@.len() ==> level_wf(#[trigger] primary@[k])
            && primary@[k].confidence <= 1_000_000,
        forall|k: int| 0 <= k < secondary@.len() ==> level_wf(#[trigger] secondary@[k])
            && secondary@[k].confidence <= 1_000_000,
        0 <= primary_weight <= 1_000_000,
        0 <= secondary_weight <= 1_000_000,
        0 <= merge_tolerance,
        primary@.len() <= 2_000_000,
        secondary@.len() <= 2_000_000,
    ensures
        r@ == crate::sort::spec_sort_by(crate::sort::lt_level_confidence(),
            spec_combine_upto(primary@, secondary@, primary_weight, secondary_weight,
                merge_tolerance, secondary@.len() as int)),
        forall|k: int| 0 <= k < r@.len() ==> level_wf(#[trigger] r@[k]),
        forall|k: int| 0 <= k < r@.len()
            ==> (#[trigger] r@[k]).performance == empty_performance(),
        crate::sort::sorted_ord(crate::sort::lt_level_confidence(), r@),
{
    let mut combined: Vec<Level> = Vec::new();
    let mut i: usize = 0;
    while i < primary.len()
        invariant
            forall|k: int| 0 <= k < primary@.len() ==> level_wf(#[trigger] primary@[k])
                && primary@[k].confidence <= 1_000_000,
            0 <= primary_weight <= 1_000_000,
            i <= primary@.len(),
            combined@ == primary@.take(i as int).map_values(
                |l: Level| spec_scaled_level(l, primary_weight),
            ),
            combined_wf(combined@, 0),
        decreases primary@.len() - i,
    {
        let l = primary[i];
        assert(level_wf(primary@[i as int]));
        proof {
            assert(0 <= (l.confidence as int) * (primary_weight as int)
                <= 1_000_000_000_000int) by (nonlinear_arith)
                requires
                    0 <= l.confidence as int <= 1_000_000,
                    0 <= primary_weight as int <= 1_000_000,
            ;
            lemma_avg_bound((l.confidence as int) * (primary_weight as int), 1_000_000,
                1_000_000);
        }
        let scaled = Level {
            confidence: div_nn_i128((l.confidence as i128) * (primary_weight as i128),
                1_000_000) as i64,
            performance: crate::data::PerformanceStats::empty(),
            ..l
        };
        proof {
            assert(scaled == spec_scaled_level(primary@[i as int], primary_weight));
        }
        combined.push(scaled);
        proof {
            assert(primary@.take(i as int + 1).map_values(
                |l: Level| spec_scaled_level(l, primary_weight),
            ) =~= combined@);
        }
        i = i + 1;
    }
    proof { assert(primary@.take(primary@.len() as int) =~= primary@); }

    let mut si: usize = 0;
    while si < secondary.len()
        invariant
            forall|k: int| 0 <= k < secondary@.len() ==> level_wf(#[trigger] secondary@[k])
                && secondary@[k].confidence <= 1_000_000,
            0 <= secondary_weight <= 1_000_000,
            0 <= merge_tolerance,
            secondary@.len() <= 2_000_000,
            si <= secondary@.len(),
            combined@ == spec_combine_upto(primary@, secondary@, primary_weight,
                secondary_weight, merge_tolerance, si as int),
            combined_wf(combined@, si as int),
        decreases secondary@.len() - si,
    {
        let sl = secondary[si];
        assert(level_wf(secondary@[si as int]));
        proof {
            assert(0 <= (sl.confidence as int) * (secondary_weight as int)
                <= 1_000_000_000_000int) by (nonlinear_arith)
                requires
                    0 <= sl.confidence as int <= 1_000_000,
                    0 <= secondary_weight as int <= 1_000_000,
            ;
            lemma_avg_bound((sl.confidence as int) * (secondary_weight as int), 1_000_000,
                1_000_000);
        }
        let scaled = Level {
            confidence: div_nn_i128((sl.confidence as i128) * (secondary_weight as i128),
                1_000_000) as i64,
            performance: crate::data::PerformanceStats::empty(),
            ..sl
        };
        proof {
            assert(scaled == spec_scaled_level(secondary@[si as int], secondary_weight));
        }

        let mut idx: usize = 0;
        let mut found: bool = false;
        while idx < combined.len() && !found
            invariant
                idx <= combined@.len(),
                combined_wf(combined@, si as int),
                si < secondary@.len(),
                secondary@.len() <= 2_000_000,
                -LEVEL_PRICE_CAP <= scaled.price <= LEVEL_PRICE_CAP,
                0 <= scaled.confidence <= 1_000_000,
                0 <= merge_tolerance,
                found ==> idx < combined@.len()
                    && iabs(combined@[idx as int].price - scaled.price) <= merge_tolerance
                    && spec_find_merge(combined@, scaled.price, merge_tolerance, 0)
                        == idx as int,
                !found ==> spec_find_merge(combined@, scaled.price, merge_tolerance, 0)
                    == spec_find_merge(combined@, scaled.price, merge_tolerance, idx as int),
            decreases combined@.len() - idx + (if found { 0int } else { 1 }),
        {
            let e = combined[idx];
            let d = if e.price >= scaled.price {
                e.price - scaled.price
            } else {
                scaled.price - e.price
            };
            if d <= merge_tolerance {
                found = true;
            } else {
                idx = idx + 1;
            }
        }
        if found {
            let e = combined[idx];
            let total: i64 = e.confidence + scaled.confidence;
            if total > 0 {
                proof {
                    assert(combined_wf(combined@, si as int));
                    assert(e.confidence as int <= 3_000_000_000_000int);
                    assert(-3_000_000_000_000_000_000_000_000_000int
                        <= (e.price as int) * (e.confidence as int)
                        <= 3_000_000_000_000_000_000_000_000_000int) by (nonlinear_arith)
                        requires
                            -1_000_000_000_000_000 <= e.price as int <= 1_000_000_000_000_000,
                            0 <= e.confidence as int <= 3_000_000_000_000int,
                    ;
                    assert(-3_000_000_000_000_000_000_000int
                        <= (scaled.price as int) * (scaled.confidence as int)
                        <= 3_000_000_000_000_000_000_000int) by (nonlinear_arith)
                        requires
                            -1_000_000_000_000_000
                                <= scaled.price as int <= 1_000_000_000_000_000,
                            0 <= scaled.confidence as int <= 1_000_000,
                    ;
                    assert(-4_000_000_000_000_000_000_000_000_000int
                        <= (e.price as int) * (e.confidence as int)
                            + (scaled.price as int) * (scaled.confidence as int)
                        <= 4_000_000_000_000_000_000_000_000_000int) by (nonlinear_arith)
                        requires
                            -1_000_000_000_000_000 <= e.price as int <= 1_000_000_000_000_000,
                            -1_000_000_000_000_000
                                <= scaled.price as int <= 1_000_000_000_000_000,
                            0 <= e.confidence as int <= 3_000_000_000_000int,
                            0 <= scaled.confidence as int <= 1_000_000,
                    ;
                    lemma_two_point_mean(e.price as int, e.confidence as int,
                        scaled.price as int, scaled.confidence as int);
                }
                let num: i128 = (e.price as i128) * (e.confidence as i128)
                    + (scaled.price as i128) * (scaled.confidence as i128);
                let new_price: i64 = crate::util::div_tr_i128(num, total as i128) as i64;
                let merged = Level {
                    price: new_price,
                    confidence: total,
                    confidence_band: (e.confidence_band + scaled.confidence_band) / 2,
                    ..e
                };
                combined.set(idx, merged);
            }
        } else {
            combined.push(scaled);
        }
        proof {
            assert(combined@ =~= spec_combine_upto(primary@, secondary@, primary_weight,
                secondary_weight, merge_tolerance, si as int + 1));
        }
        si = si + 1;
    }

    let r = crate::sort::sort_levels_by_confidence(combined);
    proof {
        assert forall|k: int| 0 <= k < r@.len()
            implies level_wf(#[trigger] r@[k])
                && r@[k].performance == empty_performance() by {
            assert(r@.contains(r@[k]));
            let src = spec_combine_upto(primary@, secondary@, primary_weight,
                secondary_weight, merge_tolerance, secondary@.len() as int);
            let j = choose|j: int| 0 <= j < src.len() && src[j] == r@[k];
            assert(combined_wf(src, secondary@.len() as int));
            assert(0 <= src[j].confidence);
        };
    }
    r
}

/// The descending distance relaxation ladder, in thousandths.
pub open spec fn spec_dist_scales() -> Seq<i64> {
    seq![1000i64, 750i64, 500i64, 350i64, 250i64, 150i64, 100i64]
}

/// The descending multiplier relaxation ladder, in thousandths.
pub open spec fn spec_mult_scales() -> Seq<i64> {
    seq![1000i64, 850i64, 700i64, 550i64, 400i64, 300i64, 250i64, 200i64, 150i64, 100i64,
        80i64, 50i64, 30i64, 20i64, 15i64]
}

/// A candidate swing distance: the configured distance relaxed by a scale,
/// floored at two price units.
pub open spec fn spec_cand_distance(base: i64, scale: i64) -> i64 {
    imax(base * scale / 1000, 20_000) as i64
}

/// A candidate ATR multiplier: the configured multiplier relaxed by a
/// scale, floored at one percent.
pub open spec fn spec_cand_multiplier(base: i64, scale: i64) -> i64 {
    imax(base * scale / 1000, 10_000) as i64
}

/// State of the relaxation search: the first satisfying combination, and
/// the best attempt so far as a fallback.
pub struct SearchState {
    pub found: bool,
    pub swings: Seq<SwingPoint>,
    pub multiplier: i64,
    pub distance: i64,
    pub best: Seq<SwingPoint>,
    pub best_multiplier: i64,
    pub best_distance: i64,
}

/// One relaxation attempt, in priority order: distance scales outermost,
/// multiplier scales innermost.
pub open spec fn spec_search_step(
    bars: Seq<Bar>,
    atr: Seq<i64>,
    cfg: AppConfig,
    required: int,
    st: SearchState,
    k: int,
) -> SearchState {
    if st.found {
        st
    } else {
        let cd = spec_cand_distance(cfg.min_swing_distance, spec_dist_scales()[k / 15]);
        let cm = spec_cand_multiplier(cfg.atr_multiplier, spec_mult_scales()[k % 15]);
        let sw = crate::swings::spec_detect_swings(bars, atr, cm, cd);
        if sw.len() >= required {
            SearchState { found: true, swings: sw, multiplier: cm, distance: cd, ..st }
        } else if sw.len() > st.best.len() {
            SearchState { best: sw, best_multiplier: cm, best_distance: cd, ..st }
        } else {
            st
        }
    }
}

pub open spec fn spec_search_upto(
    bars: Seq<Bar>,
    atr: Seq<i64>,
    cfg: AppConfig,
    required: int,
    k: int,
) -> SearchState
    decreases k,
{
    if k <= 0 {
        SearchState {
            found: false,
            swings: Seq::empty(),
            multiplier: cfg.atr_multiplier,
            distance: cfg.min_swing_distance,
            best: Seq::empty(),
            best_multiplier: cfg.atr_multiplier,
            best_distance: cfg.min_swing_distance,
        }
    } else {
        spec_search_step(bars, atr, cfg, required,
            spec_search_upto(bars, atr, cfg, required, k - 1), k - 1)
    }
}

/// The swings the search settles on: the first satisfying combination, or
/// the best attempt over all one hundred five combinations.
pub open spec fn spec_search_swings(bars: Seq<Bar>, atr: Seq<i64>, cfg: AppConfig,
    required: int) -> Seq<SwingPoint> {
    let st = spec_search_upto(bars, atr, cfg, required, 105);
    if st.found {
        st.swings
    } else {
        st.best
    }
}

/// The relaxed distance the search settles on.
pub open spec fn spec_search_distance(bars: Seq<Bar>, atr: Seq<i64>, cfg: AppConfig,
    required: int) -> i64 {
    let st = spec_search_upto(bars, atr, cfg, required, 105);
    if st.found {
        st.distance
    } else {
        st.best_distance
    }
}

/// Structural facts of the search state.
pub open spec fn search_ok(bars: Seq<Bar>, atr: Seq<i64>, st: SearchState) -> bool {
    &&& swings_wf(st.swings)
    &&& swings_wf(st.best)
    &&& 0 <= st.distance <= PRICE_CAP
    &&& 0 <= st.best_distance <= PRICE_CAP
}

proof fn lemma_search_upto_ok(bars: Seq<Bar>, atr: Seq<i64>, cfg: AppConfig, required: int,
    k: int)
    requires
        bars_wf(bars),
        crate::atr::atr_series_wf(atr),
        config_wf(cfg),
        0 <= k <= 105,
    ensures
        search_ok(bars, atr, spec_search_upto(bars, atr, cfg, required, k)),
    decreases k,
{
    if k > 0 {
        lemma_search_upto_ok(bars, atr, cfg, required, k - 1);
        let st = spec_search_upto(bars, atr, cfg, required, k - 1);
        if !st.found {
            let ds = spec_dist_scales()[(k - 1) / 15];
            let ms = spec_mult_scales()[(k - 1) % 15];
            let cd = spec_cand_distance(cfg.min_swing_distance, ds);
            let cm = spec_cand_multiplier(cfg.atr_multiplier, ms);
            assert(0 <= (k - 1) / 15 < 7);
            assert(0 <= (k - 1) % 15 < 15);
            lemma_cand_bounds(cfg, ds, ms);
            let sw = crate::swings::spec_detect_swings(bars, atr, cm, cd);
            crate::swings::lemma_detect_swings_wf(bars, atr, cm, cd);
        }
    }
}

/// Bounds of the relaxed candidate parameters.
proof fn lemma_cand_bounds(cfg: AppConfig, ds: i64, ms: i64)
    requires
        config_wf(cfg),
        0 <= ds <= 1000,
        0 <= ms <= 1000,
    ensures
        20_000 <= spec_cand_distance(cfg.min_swing_distance, ds) <= PRICE_CAP,
        10_000 <= spec_cand_multiplier(cfg.atr_multiplier, ms) <= 1_000_000_000,
{
    assert(0 <= (cfg.min_swing_distance as int) * (ds as int)
        <= 10_000_000_000_000int) by (nonlinear_arith)
        requires
            0 <= cfg.min_swing_distance as int <= 10_000_000_000,
            0 <= ds as int <= 1000,
    ;
    lemma_avg_bound((cfg.min_swing_distance as int) * (ds as int), 1000, PRICE_CAP as int);
    assert(0 <= (cfg.atr_multiplier as int) * (ms as int)
        <= 1_000_000_000_000int) by (nonlinear_arith)
        requires
            0 <= cfg.atr_multiplier as int <= 1_000_000_000,
            0 <= ms as int <= 1000,
    ;
    lemma_avg_bound((cfg.atr_multiplier as int) * (ms as int), 1000, 1_000_000_000);
}

/// Per-window analysis settings.
#[derive(Debug, Clone, Copy, PartialEq, Eq, Structural)]
pub struct AnalysisSettings {
    /// Recency half life in days, when density weighting is wanted.
    pub recency_half_life_days: Option<i64>,
}

/// The result of one analysis window.
#[derive(Debug, Clone, PartialEq, Eq)]
pub struct AnalysisResult {
    pub atr: Vec<i64>,
    pub mean_atr: i64,
    pub density: DensityAnalysis,
    pub levels: Vec<Level>,
    pub swing_count: usize,
}

/// The clustering radius the pipeline uses: the auto-estimate scaled by
/// the configured factor, or a volatility floor when the estimate is not
/// positive.
pub open spec fn spec_epsilon_used(swings: Seq<SwingPoint>, cfg: AppConfig, mean_atr: i64,
    dist_used: i64) -> i64 {
    let base = crate::clustering::spec_auto_epsilon(swings);
    if base > 0 {
        (base * cfg.dbscan_eps_factor / 1_000_000) as i64
    } else {
        imax(imax(mean_atr as int, dist_used as int), 10_000) as i64
    }
}

/// The swings entering the density estimate: the cluster inliers, or all
/// swings when no cluster qualified.
pub open spec fn spec_clustered_swings(swings: Seq<SwingPoint>, eps: i64, min_points: int)
    -> Seq<SwingPoint> {
    let inliers = if swings.len() == 0 || eps <= 0 {
        Seq::<SwingPoint>::empty()
    } else {
        crate::clustering::spec_cluster_final(swings, eps, min_points).inliers
    };
    if inliers.len() > 0 {
        inliers
    } else {
        swings
    }
}

/// The recency reference: the last bar's timestamp, or the epoch for an
/// empty series.
pub open spec fn spec_reference(bars: Seq<Bar>) -> i64 {
    if bars.len() == 0 {
        0
    } else {
        bars.last().timestamp
    }
}

/// The density input: the clustered swings, recency-reweighted relative
/// to the last bar when a half life is set.
pub open spec fn spec_density_input(clustered: Seq<SwingPoint>, bars: Seq<Bar>,
    half_life: Option<i64>) -> Seq<SwingPoint> {
    match half_life {
        Some(h) => clustered.map_values(
            |s: SwingPoint| spec_weighted_swing(s, spec_reference(bars), h),
        ),
        None => clustered,
    }
}

/// The full model of one analysis window: which degenerate stage fails
/// it, or every field of its result.
pub struct WindowModel {
    pub error: Option<AnalysisError>,
    pub atr: Seq<i64>,
    pub mean_atr: i64,
    pub swing_count: int,
    pub grid: Seq<DensityPoint>,
    pub levels: Seq<Level>,
}

/// One analysis window, end to end: the ATR series, the relaxation
/// search, clustering, recency weighting, the density grid, its peaks,
/// and the backtested levels built from them. The error is the first
/// degenerate stage: a window below the cluster minimum, too few swings
/// after the full search, a degenerate density input, or no peaks.
pub open spec fn spec_window_model(bars: Seq<Bar>, cfg: AppConfig, half_life: Option<i64>)
    -> WindowModel {
    let atr_s = crate::atr::spec_atr_series(bars, cfg.atr_period as int);
    let mean = crate::stats::spec_mean_atr(atr_s) as i64;
    let required = imax(cfg.dbscan_min_points as int, 8);
    let sw = spec_search_swings(bars, atr_s, cfg, required);
    let dist_used = spec_search_distance(bars, atr_s, cfg, required);
    let eps = spec_epsilon_used(sw, cfg, mean, dist_used);
    let clustered = spec_clustered_swings(sw, eps, cfg.dbscan_min_points as int);
    let dinput = spec_density_input(clustered, bars, half_life);
    let prices = dinput.map_values(|s: SwingPoint| s.price);
    let weights = dinput.map_values(|s: SwingPoint| (imax(s.bar.volume as int, 1) as i64));
    let grid = crate::density::spec_density_grid(prices, weights, cfg.kde_points as int);
    let peaks = crate::peaks::spec_detect_peaks(grid);
    let current = bars.last().close;
    let error = if bars.len() < cfg.dbscan_min_points {
        Some(AnalysisError::InsufficientWindow)
    } else if sw.len() < cfg.dbscan_min_points {
        Some(AnalysisError::InsufficientSwings)
    } else if dinput.len() < 2 || cfg.kde_points < 3 {
        Some(AnalysisError::EmptyDensity)
    } else if peaks.len() == 0 {
        Some(AnalysisError::NoPeaks)
    } else {
        None
    };
    WindowModel {
        error,
        atr: atr_s,
        mean_atr: mean,
        swing_count: sw.len() as int,
        grid,
        levels: crate::stats::spec_evaluate_seq(
            crate::levels::spec_build_levels(peaks,
                crate::density::spec_max_density(grid, grid.len() as int) as i64,
                current, mean, cfg.confidence_band_atr,
                cfg.max_levels as int + cfg.ev_max_levels as int),
            bars, atr_s, cfg.reaction_lookahead as int, cfg.reaction_move_atr),
    }
}

/// The recency half life of the primary window, in days.
pub open spec fn spec_base_half_life(cfg: AppConfig) -> i64 {
    if cfg.strong_recency {
        15
    } else {
        30
    }
}

/// The bars an analysis attempt sees for one lookback window: everything
/// for a zero lookback, else the bars within the cutoff.
pub open spec fn spec_lookback_window(bars: Seq<Bar>, lookback_days: int) -> Seq<Bar> {
    if bars.len() == 0 || lookback_days == 0 {
        bars
    } else {
        spec_filter_lookback(bars, spec_lookback_cutoff(bars, lookback_days),
            bars.len() as int)
    }
}

/// The window search from rung `i` on: try each lookback window in order
/// and settle on the first whose swing count reaches the target, or on
/// the last rung; an error at any tried window is the run's error. The
/// result is the bar window the run analyses.
pub open spec fn spec_window_search(
    filtered: Seq<Bar>,
    cfg: AppConfig,
    half_life: Option<i64>,
    windows: Seq<usize>,
    i: int,
) -> Result<Seq<Bar>, AnalysisError>
    decreases windows.len() - i,
{
    if i < 0 || i >= windows.len() {
        Err(AnalysisError::InsufficientWindow)
    } else {
        let candidate = spec_lookback_window(filtered, windows[i] as int);
        let m = spec_window_model(candidate, cfg, half_life);
        match m.error {
            Some(e) => Err(e),
            None => {
                if m.swing_count >= imax(cfg.dbscan_min_points as int, 8)
                    || i == windows.len() - 1 {
                    Ok(candidate)
                } else {
                    spec_window_search(filtered, cfg, half_life, windows, i + 1)
                }
            },
        }
    }
}

/// Levels with their distance from the current price refreshed.
pub open spec fn spec_with_distances(s: Seq<Level>, current: i64) -> Seq<Level> {
    Seq::new(s.len(), |k: int| Level {
        distance_from_last: iabs(s[k].price - current) as i64,
        ..s[k]
    })
}

/// The ranked level list of a run that analysed `candidate`: the regime
/// combination (re-backtested over the whole filtered series) or the
/// recent window's levels, the EVT projections appended, sorted by
/// descending confidence and cut to the level budget.
pub open spec fn spec_final_levels(
    cfg: AppConfig,
    filtered: Seq<Bar>,
    candidate: Seq<Bar>,
) -> Seq<Level> {
    let recent = spec_window_model(candidate, cfg, Some(spec_base_half_life(cfg)));
    let max_slots = cfg.max_levels as int + cfg.ev_max_levels as int;
    let current = if cfg.regime_aware {
        filtered.last().close
    } else {
        candidate.last().close
    };
    let base = if cfg.regime_aware {
        let hist = spec_window_model(filtered, cfg, Some((spec_base_half_life(cfg) * 2) as i64));
        let tol = imax(imax(recent.mean_atr as int, hist.mean_atr as int),
            imax(cfg.min_swing_distance as int, 20_000)) as i64;
        let combined = crate::sort::spec_sort_by(crate::sort::lt_level_confidence(),
            spec_combine_upto(recent.levels, hist.levels, 700_000, 300_000, tol,
                hist.levels.len() as int));
        let updated = spec_with_distances(combined, current);
        let cut = updated.take(
            if max_slots < updated.len() { max_slots } else { updated.len() as int });
        crate::stats::spec_evaluate_seq(cut, filtered, hist.atr,
            cfg.reaction_lookahead as int, cfg.reaction_move_atr)
    } else {
        recent.levels
    };
    let with_evt = if cfg.evt_resistance {
        let evt_source = if cfg.ev_lookback_days > 0 {
            spec_lookback_window(candidate, cfg.ev_lookback_days as int)
        } else {
            candidate
        };
        let probs = spec_tail_probs(iclamp(cfg.ev_tail_probability as int, 800_000, 999_900),
            cfg.ev_max_levels as int);
        if probs.len() > 0 {
            let raw_band = recent.mean_atr * cfg.confidence_band_atr / 1_000_000;
            let band = if raw_band <= 0 {
                imax(current as int / 1000, 10_000) as i64
            } else {
                raw_band as i64
            };
            base + crate::evt::spec_evt_resistances(evt_source, probs,
                cfg.ev_threshold_quantile, band, current)
        } else {
            base
        }
    } else {
        base
    };
    let ranked = crate::sort::spec_sort_by(crate::sort::lt_level_confidence(), with_evt);
    ranked.take(if max_slots < ranked.len() { max_slots } else { ranked.len() as int })
}

/// The outcome of a run whose input passed validation and the trading
/// hours filter: the ranked levels, or the first error of the window
/// search and, under the regime option, of the full-history window.
pub open spec fn spec_analysis_outcome(bars: Seq<Bar>, cfg: AppConfig)
    -> Result<Seq<Level>, AnalysisError> {
    let filtered = spec_filter_rth(bars, RthWindow { start: 34_200, end: 57_600 },
        bars.len() as int);
    let windows = spec_candidate_lookbacks(cfg.lookback_days as int);
    let half = Some(spec_base_half_life(cfg));
    match spec_window_search(filtered, cfg, half, windows, 0) {
        Err(e) => Err(e),
        Ok(candidate) => {
            let hist = spec_window_model(filtered, cfg, Some((spec_base_half_life(cfg) * 2) as i64));
            if cfg.regime_aware && hist.error is Some {
                Err(hist.error.unwrap())
            } else {
                Ok(spec_final_levels(cfg, filtered, candidate))
            }
        },
    }
}

/// Run one analysis window: ATR, the relaxation search for swings,
/// clustering, recency weighting, density estimation, peak detection,
/// level building and the backtest. Every stage mirrors its named
/// model; the error cases are exactly the degenerate stages.
#[verifier::rlimit(100)]
pub fn run_single_analysis(
    bars: &Vec<Bar>,
    config: &AppConfig,
    settings: AnalysisSettings,
) -> (r: Result<AnalysisResult, AnalysisError>)
    requires
        bars_wf(bars@),
        config_wf(*config),
        match settings.recency_half_life_days {
            Some(h) => 1 <= h <= 100_000,
            None => true,
        },
    ensures
        ({
            let m = spec_window_model(bars@, *config, settings.recency_half_life_days);
            match m.error {
                Some(e) => r == Result::<AnalysisResult, AnalysisError>::Err(e),
                None => {
                    &&& r is Ok
                    &&& (r matches Ok(a) ==> {
                        &&& a.atr@ == m.atr
                        &&& a.mean_atr == m.mean_atr
                        &&& a.swing_count as int == m.swing_count
                        &&& a.density.grid@ == m.grid
                        &&& a.levels@ == m.levels
                    })
                },
            }
        }),
        r matches Ok(a) ==> {
            &&& forall|k: int| 0 <= k < a.levels@.len() ==> level_wf(#[trigger] a.levels@[k])
            &&& forall|k: int| 0 <= k < a.levels@.len()
                ==> 0 <= (#[trigger] a.levels@[k]).confidence <= 1_000_000
            &&& crate::sort::sorted_ord(crate::sort::lt_level_confidence(), a.levels@)
            &&& a.levels@.len() <= config.max_levels as int + config.ev_max_levels as int
            &&& a.density.grid@.len() >= 3
            &&& crate::density::grid_wf(a.density.grid@)
            &&& crate::atr::atr_series_wf(a.atr@)
            &&& 0 <= a.mean_atr <= PRICE_CAP
            &&& a.swing_count >= config.dbscan_min_points
        },
{
    if bars.len() < config.dbscan_min_points {
        return Err(AnalysisError::InsufficientWindow);
    }

    let atr = crate::atr::compute_atr(bars, config.atr_period);
    let mut mean_atr: i64 = 0;
    if atr.len() > 0 {
        let mut s: i128 = 0;
        let mut j: usize = 0;
        while j < atr.len()
            invariant
                crate::atr::atr_series_wf(atr@),
                j <= atr@.len(),
                s == crate::stats::spec_atr_sum(atr@, j as int),
                0 <= s <= (j as int) * PRICE_CAP,
            decreases atr@.len() - j,
        {
            proof {
                assert((j as int) * PRICE_CAP + PRICE_CAP == (j as int + 1) * PRICE_CAP)
                    by (nonlinear_arith);
            }
            s = s + atr[j] as i128;
            j = j + 1;
        }
        proof { lemma_avg_bound(s as int, atr@.len() as int, PRICE_CAP as int); }
        mean_atr = div_nn_i128(s, atr.len() as i128) as i64;
    }
    assert(mean_atr as int == crate::stats::spec_mean_atr(atr@));
    assert(0 <= mean_atr <= PRICE_CAP);

    let required: usize = max_usize(config.dbscan_min_points, 8);
    let dist_scales: [i64; 7] = [1000, 750, 500, 350, 250, 150, 100];
    let mult_scales: [i64; 15] = [1000, 850, 700, 550, 400, 300, 250, 200, 150, 100, 80, 50,
        30, 20, 15];
    proof {
        assert(dist_scales@ =~= spec_dist_scales());
        assert(mult_scales@ =~= spec_mult_scales());
    }

    let mut found: bool = false;
    let mut swings: Vec<SwingPoint> = Vec::new();
    let mut mult_used: i64 = config.atr_multiplier;
    let mut dist_used: i64 = config.min_swing_distance;
    let mut best_swings: Vec<SwingPoint> = Vec::new();
    let mut best_mult: i64 = config.atr_multiplier;
    let mut best_dist: i64 = config.min_swing_distance;

    let mut k: usize = 0;
    while k < 105 && !found
        invariant
            bars_wf(bars@),
            config_wf(*config),
            crate::atr::atr_series_wf(atr@),
            atr@ == crate::atr::spec_atr_series(bars@, config.atr_period as int),
            required as int == imax(config.dbscan_min_points as int, 8),
            dist_scales@ == spec_dist_scales(),
            mult_scales@ == spec_mult_scales(),
            k <= 105,
            ({
                let st = spec_search_upto(bars@, atr@, *config, required as int, k as int);
                &&& found == st.found
                &&& swings@ == st.swings
                &&& mult_used == st.multiplier
                &&& dist_used == st.distance
                &&& best_swings@ == st.best
                &&& best_mult == st.best_multiplier
                &&& best_dist == st.best_distance
            }),
        decreases 105 - k + (if found { 0int } else { 1 }),
    {
        let ds = dist_scales[k / 15];
        let ms = mult_scales[k % 15];
        proof {
            lemma_cand_bounds(*config, ds, ms);
            assert(0 <= (config.min_swing_distance as int) * (ds as int)
                <= 10_000_000_000_000int) by (nonlinear_arith)
                requires
                    0 <= config.min_swing_distance as int <= 10_000_000_000,
                    0 <= ds as int <= 1000,
            ;
            lemma_avg_bound((config.min_swing_distance as int) * (ds as int), 1000,
                PRICE_CAP as int);
            assert(0 <= (config.atr_multiplier as int) * (ms as int)
                <= 1_000_000_000_000int) by (nonlinear_arith)
                requires
                    0 <= config.atr_multiplier as int <= 1_000_000_000,
                    0 <= ms as int <= 1000,
            ;
            lemma_avg_bound((config.atr_multiplier as int) * (ms as int), 1000,
                1_000_000_000);
        }
        let cd_raw: i64 = div_nn_i128((config.min_swing_distance as i128) * (ds as i128),
            1000) as i64;
        let cd: i64 = max_i64(cd_raw, 20_000);
        let cm_raw: i64 = div_nn_i128((config.atr_multiplier as i128) * (ms as i128),
            1000) as i64;
        let cm: i64 = max_i64(cm_raw, 10_000);
        assert(cd as int == spec_cand_distance(config.min_swing_distance,
            spec_dist_scales()[k as int / 15]));
        assert(cm as int == spec_cand_multiplier(config.atr_multiplier,
            spec_mult_scales()[k as int % 15]));

        let candidate = crate::swings::detect_swings(bars, &atr, cm, cd);
        if candidate.len() >= required {
            swings = candidate;
            mult_used = cm;
            dist_used = cd;
            found = true;
        } else if candidate.len() > best_swings.len() {
            best_swings = candidate;
            best_mult = cm;
            best_dist = cd;
        }
        proof {
            assert(spec_search_upto(bars@, atr@, *config, required as int, k as int + 1)
                == spec_search_step(bars@, atr@, *config, required as int,
                    spec_search_upto(bars@, atr@, *config, required as int, k as int),
                    k as int));
        }
        k = k + 1;
    }
    proof {
        if found {
            lemma_search_stable(bars@, atr@, *config, required as int, k as int, 105);
        }
        lemma_search_upto_ok(bars@, atr@, *config, required as int, 105);
    }
    if !found {
        swings = best_swings;
        mult_used = best_mult;
        dist_used = best_dist;
    }
    assert(swings@ == spec_search_swings(bars@, atr@, *config, required as int));
    assert(dist_used as int
        == spec_search_distance(bars@, atr@, *config, required as int) as int);
    assert(swings_wf(swings@));
    assert(0 <= dist_used <= PRICE_CAP);

    if swings.len() < config.dbscan_min_points {
        return Err(AnalysisError::InsufficientSwings);
    }
    let swing_count = swings.len();

    let base_eps = crate::clustering::auto_dbscan_epsilon(&swings);
    let epsilon: i64 = if base_eps > 0 {
        proof {
            assert(0 <= (base_eps as int) * (config.dbscan_eps_factor as int)
                <= 20_000_000_000_000_000_000int) by (nonlinear_arith)
                requires
                    0 <= base_eps as int <= 20_000_000_000,
                    0 <= config.dbscan_eps_factor as int <= 1_000_000_000,
            ;
            lemma_avg_bound((base_eps as int) * (config.dbscan_eps_factor as int),
                1_000_000, 20_000_000_000_000int);
        }
        div_nn_i128((base_eps as i128) * (config.dbscan_eps_factor as i128), 1_000_000) as i64
    } else {
        max_i64(max_i64(mean_atr, dist_used), 10_000)
    };
    assert(epsilon as int == spec_epsilon_used(swings@, *config, mean_atr, dist_used) as int);

    let cluster_result = crate::clustering::cluster_swings(&swings, epsilon,
        config.dbscan_min_points);
    let clustered_swings: Vec<SwingPoint> = if cluster_result.inliers.len() > 0 {
        cluster_result.inliers
    } else {
        copy_swings(&swings)
    };
    proof {
        assert(clustered_swings@ == spec_clustered_swings(swings@, epsilon,
            config.dbscan_min_points as int));
        assert(swings_wf(clustered_swings@)) by {
            if cluster_result.inliers@.len() > 0 {
                assert forall|j: int| 0 <= j < clustered_swings@.len()
                    implies swing_wf(#[trigger] clustered_swings@[j]) by {
                    assert(swings@.contains(clustered_swings@[j]));
                };
            }
        };
    }

    let density_input: Vec<SwingPoint> = match settings.recency_half_life_days {
        Some(half_life) => {
            let reference: i64 = if bars.len() > 0 {
                let lb = bars[bars.len() - 1];
                proof { assert(bar_wf(bars@[bars@.len() - 1])); }
                lb.timestamp
            } else {
                0
            };
            apply_recency_weighting(&clustered_swings, reference, half_life)
        },
        None => clustered_swings,
    };
    proof {
        assert(density_input@ == spec_density_input(
            spec_clustered_swings(swings@, epsilon, config.dbscan_min_points as int),
            bars@, settings.recency_half_life_days)) by {
            match settings.recency_half_life_days {
                Some(h) => {
                    assert(density_input@ =~= spec_clustered_swings(swings@, epsilon,
                        config.dbscan_min_points as int).map_values(
                        |s: SwingPoint| spec_weighted_swing(s, spec_reference(bars@), h)));
                },
                None => {},
            }
        };
    }

    let density = crate::density::compute_density_curve(&density_input, config.kde_points);
    if density.grid.len() == 0 {
        return Err(AnalysisError::EmptyDensity);
    }

    let peaks = crate::peaks::detect_peaks(&density);
    if peaks.len() == 0 {
        return Err(AnalysisError::NoPeaks);
    }
    proof {
        assert forall|j: int| 0 <= j < peaks@.len()
            implies crate::levels::peak_wf(#[trigger] peaks@[j]) by {
            assert(crate::peaks::peak_from_grid(density.grid@, peaks@[j]));
            let i0 = choose|i0: int| crate::peaks::is_peak(density.grid@, i0)
                && peaks@[j] == crate::peaks::spec_peak_at(density.grid@, i0);
            assert(0 <= density.grid@[i0 - 1].density && 0 <= density.grid@[i0 + 1].density);
        };
    }

    proof {
        if bars@.len() == 0 {
            lemma_search_empty(bars@, atr@, *config, required as int, 105);
            assert(swings@.len() == 0);
            assert(clustered_swings@.len() == 0);
            assert(density_input@.len() == 0);
        }
    }
    let current_price = bars[bars.len() - 1].close;
    assert(bar_wf(bars@[bars@.len() - 1]));
    let built = crate::levels::build_levels(&peaks, density.max_density, current_price,
        mean_atr, config.confidence_band_atr, config.max_levels + config.ev_max_levels);
    proof {
        assert forall|j: int| 0 <= j < built@.len()
            implies 0 <= (#[trigger] built@[j]).performance.hit_rate <= 1_000_000 by {
            assert(built@[j].performance == empty_performance());
        };
    }
    let ghost built_s = built@;
    let levels = crate::stats::evaluate_levels(built, bars, &atr, config.reaction_lookahead,
        config.reaction_move_atr);
    proof {
        assert forall|j: int| 0 <= j < levels@.len()
            implies (#[trigger] levels@[j]).confidence == built_s[j].confidence by {
            if bars@.len() > 0 {
                assert(levels@[j] == crate::stats::spec_evaluated(bars@, atr@,
                    config.reaction_lookahead as int, config.reaction_move_atr, built_s[j]));
            }
        };
        assert forall|a: int, b: int| 0 <= a < b < levels@.len()
            implies !crate::sort::lt_level_confidence()(#[trigger] levels@[b],
                #[trigger] levels@[a]) by {
            assert(!crate::sort::lt_level_confidence()(built_s[b], built_s[a]));
        };
    }

    Ok(AnalysisResult { atr, mean_atr, density, levels, swing_count })
}

/// On an empty bar series every relaxation attempt yields no swings.
proof fn lemma_search_empty(bars: Seq<Bar>, atr: Seq<i64>, cfg: AppConfig, required: int,
    k: int)
    requires
        bars.len() == 0,
        required >= 1,
        0 <= k,
    ensures
        !spec_search_upto(bars, atr, cfg, required, k).found,
        spec_search_upto(bars, atr, cfg, required, k).swings.len() == 0,
        spec_search_upto(bars, atr, cfg, required, k).best.len() == 0,
    decreases k,
{
    if k > 0 {
        lemma_search_empty(bars, atr, cfg, required, k - 1);
    }
}

/// What one full run hands to the rendering layer.
#[derive(Debug, Clone, PartialEq, Eq)]
pub struct ReportData {
    pub levels: Vec<Level>,
    pub current_price: i64,
    pub ath: Option<AthContext>,
    pub density: DensityAnalysis,
    /// How many swing points the accepted analysis window produced.
    pub swing_count: usize,
}

/// The trading-hours filter keeps a time-ordered subsequence.
proof fn lemma_rth_keeps_order(bars: Seq<Bar>, rth: RthWindow, i: int)
    requires
        0 <= i <= bars.len(),
        strictly_increasing(bars),
    ensures
        strictly_increasing(spec_filter_rth(bars, rth, i)),
        forall|j: int| 0 <= j < spec_filter_rth(bars, rth, i).len()
            ==> (#[trigger] spec_filter_rth(bars, rth, i)[j]).timestamp
                <= bars[i - 1].timestamp,
    decreases i,
{
    if i > 0 {
        lemma_rth_keeps_order(bars, rth, i - 1);
        let prev = spec_filter_rth(bars, rth, i - 1);
        assert forall|j: int| 0 <= j < prev.len()
            implies (#[trigger] prev[j]).timestamp <= bars[i - 1].timestamp by {
            if i >= 2 {
                assert(prev[j].timestamp <= bars[i - 2].timestamp);
                assert(bars[i - 2].timestamp < bars[i - 1].timestamp);
            }
        };
    }
}

/// Run the whole analysis over a loaded bar series: validate it, keep the
/// trading-hours bars, search the candidate lookback windows for one with
/// enough swings, optionally blend a full-history regime, append the EVT
/// projections, and rank the surviving levels.
#[verifier::rlimit(100)]
pub fn analyze(bars: &Vec<Bar>, config: &AppConfig) -> (r: Result<ReportData, AnalysisError>)
    requires
        bars_wf(bars@),
        config_wf(*config),
    ensures
        bars@.len() < 10 ==> r == Result::<ReportData, AnalysisError>::Err(
            AnalysisError::TooFewBars),
        bars@.len() >= 10 && !strictly_increasing(bars@)
            ==> r == Result::<ReportData, AnalysisError>::Err(
                AnalysisError::NonMonotonicTimestamps),
        ({
            let filtered = spec_filter_rth(bars@, RthWindow { start: 34_200, end: 57_600 },
                bars@.len() as int);
            &&& (bars@.len() >= 10 && strictly_increasing(bars@) && filtered.len() == 0
                ==> r == Result::<ReportData, AnalysisError>::Err(
                    AnalysisError::EmptyTradingWindow))
            &&& (bars@.len() >= 10 && strictly_increasing(bars@) && 0 < filtered.len() < 10
                ==> r == Result::<ReportData, AnalysisError>::Err(AnalysisError::TooFewBars))
        }),
        ({
            let filtered = spec_filter_rth(bars@, RthWindow { start: 34_200, end: 57_600 },
                bars@.len() as int);
            bars@.len() >= 10 && strictly_increasing(bars@) && filtered.len() >= 10
                ==> match spec_analysis_outcome(bars@, *config) {
                    Result::<Seq<Level>, AnalysisError>::Ok(levels) => {
                        &&& r is Ok
                        &&& (r matches Ok(d) ==> d.levels@ == levels)
                    },
                    Result::<Seq<Level>, AnalysisError>::Err(e) =>
                        r == Result::<ReportData, AnalysisError>::Err(e),
                }
        }),
        r matches Ok(d) ==> {
            let filtered = spec_filter_rth(bars@, RthWindow { start: 34_200, end: 57_600 },
                bars@.len() as int);
            &&& forall|k: int| 0 <= k < d.levels@.len() ==> level_wf(#[trigger] d.levels@[k])
            &&& crate::sort::sorted_ord(crate::sort::lt_level_confidence(), d.levels@)
            &&& d.levels@.len() <= config.max_levels as int + config.ev_max_levels as int
            &&& crate::density::grid_wf(d.density.grid@)
            &&& d.current_price == filtered.last().close
            &&& 0 <= d.current_price <= PRICE_CAP
            &&& d.ath is Some
        },
        ({
            let filtered = spec_filter_rth(bars@, RthWindow { start: 34_200, end: 57_600 },
                bars@.len() as int);
            let windows = spec_candidate_lookbacks(config.lookback_days as int);
            let half = Some(spec_base_half_life(*config));
            r matches Ok(d) ==> match spec_window_search(filtered, *config, half, windows, 0) {
                Result::<Seq<Bar>, AnalysisError>::Ok(candidate) => {
                    let m = spec_window_model(candidate, *config, half);
                    let ath_of = if config.regime_aware { filtered } else { candidate };
                    &&& d.swing_count as int == m.swing_count
                    &&& d.density.grid@ == m.grid
                    &&& d.ath == Some(AthContext {
                        price: spec_ath(ath_of, ath_of.len() as int).high,
                        timestamp: spec_ath(ath_of, ath_of.len() as int).timestamp,
                    })
                },
                Result::<Seq<Bar>, AnalysisError>::Err(e) => true,
            }
        }),
{
    match validate_series(bars) {
        Ok(()) => {},
        Err(e) => {
            return Err(e);
        },
    }
    assert(bars@.len() >= 10);
    assert(strictly_increasing(bars@));

    let rth = RthWindow::default();
    let filtered = filter_rth(bars, rth);
    if filtered.len() == 0 {
        return Err(AnalysisError::EmptyTradingWindow);
    }
    proof {
        lemma_rth_keeps_order(bars@, rth, bars@.len() as int);
    }
    match validate_series(&filtered) {
        Ok(()) => {},
        Err(e) => {
            return Err(e);
        },
    }

    let base_half_life: i64 = if config.strong_recency { 15 } else { 30 };
    assert(base_half_life == spec_base_half_life(*config));
    let ghost half = Some(base_half_life);
    let target_swings: usize = max_usize(config.dbscan_min_points, 8);
    let windows = candidate_lookbacks(config.lookback_days);

    let mut analysis_bars: Vec<Bar> = Vec::new();
    let mut recent: Option<AnalysisResult> = None;
    let mut done: bool = false;
    let mut idx: usize = 0;
    while idx < windows.len() && !done
        invariant
            bars_wf(filtered@),
            config_wf(*config),
            bars@.len() >= 10,
            strictly_increasing(bars@),
            filtered@ == spec_filter_rth(bars@, RthWindow { start: 34_200, end: 57_600 },
                bars@.len() as int),
            filtered@.len() >= 10,
            windows@ == spec_candidate_lookbacks(config.lookback_days as int),
            windows@.len() >= 1,
            idx <= windows@.len(),
            forall|w: int| 0 <= w < windows@.len() ==> #[trigger] windows@[w] <= 100_000,
            1 <= base_half_life <= 30,
            base_half_life == spec_base_half_life(*config),
            half == Some(base_half_life),
            target_swings as int == imax(config.dbscan_min_points as int, 8),
            (idx == 0 && !done) || (recent is Some),
            !done ==> idx as int <= windows@.len() - 1,
            !done ==> spec_window_search(filtered@, *config, half, windows@, 0)
                == spec_window_search(filtered@, *config, half, windows@, idx as int),
            done ==> spec_window_search(filtered@, *config, half, windows@, 0)
                == Result::<Seq<Bar>, AnalysisError>::Ok(analysis_bars@),
            done ==> recent is Some,
            done ==> (recent matches Some(a) ==> {
                let m = spec_window_model(analysis_bars@, *config, half);
                &&& m.error is None
                &&& a.atr@ == m.atr
                &&& a.mean_atr == m.mean_atr
                &&& a.swing_count as int == m.swing_count
                &&& a.density.grid@ == m.grid
                &&& a.levels@ == m.levels
            }),
            recent matches Some(a) ==> {
                &&& forall|k: int| 0 <= k < a.levels@.len()
                    ==> level_wf(#[trigger] a.levels@[k])
                &&& forall|k: int| 0 <= k < a.levels@.len()
                    ==> 0 <= (#[trigger] a.levels@[k]).confidence <= 1_000_000
                &&& crate::sort::sorted_ord(crate::sort::lt_level_confidence(), a.levels@)
                &&& a.levels@.len()
                    <= config.max_levels as int + config.ev_max_levels as int
                &&& crate::density::grid_wf(a.density.grid@)
                &&& crate::atr::atr_series_wf(a.atr@)
                &&& 0 <= a.mean_atr <= PRICE_CAP
            },
            recent is Some ==> bars_wf(analysis_bars@) && analysis_bars@.len() > 0
                && analysis_bars@.last() == filtered@.last(),
        decreases windows@.len() - idx + (if done { 0int } else { 1 }),
    {
        let window = windows[idx];
        let candidate = filter_by_lookback(&filtered, window);
        proof {
            assert(candidate@ == spec_lookback_window(filtered@, windows@[idx as int] as int));
        }
        let ghost m = spec_window_model(candidate@, *config, half);
        let result = match run_single_analysis(&candidate, config,
            AnalysisSettings { recency_half_life_days: Some(base_half_life) }) {
            Ok(a) => a,
            Err(e) => {
                proof {
                    assert(m.error == Some(e));
                    assert(spec_window_search(filtered@, *config, half, windows@, idx as int)
                        == Result::<Seq<Bar>, AnalysisError>::Err(e));
                    assert(spec_window_search(filtered@, *config, half, windows@, 0)
                        == Result::<Seq<Bar>, AnalysisError>::Err(e));
                    assert(spec_analysis_outcome(bars@, *config)
                        == Result::<Seq<Level>, AnalysisError>::Err(e));
                }
                return Err(e);
            },
        };
        proof {
            assert(m.error is None);
        }
        analysis_bars = candidate;
        if result.swing_count >= target_swings || idx == windows.len() - 1 {
            done = true;
            proof {
                assert(spec_window_search(filtered@, *config, half, windows@, idx as int)
                    == Result::<Seq<Bar>, AnalysisError>::Ok(analysis_bars@));
            }
        } else {
            proof {
                assert(spec_window_search(filtered@, *config, half, windows@, idx as int)
                    == spec_window_search(filtered@, *config, half, windows@, idx as int + 1));
            }
        }
        recent = Some(result);
        idx = idx + 1;
    }
    assert(done);
    let recent_result = match recent {
        Some(a) => a,
        None => {
            proof {
                assert(false);
            }
            return Err(AnalysisError::InsufficientWindow);
        },
    };
    let ghost chosen = analysis_bars@;
    let ghost recent_m = spec_window_model(chosen, *config, half);

    let max_slots: usize = config.max_levels + config.ev_max_levels;
    let current_price: i64;
    let ath: Option<AthContext>;
    let mut final_levels: Vec<Level>;
    let ghost base_model: Seq<Level>;
    let evt_band_source_mean: i64 = recent_result.mean_atr;

    if config.regime_aware {
        let ghost hist_m = spec_window_model(filtered@, *config,
            Some((spec_base_half_life(*config) * 2) as i64));
        let historical = match run_single_analysis(&filtered, config,
            AnalysisSettings { recency_half_life_days: Some(base_half_life * 2) }) {
            Ok(a) => a,
            Err(e) => {
                proof {
                    assert(hist_m.error == Some(e));
                    assert(spec_analysis_outcome(bars@, *config)
                        == Result::<Seq<Level>, AnalysisError>::Err(e));
                }
                return Err(e);
            },
        };
        proof {
            assert(hist_m.error is None);
            assert(historical.levels@ == hist_m.levels);
            assert(historical.atr@ == hist_m.atr);
            assert(historical.mean_atr == hist_m.mean_atr);
        }
        let merge_tolerance = max_i64(
            max_i64(recent_result.mean_atr, historical.mean_atr),
            max_i64(config.min_swing_distance, 20_000),
        );
        proof {
            assert(merge_tolerance as int
                == imax(imax(recent_m.mean_atr as int, hist_m.mean_atr as int),
                    imax(config.min_swing_distance as int, 20_000)));
        }
        let mut combined = combine_level_sets(
            copy_levels(&recent_result.levels),
            copy_levels(&historical.levels),
            700_000,
            300_000,
            merge_tolerance,
        );
        proof {
            assert(combined@ == crate::sort::spec_sort_by(crate::sort::lt_level_confidence(),
                spec_combine_upto(recent_m.levels, hist_m.levels, 700_000, 300_000,
                    merge_tolerance, hist_m.levels.len() as int)));
        }
        let ghost combined0 = combined@;

        current_price = filtered[filtered.len() - 1].close;
        proof { assert(bar_wf(filtered@[filtered@.len() - 1])); }
        let mut li: usize = 0;
        while li < combined.len()
            invariant
                li <= combined@.len(),
                combined@.len() == combined0.len(),
                0 <= current_price <= PRICE_CAP,
                forall|k: int| 0 <= k < combined@.len()
                    ==> level_wf(#[trigger] combined@[k]),
                forall|k: int| 0 <= k < combined@.len()
                    ==> (#[trigger] combined@[k]).performance == empty_performance(),
                forall|k: int| 0 <= k < li as int
                    ==> #[trigger] combined@[k] == spec_with_distances(combined0,
                        current_price)[k],
                forall|k: int| li as int <= k < combined@.len()
                    ==> #[trigger] combined@[k] == combined0[k],
            decreases combined@.len() - li,
        {
            let l = combined[li];
            assert(level_wf(combined@[li as int]));
            let d: i64 = if l.price >= current_price {
                l.price - current_price
            } else {
                current_price - l.price
            };
            combined.set(li, Level { distance_from_last: d, ..l });
            proof {
                assert(combined@[li as int]
                    == spec_with_distances(combined0, current_price)[li as int]);
            }
            li = li + 1;
        }
        proof {
            assert(combined@ =~= spec_with_distances(combined0, current_price));
        }
        let ghost updated = combined@;
        if combined.len() > max_slots {
            combined.truncate(max_slots);
            proof {
                assert forall|k: int| 0 <= k < combined@.len()
                    implies level_wf(#[trigger] combined@[k])
                        && combined@[k].performance == empty_performance() by {
                    assert(combined@[k] == updated[k]);
                };
            }
        }
        proof {
            assert(combined@ =~= updated.take(
                if (max_slots as int) < updated.len() { max_slots as int } else {
                    updated.len() as int
                }));
            assert forall|k: int| 0 <= k < combined@.len()
                implies 0 <= (#[trigger] combined@[k]).performance.hit_rate
                    <= 1_000_000 by {
                assert(combined@[k].performance == empty_performance());
            };
        }
        let evaluated = crate::stats::evaluate_levels(combined, &filtered,
            &historical.atr, config.reaction_lookahead, config.reaction_move_atr);
        proof {
            base_model = evaluated@;
        }
        final_levels = evaluated;
        ath = compute_ath(&filtered);
    } else {
        current_price = analysis_bars[analysis_bars.len() - 1].close;
        proof { assert(bar_wf(analysis_bars@[analysis_bars@.len() - 1])); }
        final_levels = copy_levels(&recent_result.levels);
        proof {
            base_model = recent_m.levels;
            assert(final_levels@ == base_model);
        }
        ath = compute_ath(&analysis_bars);
    }

    if config.evt_resistance {
        let evt_source: Vec<Bar> = if config.ev_lookback_days > 0 {
            filter_by_lookback(&analysis_bars, config.ev_lookback_days)
        } else {
            copy_bars(&analysis_bars)
        };
        proof {
            assert(evt_source@ == (if config.ev_lookback_days > 0 {
                spec_lookback_window(chosen, config.ev_lookback_days as int)
            } else {
                chosen
            }));
        }
        let tail_probs = build_evt_tail_probs(config.ev_tail_probability,
            config.ev_max_levels);
        if tail_probs.len() > 0 {
            proof {
                assert(0 <= (evt_band_source_mean as int)
                    * (config.confidence_band_atr as int)
                    <= 10_000_000_000_000_000_000int) by (nonlinear_arith)
                    requires
                        0 <= evt_band_source_mean as int <= 10_000_000_000,
                        0 <= config.confidence_band_atr as int <= 1_000_000_000,
                ;
                lemma_avg_bound((evt_band_source_mean as int)
                    * (config.confidence_band_atr as int), 1_000_000,
                    10_000_000_000_000int);
            }
            let mut base_band: i64 = div_nn_i128(
                (evt_band_source_mean as i128) * (config.confidence_band_atr as i128),
                1_000_000,
            ) as i64;
            if base_band <= 0 {
                base_band = max_i64(current_price / 1000, 10_000);
            }
            let evt_levels = crate::evt::compute_evt_resistances(&evt_source, &tail_probs,
                config.ev_threshold_quantile, base_band, current_price);
            let ghost base0 = final_levels@;
            let mut ei: usize = 0;
            while ei < evt_levels.len()
                invariant
                    ei <= evt_levels@.len(),
                    forall|k: int| 0 <= k < evt_levels@.len()
                        ==> level_wf(#[trigger] evt_levels@[k]),
                    forall|k: int| 0 <= k < final_levels@.len()
                        ==> level_wf(#[trigger] final_levels@[k]),
                    final_levels@ == base0 + evt_levels@.take(ei as int),
                decreases evt_levels@.len() - ei,
            {
                assert(level_wf(evt_levels@[ei as int]));
                final_levels.push(evt_levels[ei]);
                proof {
                    assert(final_levels@ =~= base0 + evt_levels@.take(ei as int + 1));
                }
                ei = ei + 1;
            }
            proof {
                assert(evt_levels@.take(evt_levels@.len() as int) =~= evt_levels@);
                assert(final_levels@ == base0 + evt_levels@);
            }
        }
    }
    let ghost with_evt = final_levels@;

    let mut ranked = crate::sort::sort_levels_by_confidence(final_levels);
    proof {
        assert forall|k: int| 0 <= k < ranked@.len()
            implies level_wf(#[trigger] ranked@[k]) by {
            assert(ranked@.contains(ranked@[k]));
        };
    }
    let ghost ranked0 = ranked@;
    if ranked.len() > max_slots {
        ranked.truncate(max_slots);
    }

    proof {
        let cfg = *config;
        let filtered_s = spec_filter_rth(bars@, RthWindow { start: 34_200, end: 57_600 },
            bars@.len() as int);
        assert(filtered@ == filtered_s);
        let final_s = spec_final_levels(cfg, filtered_s, chosen);
        assert(ranked@ =~= ranked0.take(
            if (max_slots as int) < ranked0.len() { max_slots as int } else {
                ranked0.len() as int
            }));
        assert(ranked@ == final_s);
        assert(spec_analysis_outcome(bars@, cfg)
            == Result::<Seq<Level>, AnalysisError>::Ok(final_s));
    }

    Ok(ReportData {
        levels: ranked,
        current_price,
        ath,
        density: recent_result.density,
        swing_count: recent_result.swing_count,
    })
}

/// Once a satisfying combination is found, later attempts change nothing.
proof fn lemma_search_stable(bars: Seq<Bar>, atr: Seq<i64>, cfg: AppConfig, required: int,
    k1: int, k2: int)
    requires
        0 <= k1 <= k2,
        spec_search_upto(bars, atr, cfg, required, k1).found,
    ensures
        spec_search_upto(bars, atr, cfg, required, k2)
            == spec_search_upto(bars, atr, cfg, required, k1),
    decreases k2 - k1,
{
    if k2 > k1 {
        lemma_search_stable(bars, atr, cfg, required, k1, k2 - 1);
    }
}

} // verus!
