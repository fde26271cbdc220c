//! Backtesting of levels against the bar series: touch, hit and reaction
//! statistics.

use vstd::prelude::*;
use crate::data::{Bar, Level, LevelType, PerformanceStats, empty_performance, level_wf, bars_wf,
    SERIES_CAP, PRICE_CAP, LEVEL_PRICE_CAP};
use crate::atr::atr_series_wf;
use crate::util::{imax, lemma_avg_bound, div_nn_i128};

verus! {

/// Whether a bar's range intersects the level's tolerance band.
pub open spec fn spec_touched(bar: Bar, level: Level) -> bool {
    bar.low <= level.price + level.confidence_band
        && bar.high >= level.price - level.confidence_band
}

/// Outcome of the forward scan after a touch.
pub struct ForwardScan {
    pub best_move: int,
    pub bars_to_best: int,
    pub success: bool,
}

/// Favorable movement of a forward bar relative to the level.
pub open spec fn spec_movement(bar: Bar, level: Level) -> int {
    match level.level_type {
        LevelType::Support => bar.high - level.price,
        LevelType::Resistance => level.price - bar.low,
    }
}

/// Forward scan over bars `(idx, idx + k]`: the largest favorable
/// movement, the offset at which it occurred, and whether any movement
/// reached the required reaction.
pub open spec fn spec_forward(
    bars: Seq<Bar>,
    level: Level,
    idx: int,
    k: int,
    required: int,
) -> ForwardScan
    decreases k,
{
    if k <= 0 {
        ForwardScan { best_move: 0, bars_to_best: 0, success: false }
    } else {
        let prev = spec_forward(bars, level, idx, k - 1, required);
        let m = spec_movement(bars[idx + k], level);
        ForwardScan {
            best_move: if m > prev.best_move { m } else { prev.best_move },
            bars_to_best: if m > prev.best_move { k } else { prev.bars_to_best },
            success: prev.success || m >= required,
        }
    }
}

/// Per-level aggregates over the bar prefix of length `i`.
pub struct TouchAgg {
    pub tests: int,
    pub touches: int,
    pub hits: int,
    pub total_reaction: int,
    pub max_reaction: int,
    pub total_reaction_bars: int,
}

/// The ATR reference for a touch at `idx`: the series value or the series
/// mean, floored at one tick.
pub open spec fn spec_atr_ref(atr: Seq<i64>, mean_atr: i64, idx: int) -> int {
    imax(if 0 <= idx < atr.len() { atr[idx] as int } else { mean_atr as int }, 1)
}

/// The required reaction at a touch: the ATR reference scaled by the
/// reaction threshold (parts per million).
pub open spec fn spec_required(atr: Seq<i64>, mean_atr: i64, move_atr: i64, idx: int) -> int {
    move_atr * spec_atr_ref(atr, mean_atr, idx) / 1_000_000
}

pub open spec fn spec_eval_upto(
    bars: Seq<Bar>,
    atr: Seq<i64>,
    mean_atr: i64,
    lookahead: int,
    move_atr: i64,
    level: Level,
    i: int,
) -> TouchAgg
    decreases i,
{
    if i <= 0 {
        TouchAgg {
            tests: 0,
            touches: 0,
            hits: 0,
            total_reaction: 0,
            max_reaction: 0,
            total_reaction_bars: 0,
        }
    } else {
        let prev = spec_eval_upto(bars, atr, mean_atr, lookahead, move_atr, level, i - 1);
        let idx = i - 1;
        if spec_touched(bars[idx], level) {
            let window = if idx + lookahead + 1 <= bars.len() {
                lookahead
            } else {
                bars.len() - 1 - idx
            };
            let f = spec_forward(bars, level, idx,
                window, spec_required(atr, mean_atr, move_atr, idx));
            TouchAgg {
                tests: prev.tests + 1,
                touches: prev.touches + 1,
                hits: prev.hits + if f.success { 1int } else { 0 },
                total_reaction: prev.total_reaction + f.best_move,
                max_reaction: if f.best_move > prev.max_reaction {
                    f.best_move
                } else {
                    prev.max_reaction
                },
                total_reaction_bars: prev.total_reaction_bars + f.bars_to_best,
            }
        } else {
            prev
        }
    }
}

/// The performance record an aggregate yields: all zeros for a level that
/// was never touched.
pub open spec fn spec_perf_of(agg: TouchAgg) -> PerformanceStats {
    if agg.tests > 0 {
        PerformanceStats {
            touches: agg.touches as usize,
            tests: agg.tests as usize,
            hit_rate: (agg.hits * 1_000_000 / agg.tests) as i64,
            avg_reaction: (agg.total_reaction / agg.tests) as i64,
            max_favorable_excursion: agg.max_reaction as i64,
            avg_reaction_bars: (agg.total_reaction_bars * 1000 / agg.tests) as i64,
        }
    } else {
        empty_performance()
    }
}

/// The performance record of one level over a full bar series.
pub open spec fn spec_eval_level(
    bars: Seq<Bar>,
    atr: Seq<i64>,
    mean_atr: i64,
    lookahead: int,
    move_atr: i64,
    level: Level,
) -> PerformanceStats {
    spec_perf_of(
        spec_eval_upto(bars, atr, mean_atr, lookahead, move_atr, level, bars.len() as int),
    )
}

/// Mean of an ATR series, zero when it is empty.
pub open spec fn spec_atr_sum(atr: Seq<i64>, n: int) -> int
    decreases n,
{
    if n <= 0 {
        0
    } else {
        spec_atr_sum(atr, n - 1) + atr[n - 1]
    }
}

pub open spec fn spec_mean_atr(atr: Seq<i64>) -> int {
    if atr.len() == 0 {
        0
    } else {
        spec_atr_sum(atr, atr.len() as int) / atr.len() as int
    }
}

proof fn lemma_atr_sum_range(atr: Seq<i64>, n: int)
    requires
        atr_series_wf(atr),
        0 <= n <= atr.len(),
    ensures
        0 <= spec_atr_sum(atr, n) <= n * PRICE_CAP,
    decreases n,
{
    if n > 0 {
        lemma_atr_sum_range(atr, n - 1);
        assert((n - 1) * PRICE_CAP + PRICE_CAP == n * PRICE_CAP) by (nonlinear_arith);
    }
}

/// Bounds the forward-scan outcome for a well-formed level over
/// well-formed bars.
proof fn lemma_forward_bounds(bars: Seq<Bar>, level: Level, idx: int, k: int, required: int)
    requires
        bars_wf(bars),
        level_wf(level),
        0 <= idx,
        0 <= k,
        idx + k < bars.len(),
    ensures
        0 <= spec_forward(bars, level, idx, k, required).best_move
            <= LEVEL_PRICE_CAP + PRICE_CAP,
        0 <= spec_forward(bars, level, idx, k, required).bars_to_best <= k,
    decreases k,
{
    if k > 0 {
        lemma_forward_bounds(bars, level, idx, k - 1, required);
        assert(crate::data::bar_wf(bars[idx + k]));
    }
}

/// Bounds the touch aggregates; a level that no bar touches keeps the
/// all-zero aggregate.
proof fn lemma_eval_upto_bounds(
    bars: Seq<Bar>,
    atr: Seq<i64>,
    mean_atr: i64,
    lookahead: int,
    move_atr: i64,
    level: Level,
    i: int,
)
    requires
        bars_wf(bars),
        level_wf(level),
        0 <= i <= bars.len(),
        0 <= lookahead,
    ensures
        ({
            let agg = spec_eval_upto(bars, atr, mean_atr, lookahead, move_atr, level, i);
            &&& 0 <= agg.hits <= agg.tests
            &&& agg.touches == agg.tests
            &&& 0 <= agg.tests <= i
            &&& 0 <= agg.total_reaction <= agg.tests * (LEVEL_PRICE_CAP + PRICE_CAP)
            &&& 0 <= agg.max_reaction <= LEVEL_PRICE_CAP + PRICE_CAP
            &&& 0 <= agg.total_reaction_bars <= agg.tests * lookahead
            &&& ((forall|b: int| 0 <= b < i ==> !spec_touched(#[trigger] bars[b], level))
                ==> agg == spec_eval_upto(bars, atr, mean_atr, lookahead, move_atr, level, 0))
        }),
    decreases i,
{
    if i > 0 {
        lemma_eval_upto_bounds(bars, atr, mean_atr, lookahead, move_atr, level, i - 1);
        let prev = spec_eval_upto(bars, atr, mean_atr, lookahead, move_atr, level, i - 1);
        let idx = i - 1;
        if spec_touched(bars[idx], level) {
            let window = if idx + lookahead + 1 <= bars.len() {
                lookahead
            } else {
                bars.len() - 1 - idx
            };
            lemma_forward_bounds(bars, level, idx, window,
                spec_required(atr, mean_atr, move_atr, idx));
            let f = spec_forward(bars, level, idx, window,
                spec_required(atr, mean_atr, move_atr, idx));
            assert(prev.tests * (LEVEL_PRICE_CAP + PRICE_CAP) + (LEVEL_PRICE_CAP + PRICE_CAP)
                == (prev.tests + 1) * (LEVEL_PRICE_CAP + PRICE_CAP)) by (nonlinear_arith);
            assert(f.bars_to_best <= window <= lookahead);
            assert(prev.tests * lookahead + lookahead == (prev.tests + 1) * lookahead)
                by (nonlinear_arith);
        }
    }
}

/// The evaluated copy of one level: the same level with its performance
/// replaced by the backtest record.
pub open spec fn spec_evaluated(
    bars: Seq<Bar>,
    atr: Seq<i64>,
    lookahead: int,
    move_atr: i64,
    level: Level,
) -> Level {
    Level {
        performance: spec_eval_level(bars, atr, spec_mean_atr(atr) as i64, lookahead, move_atr,
            level),
        ..level
    }
}

/// The evaluated level sequence: every level with its performance
/// replaced by its backtest record; unchanged over an empty bar series.
pub open spec fn spec_evaluate_seq(
    levels: Seq<Level>,
    bars: Seq<Bar>,
    atr: Seq<i64>,
    lookahead: int,
    move_atr: i64,
) -> Seq<Level> {
    if bars.len() == 0 {
        levels
    } else {
        Seq::new(levels.len(), |k: int| spec_evaluated(bars, atr, lookahead, move_atr,
            levels[k]))
    }
}

/// Backtest every level against the bars: each level keeps its identity
/// and receives the touch/hit/reaction record of its tolerance band. A
/// level whose band no bar ever intersects receives the all-zero record,
/// and every hit rate lies in `[0, 1_000_000]` ppm.
pub fn evaluate_levels(
    levels: Vec<Level>,
    bars: &Vec<Bar>,
    atr: &Vec<i64>,
    reaction_lookahead: usize,
    reaction_move_atr: i64,
) -> (r: Vec<Level>)
    requires
        bars_wf(bars@),
        atr_series_wf(atr@),
        forall|k: int| 0 <= k < levels@.len() ==> level_wf(#[trigger] levels@[k]),
        forall|k: int| 0 <= k < levels@.len()
            ==> 0 <= (#[trigger] levels@[k]).performance.hit_rate <= 1_000_000,
        0 <= reaction_move_atr <= 1_000_000_000,
        reaction_lookahead <= SERIES_CAP,
    ensures
        r@.len() == levels@.len(),
        r@ == spec_evaluate_seq(levels@, bars@, atr@, reaction_lookahead as int,
            reaction_move_atr),
        bars@.len() == 0 ==> r@ == levels@,
        bars@.len() > 0 ==> forall|k: int| 0 <= k < levels@.len()
            ==> #[trigger] r@[k] == spec_evaluated(bars@, atr@, reaction_lookahead as int,
                reaction_move_atr, levels@[k]),
        forall|k: int| 0 <= k < r@.len() ==> level_wf(#[trigger] r@[k]),
        forall|k: int| 0 <= k < r@.len()
            ==> 0 <= (#[trigger] r@[k]).performance.hit_rate <= 1_000_000,
        bars@.len() > 0 ==> forall|k: int| 0 <= k < r@.len()
            ==> ((forall|b: int| 0 <= b < bars@.len()
                    ==> !spec_touched(#[trigger] bars@[b], levels@[k]))
                ==> (#[trigger] r@[k]).performance == empty_performance()),
    decreases levels@.len(),
{
    if bars.len() == 0 {
        return levels;
    }

    let n = bars.len();
    let mut mean_atr: i64 = 0;
    if atr.len() > 0 {
        let mut s: i128 = 0;
        let mut j: usize = 0;
        while j < atr.len()
            invariant
                atr_series_wf(atr@),
                j <= atr@.len(),
                s == spec_atr_sum(atr@, j as int),
                0 <= s <= (j as int) * PRICE_CAP,
            decreases atr@.len() - j,
        {
            proof {
                assert((j as int) * PRICE_CAP + PRICE_CAP == (j as int + 1) * PRICE_CAP)
                    by (nonlinear_arith);
            }
            s = s + atr[j] as i128;
            j = j + 1;
        }
        proof { lemma_avg_bound(s as int, atr@.len() as int, PRICE_CAP as int); }
        mean_atr = div_nn_i128(s, atr.len() as i128) as i64;
    }
    assert(mean_atr as int == spec_mean_atr(atr@));
    assert(0 <= mean_atr <= PRICE_CAP);

    let mut out: Vec<Level> = Vec::new();
    let mut li: usize = 0;
    while li < levels.len()
        invariant
            bars_wf(bars@),
            atr_series_wf(atr@),
            forall|k: int| 0 <= k < levels@.len() ==> level_wf(#[trigger] levels@[k]),
            0 <= reaction_move_atr <= 1_000_000_000,
            reaction_lookahead <= SERIES_CAP,
            n == bars@.len(),
            0 < n <= SERIES_CAP,
            mean_atr as int == spec_mean_atr(atr@),
            0 <= mean_atr <= PRICE_CAP,
            li <= levels@.len(),
            out@.len() == li as int,
            forall|k: int| 0 <= k < li as int
                ==> #[trigger] out@[k] == spec_evaluated(bars@, atr@, reaction_lookahead as int,
                    reaction_move_atr, levels@[k]),
            forall|k: int| 0 <= k < out@.len() ==> level_wf(#[trigger] out@[k]),
            forall|k: int| 0 <= k < out@.len()
                ==> 0 <= (#[trigger] out@[k]).performance.hit_rate <= 1_000_000,
        decreases levels@.len() - li,
    {
        let level = levels[li];
        assert(level_wf(levels@[li as int]));
        let ghost la = reaction_lookahead as int;

        let mut tests: usize = 0;
        let mut hits: usize = 0;
        let mut touches: usize = 0;
        let mut total_reaction: i128 = 0;
        let mut max_reaction: i64 = 0;
        let mut total_reaction_bars: i128 = 0;

        let mut idx: usize = 0;
        while idx < n
            invariant
                bars_wf(bars@),
                atr_series_wf(atr@),
                level_wf(level),
                level == levels@[li as int],
                li < levels@.len(),
                forall|k: int| 0 <= k < levels@.len() ==> level_wf(#[trigger] levels@[k]),
                0 <= reaction_move_atr <= 1_000_000_000,
                reaction_lookahead <= SERIES_CAP,
                la == reaction_lookahead as int,
                n == bars@.len(),
                0 < n <= SERIES_CAP,
                mean_atr as int == spec_mean_atr(atr@),
                0 <= mean_atr <= PRICE_CAP,
                idx <= n,
                ({
                    let agg = spec_eval_upto(bars@, atr@, mean_atr, la, reaction_move_atr,
                        level, idx as int);
                    &&& tests as int == agg.tests
                    &&& touches as int == agg.touches
                    &&& hits as int == agg.hits
                    &&& total_reaction as int == agg.total_reaction
                    &&& max_reaction as int == agg.max_reaction
                    &&& total_reaction_bars as int == agg.total_reaction_bars
                }),
                hits <= tests,
                tests as int <= idx as int,
                0 <= total_reaction <= (tests as int) * (LEVEL_PRICE_CAP + PRICE_CAP),
                0 <= max_reaction as int <= LEVEL_PRICE_CAP + PRICE_CAP,
                0 <= total_reaction_bars <= (tests as int) * (reaction_lookahead as int),
            decreases n - idx,
        {
            proof {
                lemma_eval_upto_bounds(bars@, atr@, mean_atr, la, reaction_move_atr, level,
                    idx as int + 1);
                lemma_eval_upto_bounds(bars@, atr@, mean_atr, la, reaction_move_atr, level,
                    idx as int);
            }
            let bar = bars[idx];
            let touched = bar.low <= level.price + level.confidence_band
                && bar.high >= level.price - level.confidence_band;
            if touched {
                tests = tests + 1;
                touches = touches + 1;
                let atr_raw: i64 = if idx < atr.len() { atr[idx] } else { mean_atr };
                let atr_ref: i64 = if atr_raw >= 1 { atr_raw } else { 1 };
                proof {
                    assert(0 <= (reaction_move_atr as int) * (atr_ref as int)
                        <= 10_000_000_000_000_000_000int) by (nonlinear_arith)
                        requires
                            0 <= reaction_move_atr as int <= 1_000_000_000int,
                            1 <= atr_ref as int <= 10_000_000_000int,
                    ;
                    lemma_avg_bound((reaction_move_atr as int) * (atr_ref as int), 1_000_000,
                        10_000_000_000_000int);
                }
                let required: i64 = div_nn_i128(
                    (reaction_move_atr as i128) * (atr_ref as i128),
                    1_000_000,
                ) as i64;
                assert(required as int
                    == spec_required(atr@, mean_atr, reaction_move_atr, idx as int));

                let mut best_move: i64 = 0;
                let mut bars_to_best: usize = 0;
                let mut success = false;
                let window: usize = if idx + reaction_lookahead + 1 <= n {
                    reaction_lookahead
                } else {
                    n - 1 - idx
                };
                let mut k: usize = 0;
                while k < window
                    invariant
                        bars_wf(bars@),
                        level_wf(level),
                        n == bars@.len(),
                        idx < n,
                        idx + window < n,
                        k <= window,
                        ({
                            let f = spec_forward(bars@, level, idx as int, k as int,
                                spec_required(atr@, mean_atr, reaction_move_atr, idx as int));
                            &&& best_move as int == f.best_move
                            &&& bars_to_best as int == f.bars_to_best
                            &&& success == f.success
                        }),
                        required as int
                            == spec_required(atr@, mean_atr, reaction_move_atr, idx as int),
                        0 <= best_move as int <= LEVEL_PRICE_CAP + PRICE_CAP,
                        bars_to_best <= k,
                    decreases window - k,
                {
                    let forward_bar = bars[idx + k + 1];
                    assert(crate::data::bar_wf(bars@[idx as int + k as int + 1]));
                    let movement: i64 = match level.level_type {
                        LevelType::Support => forward_bar.high - level.price,
                        LevelType::Resistance => level.price - forward_bar.low,
                    };
                    if movement > best_move {
                        best_move = movement;
                        bars_to_best = k + 1;
                    }
                    if movement >= required {
                        success = true;
                    }
                    k = k + 1;
                }
                if success {
                    hits = hits + 1;
                }
                proof {
                    assert(total_reaction as int
                        <= 10_000_000int * (LEVEL_PRICE_CAP + PRICE_CAP)) by (nonlinear_arith)
                        requires
                            total_reaction as int
                                <= (tests as int - 1) * (LEVEL_PRICE_CAP + PRICE_CAP),
                            tests as int - 1 <= 10_000_000int,
                    ;
                    assert(total_reaction_bars as int
                        <= 10_000_000int * 10_000_000int) by (nonlinear_arith)
                        requires
                            total_reaction_bars as int
                                <= (tests as int - 1) * (reaction_lookahead as int),
                            tests as int - 1 <= 10_000_000int,
                            0 <= reaction_lookahead as int <= 10_000_000int,
                    ;
                }
                total_reaction = total_reaction + best_move as i128;
                if best_move > max_reaction {
                    max_reaction = best_move;
                }
                total_reaction_bars = total_reaction_bars + bars_to_best as i128;
            }
            idx = idx + 1;
        }

        let performance: PerformanceStats = if tests > 0 {
            proof {
                assert((hits as int) * 1_000_000 <= (tests as int) * 1_000_000)
                    by (nonlinear_arith)
                    requires
                        hits as int <= tests as int,
                ;
                lemma_avg_bound((hits as int) * 1_000_000, tests as int, 1_000_000);
                lemma_avg_bound(total_reaction as int, tests as int,
                    LEVEL_PRICE_CAP + PRICE_CAP);
                assert((total_reaction_bars as int) * 1000
                    <= (tests as int) * ((SERIES_CAP as int) * 1000)) by (nonlinear_arith)
                    requires
                        0 <= total_reaction_bars as int
                            <= (tests as int) * (reaction_lookahead as int),
                        reaction_lookahead as int <= SERIES_CAP as int,
                        tests as int >= 1,
                ;
                lemma_avg_bound((total_reaction_bars as int) * 1000, tests as int,
                    (SERIES_CAP as int) * 1000);
            }
            PerformanceStats {
                touches,
                tests,
                hit_rate: div_nn_i128((hits as i128) * 1_000_000, tests as i128) as i64,
                avg_reaction: div_nn_i128(total_reaction, tests as i128) as i64,
                max_favorable_excursion: max_reaction,
                avg_reaction_bars: div_nn_i128(total_reaction_bars * 1000, tests as i128) as i64,
            }
        } else {
            PerformanceStats::empty()
        };
        let evaluated = Level { performance, ..level };
        proof {
            assert(evaluated == spec_evaluated(bars@, atr@, la, reaction_move_atr,
                levels@[li as int]));
        }
        out.push(evaluated);
        li = li + 1;
    }

    proof {
        assert(out@ =~= spec_evaluate_seq(levels@, bars@, atr@, reaction_lookahead as int,
            reaction_move_atr));
        assert forall|k: int| 0 <= k < out@.len()
            implies ((forall|b: int| 0 <= b < bars@.len()
                    ==> !spec_touched(#[trigger] bars@[b], levels@[k]))
                ==> (#[trigger] out@[k]).performance == empty_performance()) by {
            if forall|b: int| 0 <= b < bars@.len()
                ==> !spec_touched(#[trigger] bars@[b], levels@[k]) {
                lemma_eval_upto_bounds(bars@, atr@, mean_atr, reaction_lookahead as int,
                    reaction_move_atr, levels@[k], bars@.len() as int);
            }
        };
    }
    out
}

} // verus!
