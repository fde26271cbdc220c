//! Core data model of the pipeline. Every quantity is a plain integer:
//! prices, bands and ATR values in ticks (`PRICE_SCALE` ticks per price
//! unit), volumes in whole units, probabilities / confidences / rates in
//! parts per million, timestamps in seconds since the epoch.

use vstd::prelude::*;

verus! {

/// Largest admissible price in ticks (one million price units).
pub const PRICE_CAP: i64 = 10_000_000_000;

/// Largest admissible per-bar volume.
pub const VOLUME_CAP: i64 = 1_000_000_000;

/// Largest admissible timestamp in seconds since the epoch.
pub const TIMESTAMP_CAP: i64 = 100_000_000_000;

/// Largest admissible number of bars in one series.
pub const SERIES_CAP: usize = 10_000_000;

/// Seconds in one day.
pub const SECONDS_PER_DAY: i64 = 86_400;

/// Single OHLCV bar sampled at a uniform interval.
#[derive(Debug, Clone, Copy, PartialEq, Eq, Structural)]
pub struct Bar {
    /// Seconds since the epoch; strictly increasing across a valid series.
    pub timestamp: i64,
    /// Seconds since local (exchange time) midnight, for the trading-hours
    /// window test.
    pub second_of_day: i64,
    pub open: i64,
    pub high: i64,
    pub low: i64,
    pub close: i64,
    pub volume: i64,
}

/// A bar whose fields are inside the ranges the pipeline arithmetic admits.
pub open spec fn bar_wf(b: Bar) -> bool {
    &&& 0 <= b.low <= b.high <= PRICE_CAP
    &&& 0 <= b.open <= PRICE_CAP
    &&& 0 <= b.close <= PRICE_CAP
    &&& 0 <= b.volume <= VOLUME_CAP
    &&& 0 <= b.timestamp <= TIMESTAMP_CAP
    &&& 0 <= b.second_of_day < SECONDS_PER_DAY
}

/// A bar series the pipeline accepts: bounded length, each bar well formed.
pub open spec fn bars_wf(s: Seq<Bar>) -> bool {
    &&& s.len() <= SERIES_CAP
    &&& forall|i: int| 0 <= i < s.len() ==> bar_wf(#[trigger] s[i])
}

#[derive(Debug, Clone, Copy, PartialEq, Eq, Structural)]
pub enum SwingType {
    High,
    Low,
}

/// Extracted price swing with context.
#[derive(Debug, Clone, Copy, PartialEq, Eq, Structural)]
pub struct SwingPoint {
    pub index: usize,
    pub bar: Bar,
    /// Pivot price in ticks: the bar's high or low, by `swing_type`.
    pub price: i64,
    pub swing_type: SwingType,
    /// ATR in ticks at the pivot's index.
    pub atr: i64,
}

/// A swing point whose fields are in range and consistent with its bar.
pub open spec fn swing_wf(s: SwingPoint) -> bool {
    &&& bar_wf(s.bar)
    &&& 0 <= s.price <= PRICE_CAP
    &&& 0 <= s.atr <= PRICE_CAP
    &&& s.index < SERIES_CAP
}

pub open spec fn swings_wf(s: Seq<SwingPoint>) -> bool {
    &&& s.len() <= SERIES_CAP
    &&& forall|i: int| 0 <= i < s.len() ==> swing_wf(#[trigger] s[i])
}

/// Cluster of similar swing prices.
#[derive(Debug, Clone, Copy, PartialEq, Eq, Structural)]
pub struct PriceCluster {
    pub id: usize,
    /// Volume-weighted representative price in ticks.
    pub representative_price: i64,
    pub total_volume: i64,
    pub swing_count: usize,
}

/// Sampled point of the price-density curve. The density is per price unit,
/// scaled by `DENSITY_SCALE`.
#[derive(Debug, Clone, Copy, PartialEq, Eq, Structural)]
pub struct DensityPoint {
    pub price: i64,
    pub density: i64,
}

#[derive(Debug, Clone, Copy, PartialEq, Eq, Structural)]
pub enum LevelType {
    Support,
    Resistance,
}

/// Backtest aggregates of one level. Rates are parts per million;
/// reactions are ticks; `avg_reaction_bars` is thousandths of a bar.
#[derive(Debug, Clone, Copy, PartialEq, Eq, Structural)]
pub struct PerformanceStats {
    pub touches: usize,
    pub tests: usize,
    pub hit_rate: i64,
    pub avg_reaction: i64,
    pub max_favorable_excursion: i64,
    pub avg_reaction_bars: i64,
}

impl PerformanceStats {
    /// The all-zero record: the level was never tested.
    pub fn empty() -> (r: PerformanceStats)
        ensures
            r == empty_performance(),
    {
        PerformanceStats {
            touches: 0,
            tests: 0,
            hit_rate: 0,
            avg_reaction: 0,
            max_favorable_excursion: 0,
            avg_reaction_bars: 0,
        }
    }
}

/// The record `PerformanceStats::empty` returns.
pub open spec fn empty_performance() -> PerformanceStats {
    PerformanceStats {
        touches: 0,
        tests: 0,
        hit_rate: 0,
        avg_reaction: 0,
        max_favorable_excursion: 0,
        avg_reaction_bars: 0,
    }
}

/// A discovered support/resistance level. `confidence` is parts per
/// million; `price`, `confidence_band` and `distance_from_last` are ticks;
/// `density` is per price unit scaled by `DENSITY_SCALE`.
#[derive(Debug, Clone, Copy, PartialEq, Eq, Structural)]
pub struct Level {
    pub price: i64,
    pub density: i64,
    pub confidence: i64,
    pub confidence_band: i64,
    pub level_type: LevelType,
    pub performance: PerformanceStats,
    pub distance_from_last: i64,
}

/// Largest admissible level price or band, in ticks. Extrapolated levels
/// may leave the bar-price range, but stay within this cap.
pub const LEVEL_PRICE_CAP: i64 = 1_000_000_000_000_000;

/// A level the evaluator and combiner accept: bounded price, a strictly
/// positive tolerance band, a nonnegative confidence. Confidences start
/// in `[0, 1_000_000]` ppm but may exceed that after regime combination.
pub open spec fn level_wf(l: Level) -> bool {
    &&& -LEVEL_PRICE_CAP <= l.price <= LEVEL_PRICE_CAP
    &&& 0 < l.confidence_band <= LEVEL_PRICE_CAP
    &&& 0 <= l.confidence
    &&& 0 <= l.distance_from_last
    &&& 0 <= l.density
}

/// Regular trading hours window, in seconds since local midnight.
#[derive(Debug, Clone, Copy, PartialEq, Eq, Structural)]
pub struct RthWindow {
    pub start: i64,
    pub end: i64,
}

impl Default for RthWindow {
    /// 09:30 to 16:00 exchange time.
    fn default() -> (r: Self)
        ensures
            r.start == 34_200 && r.end == 57_600,
    {
        Self { start: 34_200, end: 57_600 }
    }
}

impl RthWindow {
    /// Whether a moment, given as seconds since local midnight, lies in the
    /// half-open window.
    pub fn contains(&self, second_of_day: i64) -> (r: bool)
        ensures
            r == (self.start <= second_of_day < self.end),
    {
        self.start <= second_of_day && second_of_day < self.end
    }
}

} // verus!
