//! Run configuration. Ratios that the command line states as decimals are
//! carried in parts per million; price distances in ticks.

use vstd::prelude::*;
use crate::data::PRICE_CAP;

verus! {

/// Configuration of one analysis run.
#[derive(Debug, Clone, PartialEq, Eq)]
pub struct AppConfig {
    /// Input CSV file path containing OHLCV data.
    pub input_path: String,
    /// ATR period for volatility estimation.
    pub atr_period: usize,
    /// ATR multiplier controlling swing detection sensitivity, ppm.
    pub atr_multiplier: i64,
    /// Minimum absolute swing distance to register a new swing, ticks.
    pub min_swing_distance: i64,
    /// Number of days of data to analyse; 0 uses all available history.
    pub lookback_days: usize,
    /// Use a multi-window, regime-aware level aggregation.
    pub regime_aware: bool,
    /// Apply a stronger recency weighting when estimating densities.
    pub strong_recency: bool,
    /// Enable EVT-based resistance projection.
    pub evt_resistance: bool,
    /// EVT lookback window (days) used to fit the tail distribution.
    pub ev_lookback_days: usize,
    /// Upper-tail probability used for the first EVT projection, ppm.
    pub ev_tail_probability: i64,
    /// Quantile defining the exceedance threshold for EVT, ppm.
    pub ev_threshold_quantile: i64,
    /// Maximum number of EVT resistance levels to generate.
    pub ev_max_levels: usize,
    /// KDE grid points for price density estimation.
    pub kde_points: usize,
    /// Neighborhood-radius scaling factor applied to the auto-estimated
    /// clustering epsilon, ppm.
    pub dbscan_eps_factor: i64,
    /// Minimum points to form a price cluster.
    pub dbscan_min_points: usize,
    /// Confidence band width in ATR multiples, ppm.
    pub confidence_band_atr: i64,
    /// Maximum number of levels to output.
    pub max_levels: usize,
    /// Lookahead bars for reaction evaluation.
    pub reaction_lookahead: usize,
    /// Reaction move threshold in ATR multiples, ppm.
    pub reaction_move_atr: i64,
}

/// The parameter ranges the pipeline arithmetic admits.
pub open spec fn config_wf(c: AppConfig) -> bool {
    &&& c.atr_period <= 1_000_000
    &&& 0 <= c.atr_multiplier <= 1_000_000_000
    &&& 0 <= c.min_swing_distance <= PRICE_CAP
    &&& c.lookback_days <= 100_000
    &&& c.ev_lookback_days <= 100_000
    &&& 0 <= c.ev_tail_probability <= 1_000_000
    &&& 0 <= c.ev_threshold_quantile <= 1_000_000
    &&& c.ev_max_levels <= 1_000
    &&& c.kde_points <= 1_000_000
    &&& 0 <= c.dbscan_eps_factor <= 1_000_000_000
    &&& c.dbscan_min_points <= 1_000_000
    &&& 0 <= c.confidence_band_atr <= 1_000_000_000
    &&& c.max_levels <= 1_000_000
    &&& c.reaction_lookahead <= 10_000_000
    &&& 0 <= c.reaction_move_atr <= 1_000_000_000
}

} // verus!
