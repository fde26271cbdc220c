//! Discovery and backtesting of support/resistance price levels from OHLCV
//! bar series. All prices, volatility figures and probabilities are carried
//! as scaled integers (fixed point), so the whole analytical pipeline is
//! verified arithmetic: prices in ticks of 1/10_000 of a price unit,
//! ratios and probabilities in parts per million.

use vstd::prelude::*;

pub mod atr;
pub mod clustering;
pub mod config;
pub mod data;
pub mod density;
pub mod evt;
pub mod levels;
pub mod math;
pub mod peaks;
pub mod pipeline;
pub mod sort;
pub mod stats;
pub mod swings;
pub mod util;

verus! {

/// Ticks per price unit: prices, bands and ATR values are stored in ticks.
pub const PRICE_SCALE: i64 = 10_000;

} // verus!
