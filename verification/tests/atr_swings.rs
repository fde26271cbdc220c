use level_recon::data::{Bar, SwingType};
use level_recon::atr::compute_atr;
use level_recon::swings::detect_swings;

fn bar(ts: i64, open: i64, high: i64, low: i64, close: i64, volume: i64) -> Bar {
    Bar { timestamp: ts, second_of_day: 36_000, open, high, low, close, volume }
}

#[test]
fn atr_empty_input_gives_empty_series() {
    let bars: Vec<Bar> = Vec::new();
    assert_eq!(compute_atr(&bars, 14).len(), 0);
}

#[test]
fn atr_zero_period_gives_empty_series() {
    let bars = vec![bar(0, 10_000, 20_000, 5_000, 15_000, 10)];
    assert_eq!(compute_atr(&bars, 0).len(), 0);
}

#[test]
fn atr_length_matches_input_and_values_nonnegative() {
    let mut bars = Vec::new();
    for i in 0..40i64 {
        let base = 1_000_000 + i * 3_000;
        bars.push(bar(i * 60, base, base + 12_000, base - 9_000, base + 1_000, 100));
    }
    let atr = compute_atr(&bars, 14);
    assert_eq!(atr.len(), bars.len());
    for v in &atr {
        assert!(*v >= 0);
    }
}

#[test]
fn atr_constant_true_range_stays_at_that_range() {
    // Every bar spans exactly 50_000 ticks and opens where the last closed,
    // so the true range is constant; the smoothed series must equal it.
    let mut bars = Vec::new();
    for i in 0..30i64 {
        let low = 1_000_000;
        let high = 1_050_000;
        bars.push(bar(i * 60, low, high, low, high, 10));
    }
    // prev close == high, so |high - prev_close| == 0 and
    // |low - prev_close| == 50_000 == high - low.
    let atr = compute_atr(&bars, 14);
    for v in &atr {
        assert_eq!(*v, 50_000);
    }
}

#[test]
fn atr_short_series_uses_mean_true_range() {
    let bars = vec![
        bar(0, 1_000_000, 1_020_000, 1_000_000, 1_020_000, 1),
        bar(60, 1_020_000, 1_060_000, 1_020_000, 1_060_000, 1),
    ];
    // true ranges: 20_000 and max(40_000, |1_060_000-1_020_000|, 0) = 40_000.
    let atr = compute_atr(&bars, 14);
    assert_eq!(atr, vec![30_000, 30_000]);
}

#[test]
fn swings_start_with_initial_low_and_strictly_increasing_indices() {
    let mut bars = Vec::new();
    // A zig-zag: five bars up, five bars down, amplitude 100_000 ticks.
    for i in 0..60i64 {
        let phase = i % 10;
        let base = if phase < 5 { 1_000_000 + phase * 20_000 } else {
            1_100_000 - (phase - 5) * 20_000
        };
        bars.push(bar(i * 60, base, base + 5_000, base - 5_000, base, 100));
    }
    let atr = compute_atr(&bars, 14);
    let swings = detect_swings(&bars, &atr, 300_000, 30_000);
    assert!(swings.len() >= 2);
    assert_eq!(swings[0].index, 0);
    assert_eq!(swings[0].swing_type, SwingType::Low);
    for w in swings.windows(2) {
        assert!(w[0].index < w[1].index);
        assert!(!(w[0].index == w[1].index && w[0].swing_type == w[1].swing_type));
    }
}

#[test]
fn swings_unreachable_threshold_leaves_only_initial_low() {
    let mut bars = Vec::new();
    for i in 0..30i64 {
        let base = 1_000_000 + (i % 7) * 10_000;
        bars.push(bar(i * 60, base, base + 8_000, base - 8_000, base, 50));
    }
    let atr = compute_atr(&bars, 14);
    // The whole series spans far less than the minimum swing distance.
    let swings = detect_swings(&bars, &atr, 0, 10_000_000);
    assert_eq!(swings.len(), 1);
    assert_eq!(swings[0].index, 0);
    assert_eq!(swings[0].swing_type, SwingType::Low);
    assert_eq!(swings[0].price, bars[0].low);
}

#[test]
fn swings_reuse_the_last_atr_value_when_the_series_is_exhausted() {
    // Three bars but only two ATR entries: the threshold at the third bar
    // must come from the last ATR value (one price unit), not the first
    // (a hundred units), so the 50-unit rally still confirms a high.
    let bars = vec![
        bar(0, 1_000_000, 1_010_000, 1_000_000, 1_005_000, 10),
        bar(60, 1_005_000, 1_005_000, 1_002_000, 1_003_000, 10),
        bar(120, 1_003_000, 1_500_000, 1_003_000, 1_480_000, 10),
    ];
    let atr = vec![1_000_000, 10_000];
    let swings = detect_swings(&bars, &atr, 1_000_000, 0);
    assert_eq!(swings.len(), 2);
    assert_eq!(swings[1].swing_type, SwingType::High);
    assert_eq!(swings[1].index, 2);
    assert_eq!(swings[1].price, 1_500_000);
}

#[test]
fn swings_alternate_types() {
    let mut bars = Vec::new();
    for i in 0..60i64 {
        let phase = i % 10;
        let base = if phase < 5 { 1_000_000 + phase * 20_000 } else {
            1_100_000 - (phase - 5) * 20_000
        };
        bars.push(bar(i * 60, base, base + 5_000, base - 5_000, base, 100));
    }
    let atr = compute_atr(&bars, 14);
    let swings = detect_swings(&bars, &atr, 100_000, 30_000);
    for w in swings.windows(2) {
        assert_ne!(w[0].swing_type, w[1].swing_type);
    }
}
