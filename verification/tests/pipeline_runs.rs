use level_recon::data::{Bar, RthWindow, LevelType, SwingPoint, SwingType, PerformanceStats,
    Level};
use level_recon::config::AppConfig;
use level_recon::pipeline::{analyze, run_single_analysis, validate_series, filter_rth,
    filter_by_lookback, candidate_lookbacks, compute_ath, apply_recency_weighting,
    combine_level_sets, AnalysisError, AnalysisSettings};

fn bar(ts: i64, open: i64, high: i64, low: i64, close: i64, volume: i64) -> Bar {
    Bar { timestamp: ts, second_of_day: 36_000, open, high, low, close, volume }
}

fn config() -> AppConfig {
    AppConfig {
        input_path: String::new(),
        atr_period: 14,
        atr_multiplier: 300_000,
        min_swing_distance: 250_000,
        lookback_days: 0,
        regime_aware: false,
        strong_recency: false,
        evt_resistance: false,
        ev_lookback_days: 30,
        ev_tail_probability: 990_000,
        ev_threshold_quantile: 900_000,
        ev_max_levels: 2,
        kde_points: 400,
        dbscan_eps_factor: 1_000_000,
        dbscan_min_points: 3,
        confidence_band_atr: 1_000_000,
        max_levels: 12,
        reaction_lookahead: 20,
        reaction_move_atr: 500_000,
    }
}

/// Two hundred bars oscillating between two heavy price levels, with one
/// thin outlier spike.
fn two_cluster_bars() -> Vec<Bar> {
    let mut bars = Vec::new();
    for i in 0..200i64 {
        let phase = i % 10;
        // Triangle wave between 100 and 110 price units.
        let base = if phase < 5 {
            1_000_000 + phase * 20_000
        } else {
            1_100_000 - (phase - 5) * 20_000
        };
        let vol = if phase == 0 { 2_000 } else if phase == 5 { 500 } else { 100 };
        let mut b = bar(1_000_000 + i * 60, base, base + 4_000, base - 4_000, base, vol);
        if i == 95 {
            // A lone spike far above both clusters, on negligible volume.
            b.high = 2_000_000;
            b.volume = 1;
        }
        bars.push(b);
    }
    bars
}

#[test]
fn validate_rejects_short_and_unordered_series() {
    let short: Vec<Bar> = (0..5).map(|i| bar(i, 1, 2, 1, 1, 1)).collect();
    assert_eq!(validate_series(&short), Err(AnalysisError::TooFewBars));

    let mut unordered: Vec<Bar> = (0..12).map(|i| bar(i, 1, 2, 1, 1, 1)).collect();
    unordered[5].timestamp = 2;
    assert_eq!(validate_series(&unordered), Err(AnalysisError::NonMonotonicTimestamps));

    let fine: Vec<Bar> = (0..12).map(|i| bar(i, 1, 2, 1, 1, 1)).collect();
    assert_eq!(validate_series(&fine), Ok(()));
}

#[test]
fn rth_window_keeps_only_trading_hours() {
    let rth = RthWindow::default();
    assert!(rth.contains(34_200));
    assert!(rth.contains(50_000));
    assert!(!rth.contains(57_600));
    assert!(!rth.contains(10_000));

    let mut bars = vec![bar(0, 1, 2, 1, 1, 1), bar(60, 1, 2, 1, 1, 1)];
    bars[1].second_of_day = 3_600;
    let kept = filter_rth(&bars, rth);
    assert_eq!(kept.len(), 1);
    assert_eq!(kept[0].timestamp, 0);
}

#[test]
fn lookback_keeps_recent_bars_and_the_last_bar() {
    let day = 86_400i64;
    let bars: Vec<Bar> = (0..10).map(|i| bar(i * day, 1, 2, 1, 1, 1)).collect();
    let kept = filter_by_lookback(&bars, 3);
    assert_eq!(kept.len(), 4);
    assert_eq!(kept.last().unwrap().timestamp, bars.last().unwrap().timestamp);
    let all = filter_by_lookback(&bars, 0);
    assert_eq!(all.len(), 10);
}

#[test]
fn candidate_lookbacks_follow_the_ladder() {
    assert_eq!(candidate_lookbacks(0), vec![0, 90, 60, 45, 30, 20, 15, 10, 5]);
    assert_eq!(candidate_lookbacks(90), vec![90, 60, 45, 30, 20, 15, 10, 5, 0]);
    assert_eq!(candidate_lookbacks(30), vec![30, 60, 45, 20, 15, 10, 5, 0]);
}

#[test]
fn ath_prefers_later_ties() {
    let bars = vec![
        bar(0, 1, 500, 1, 1, 1),
        bar(60, 1, 900, 1, 1, 1),
        bar(120, 1, 900, 1, 1, 1),
        bar(180, 1, 200, 1, 1, 1),
    ];
    let ath = compute_ath(&bars).unwrap();
    assert_eq!(ath.price, 900);
    assert_eq!(ath.timestamp, 120);
    assert!(compute_ath(&Vec::new()).is_none());
}

#[test]
fn recency_weighting_decays_volume_with_age() {
    let reference: i64 = 3_592_000;
    let fresh = SwingPoint {
        index: 0,
        bar: bar(reference, 1, 2, 1, 1, 1_000),
        price: 1_000_000,
        swing_type: SwingType::Low,
        atr: 1,
    };
    let mut stale = fresh;
    stale.bar.timestamp = reference - 30 * 86_400;
    let out = apply_recency_weighting(&vec![fresh, stale], reference, 30);
    // The fresh swing keeps its weight; the stale one is halved.
    assert_eq!(out[0].bar.volume, 1_000);
    assert!(out[1].bar.volume >= 480 && out[1].bar.volume <= 520,
        "decayed volume was {}", out[1].bar.volume);
}

#[test]
fn combine_folds_nearby_levels_and_appends_the_rest() {
    let mk = |price: i64, conf: i64| Level {
        price,
        density: 0,
        confidence: conf,
        confidence_band: 10_000,
        level_type: LevelType::Support,
        performance: PerformanceStats::empty(),
        distance_from_last: 0,
    };
    let primary = vec![mk(1_000_000, 1_000_000)];
    let secondary = vec![mk(1_004_000, 1_000_000), mk(5_000_000, 400_000)];
    let combined = combine_level_sets(primary, secondary, 700_000, 300_000, 10_000);
    assert_eq!(combined.len(), 2);
    // The nearby secondary level folded into the primary one:
    // price = (1_000_000 * 0.7 + 1_004_000 * 0.3) / 1.0, confidence 1.0.
    assert_eq!(combined[0].confidence, 1_000_000);
    assert_eq!(combined[0].price, 1_001_200);
    assert_eq!(combined[1].price, 5_000_000);
    assert_eq!(combined[1].confidence, 120_000);
    assert!(combined[0].confidence >= combined[1].confidence);
}

#[test]
fn window_too_small_is_rejected() {
    let bars: Vec<Bar> = (0..2).map(|i| bar(i, 1, 2, 1, 1, 1)).collect();
    let r = run_single_analysis(&bars, &config(),
        AnalysisSettings { recency_half_life_days: None });
    assert_eq!(r.unwrap_err(), AnalysisError::InsufficientWindow);
}

#[test]
fn flat_series_fails_for_want_of_swings() {
    let bars: Vec<Bar> = (0..50)
        .map(|i| bar(i as i64 * 60, 1_000_000, 1_000_000, 1_000_000, 1_000_000, 10))
        .collect();
    let r = run_single_analysis(&bars, &config(),
        AnalysisSettings { recency_half_life_days: None });
    assert_eq!(r.unwrap_err(), AnalysisError::InsufficientSwings);
}

#[test]
fn two_clusters_give_two_levels_with_the_heavier_first() {
    let bars = two_cluster_bars();
    let r = run_single_analysis(&bars, &config(),
        AnalysisSettings { recency_half_life_days: None })
        .unwrap();
    assert!(r.swing_count >= 8);
    assert_eq!(r.levels.len(), 2, "levels: {:?}", r.levels);
    // The heavier cluster sits near 100 price units and ranks first.
    assert!(r.levels[0].price >= 980_000 && r.levels[0].price <= 1_020_000,
        "first level at {}", r.levels[0].price);
    assert!(r.levels[1].price >= 1_080_000 && r.levels[1].price <= 1_120_000,
        "second level at {}", r.levels[1].price);
    assert!(r.levels[0].confidence > r.levels[1].confidence);
    // The outlier spike near 200 units produced no level.
    for l in &r.levels {
        assert!(l.price < 1_500_000);
    }
}

#[test]
fn analyze_runs_end_to_end_on_the_two_cluster_series() {
    let bars = two_cluster_bars();
    let report = analyze(&bars, &config()).unwrap();
    assert_eq!(report.levels.len(), 2);
    assert!(report.current_price > 0);
    assert!(report.ath.is_some());
    assert_eq!(report.ath.unwrap().price, 2_000_000);
    assert!(!report.density.grid.is_empty());
    for w in report.levels.windows(2) {
        assert!(w[0].confidence >= w[1].confidence);
    }
}

#[test]
fn analyze_rejects_an_empty_trading_window() {
    let mut bars: Vec<Bar> = (0..20)
        .map(|i| bar(i as i64 * 60, 1_000_000, 1_010_000, 990_000, 1_000_000, 10))
        .collect();
    for b in bars.iter_mut() {
        b.second_of_day = 3_600;
    }
    assert_eq!(analyze(&bars, &config()).unwrap_err(), AnalysisError::EmptyTradingWindow);
}

#[test]
fn analyze_with_regime_and_evt_stays_ranked_and_bounded() {
    let bars = two_cluster_bars();
    let mut cfg = config();
    cfg.regime_aware = true;
    cfg.evt_resistance = true;
    let report = analyze(&bars, &cfg).unwrap();
    assert!(report.levels.len() >= 1);
    assert!(report.levels.len() <= cfg.max_levels + cfg.ev_max_levels);
    for w in report.levels.windows(2) {
        assert!(w[0].confidence >= w[1].confidence);
    }
    for l in &report.levels {
        assert!(l.confidence_band > 0);
    }
}
