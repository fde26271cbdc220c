use level_recon::data::{Bar, Level, LevelType, PerformanceStats};
use level_recon::evt::compute_evt_resistances;
use level_recon::stats::evaluate_levels;
use level_recon::pipeline::build_evt_tail_probs;

fn bar_hl(ts: i64, high: i64, low: i64, volume: i64) -> Bar {
    Bar {
        timestamp: ts,
        second_of_day: 36_000,
        open: low,
        high,
        low,
        close: low,
        volume,
    }
}

fn level(price: i64, band: i64, kind: LevelType) -> Level {
    Level {
        price,
        density: 0,
        confidence: 500_000,
        confidence_band: band,
        level_type: kind,
        performance: PerformanceStats::empty(),
        distance_from_last: 0,
    }
}

#[test]
fn evt_needs_fifty_bars_and_probabilities() {
    let bars: Vec<Bar> = (0..49)
        .map(|i| bar_hl(i as i64 * 60, 1_000_000 + i as i64, 990_000, 10))
        .collect();
    assert_eq!(
        compute_evt_resistances(&bars, &vec![990_000], 900_000, 10_000, 900_000).len(),
        0,
    );
    let bars2: Vec<Bar> = (0..60)
        .map(|i| bar_hl(i as i64 * 60, 1_000_000 + i as i64, 990_000, 10))
        .collect();
    assert_eq!(
        compute_evt_resistances(&bars2, &Vec::new(), 900_000, 10_000, 900_000).len(),
        0,
    );
}

#[test]
fn evt_recovers_an_exponential_tail_quantile() {
    // Ninety-one base highs ending at the threshold, then nine exceedances
    // drawn from an exponential tail with a scale of two price units:
    // e_k = 20_000 * ln(10 / k) ticks.
    let mut bars = Vec::new();
    for i in 0..91i64 {
        bars.push(bar_hl(i * 60, 1_020_000 + i, 990_000, 10));
    }
    let exceedances: [i64; 9] = [46_052, 32_189, 24_079, 18_326, 13_863, 10_217, 7_133,
        4_463, 2_107];
    for (k, e) in exceedances.iter().enumerate() {
        bars.push(bar_hl((91 + k as i64) * 60, 1_020_090 + e, 990_000, 10));
    }
    let levels = compute_evt_resistances(&bars, &vec![990_000], 900_000, 10_000, 1_000_000);
    assert_eq!(levels.len(), 1);
    let l = &levels[0];
    assert_eq!(l.level_type, LevelType::Resistance);
    assert_eq!(l.confidence, 990_000);
    // Analytic inverse for the true tail: threshold + 20_000 * ln(9).
    let analytic = 1_020_090 + 43_944;
    assert!(l.price > analytic - 15_000, "price too low: {}", l.price);
    assert!(l.price < analytic + 15_000, "price too high: {}", l.price);
}

#[test]
fn evt_emits_fallback_when_no_probability_is_valid() {
    // With a tail probability of zero, the tail never beats the exceedance
    // rate, so the single fallback level appears one band above the top.
    let mut bars = Vec::new();
    for i in 0..100i64 {
        bars.push(bar_hl(i * 60, 1_000_000 + i * 100, 990_000, 10));
    }
    let levels = compute_evt_resistances(&bars, &vec![0], 900_000, 20_000, 900_000);
    assert_eq!(levels.len(), 1);
    assert_eq!(levels[0].level_type, LevelType::Resistance);
    let max_high = 1_000_000 + 99 * 100;
    assert_eq!(levels[0].price, max_high + 20_000);
}

#[test]
fn tail_probability_ladder_clamps_and_steps() {
    let probs = build_evt_tail_probs(990_000, 3);
    assert_eq!(probs, vec![990_000, 992_500, 995_000]);
    let clamped = build_evt_tail_probs(100, 2);
    assert_eq!(clamped, vec![800_000, 802_500]);
    let capped = build_evt_tail_probs(2_000_000, 3);
    assert_eq!(capped, vec![999_900, 999_900, 999_900]);
    assert_eq!(build_evt_tail_probs(990_000, 0).len(), 0);
}

#[test]
fn untouched_level_keeps_the_empty_record() {
    let mut bars = Vec::new();
    for i in 0..30i64 {
        bars.push(bar_hl(i * 60, 1_010_000, 1_000_000, 10));
    }
    let atr = vec![5_000; 30];
    let far = level(5_000_000, 10_000, LevelType::Resistance);
    let near = level(1_005_000, 10_000, LevelType::Support);
    let out = evaluate_levels(vec![far, near], &bars, &atr, 5, 500_000);
    assert_eq!(out.len(), 2);
    assert_eq!(out[0].performance.tests, 0);
    assert_eq!(out[0].performance.touches, 0);
    assert_eq!(out[0].performance.hit_rate, 0);
    assert_eq!(out[0].performance.avg_reaction, 0);
    assert_eq!(out[0].performance.max_favorable_excursion, 0);
    assert_eq!(out[0].performance.avg_reaction_bars, 0);
    assert!(out[1].performance.tests > 0);
}

#[test]
fn hit_rate_stays_in_range_and_counts_touches() {
    let mut bars = Vec::new();
    for i in 0..40i64 {
        let low = 1_000_000 + (i % 5) * 2_000;
        bars.push(bar_hl(i * 60, low + 30_000, low, 10));
    }
    let atr = vec![10_000; 40];
    let l = level(1_010_000, 15_000, LevelType::Support);
    let out = evaluate_levels(vec![l], &bars, &atr, 10, 500_000);
    let perf = &out[0].performance;
    assert!(perf.tests > 0);
    assert_eq!(perf.tests, perf.touches);
    assert!(perf.hit_rate >= 0 && perf.hit_rate <= 1_000_000);
    assert!(perf.avg_reaction >= 0);
    assert!(perf.max_favorable_excursion >= perf.avg_reaction);
}

#[test]
fn empty_bars_leave_levels_unchanged() {
    let bars: Vec<Bar> = Vec::new();
    let atr: Vec<i64> = Vec::new();
    let l = level(1_000_000, 10_000, LevelType::Support);
    let out = evaluate_levels(vec![l], &bars, &atr, 5, 500_000);
    assert_eq!(out.len(), 1);
    assert_eq!(out[0].price, 1_000_000);
    assert_eq!(out[0].performance.tests, 0);
}
