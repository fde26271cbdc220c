use level_recon::data::{Bar, LevelType, SwingPoint, SwingType};
use level_recon::density::compute_density_curve;
use level_recon::levels::build_levels;
use level_recon::peaks::{detect_peaks, DensityPeak};

fn peak(price: i64, density: i64, prominence: i64) -> DensityPeak {
    DensityPeak { price, density, prominence }
}

#[test]
fn confidence_blends_density_and_prominence_sixty_forty() {
    let peaks = vec![
        peak(1_000_000, 2_000, 1_000),
        peak(2_000_000, 1_000, 2_000),
    ];
    let levels = build_levels(&peaks, 2_000, 1_500_000, 50_000, 1_000_000, 10);
    assert_eq!(levels.len(), 2);
    // First peak: density score 1.0, prominence score 0.5 -> 0.8.
    assert_eq!(levels[0].confidence, 800_000);
    assert_eq!(levels[0].price, 1_000_000);
    assert_eq!(levels[0].level_type, LevelType::Support);
    assert_eq!(levels[0].confidence_band, 50_000);
    assert_eq!(levels[0].distance_from_last, 500_000);
    // Second peak: density score 0.5, prominence score 1.0 -> 0.7.
    assert_eq!(levels[1].confidence, 700_000);
    assert_eq!(levels[1].level_type, LevelType::Resistance);
    assert_eq!(levels[1].performance.tests, 0);
}

#[test]
fn truncation_keeps_the_most_confident_levels() {
    let peaks = vec![
        peak(1_000_000, 2_000, 1_000),
        peak(2_000_000, 1_000, 2_000),
    ];
    let levels = build_levels(&peaks, 2_000, 1_500_000, 50_000, 1_000_000, 1);
    assert_eq!(levels.len(), 1);
    assert_eq!(levels[0].confidence, 800_000);
}

#[test]
fn band_falls_back_when_the_atr_band_is_not_positive() {
    let peaks = vec![peak(1_000_000, 2_000, 1_000)];
    let levels = build_levels(&peaks, 2_000, 500_000, 0, 1_000_000, 10);
    // A tenth of a percent of the price is only 1_000 ticks, so the floor
    // of a quarter unit wins.
    assert_eq!(levels[0].confidence_band, 2_500);
    assert_eq!(levels[0].level_type, LevelType::Resistance);
}

#[test]
fn no_peaks_give_no_levels() {
    let peaks: Vec<DensityPeak> = Vec::new();
    assert_eq!(build_levels(&peaks, 0, 0, 0, 0, 5).len(), 0);
}

fn swing(index: usize, price: i64, volume: i64) -> SwingPoint {
    SwingPoint {
        index,
        bar: Bar {
            timestamp: index as i64 * 60,
            second_of_day: 36_000,
            open: price,
            high: price + 1_000,
            low: price - 1_000,
            close: price,
            volume,
        },
        price,
        swing_type: if index % 2 == 0 { SwingType::Low } else { SwingType::High },
        atr: 10_000,
    }
}

#[test]
fn detected_peaks_beat_their_grid_neighbours() {
    // Two price masses wide apart: the density curve has two humps.
    let mut swings = Vec::new();
    for i in 0..10usize {
        swings.push(swing(i, 1_000_000, 1_000));
    }
    for i in 10..20usize {
        swings.push(swing(i, 1_500_000, 400));
    }
    let d = compute_density_curve(&swings, 201);
    let peaks = detect_peaks(&d);
    assert!(peaks.len() >= 2, "peaks found: {}", peaks.len());
    for p in &peaks {
        assert!(p.prominence >= 0 && p.prominence <= p.density);
        // Find the grid point of the peak and compare to its neighbours.
        let idx = d.grid.iter().position(|g| g.price == p.price
            && g.density == p.density).unwrap();
        assert!(idx > 0 && idx + 1 < d.grid.len());
        assert!(d.grid[idx].density > d.grid[idx - 1].density);
        assert!(d.grid[idx].density > d.grid[idx + 1].density);
    }
    // Sorted by descending prominence.
    for w in peaks.windows(2) {
        assert!(w[0].prominence >= w[1].prominence);
    }
}
