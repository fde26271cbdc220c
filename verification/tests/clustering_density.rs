use level_recon::data::{Bar, SwingPoint, SwingType, DensityPoint};
use level_recon::clustering::{auto_dbscan_epsilon, cluster_swings, median};
use level_recon::density::{compute_density_curve, DensityAnalysis};
use level_recon::peaks::detect_peaks;

fn bar(ts: i64, price: i64, volume: i64) -> Bar {
    Bar {
        timestamp: ts,
        second_of_day: 36_000,
        open: price,
        high: price + 1_000,
        low: price - 1_000,
        close: price,
        volume,
    }
}

fn swing(index: usize, price: i64, volume: i64) -> SwingPoint {
    SwingPoint {
        index,
        bar: bar(index as i64 * 60, price, volume),
        price,
        swing_type: if index % 2 == 0 { SwingType::Low } else { SwingType::High },
        atr: 10_000,
    }
}

#[test]
fn median_of_odd_and_even_counts() {
    assert_eq!(median(&vec![5, 1, 3]), Some(3));
    assert_eq!(median(&vec![4, 1, 3, 2]), Some(2));
    assert_eq!(median(&Vec::new()), None);
}

#[test]
fn auto_epsilon_uses_median_spacing() {
    let swings = vec![
        swing(0, 1_000_000, 10),
        swing(1, 1_010_000, 10),
        swing(2, 1_020_000, 10),
        swing(3, 1_030_000, 10),
        swing(4, 1_040_000, 10),
    ];
    assert_eq!(auto_dbscan_epsilon(&swings), 10_000);
}

#[test]
fn auto_epsilon_falls_back_on_zero_median() {
    let swings = vec![
        swing(0, 2_000_000, 10),
        swing(1, 2_000_000, 10),
        swing(2, 2_000_000, 10),
    ];
    // All spacings are zero, so a tenth of a percent of the top price wins.
    assert_eq!(auto_dbscan_epsilon(&swings), 2_000);
}

#[test]
fn clusters_respect_min_points_and_member_ranges() {
    let mut swings = Vec::new();
    // Five swings near one price, four near another, one lone outlier.
    for i in 0..5usize {
        swings.push(swing(i, 1_000_000 + i as i64 * 100, 50));
    }
    for i in 0..4usize {
        swings.push(swing(5 + i, 2_000_000 + i as i64 * 100, 80));
    }
    swings.push(swing(9, 5_000_000, 1));

    let r = cluster_swings(&swings, 1_000, 3);
    assert_eq!(r.clusters.len(), 2);
    let mut total = 0usize;
    for c in &r.clusters {
        assert!(c.swing_count >= 3);
        total += c.swing_count;
    }
    assert_eq!(total, r.inliers.len());
    assert!(r.inliers.len() <= swings.len());
    assert!(r.clusters[0].representative_price >= 1_000_000);
    assert!(r.clusters[0].representative_price <= 1_000_400);
    assert!(r.clusters[1].representative_price >= 2_000_000);
    assert!(r.clusters[1].representative_price <= 2_000_300);
    // The outlier run is too small for a cluster and is dropped.
    for s in &r.inliers {
        assert!(s.price < 5_000_000);
    }
}

#[test]
fn cluster_ids_count_up_and_nonpositive_epsilon_empties() {
    let swings = vec![swing(0, 1_000_000, 1), swing(1, 1_000_100, 1)];
    let r = cluster_swings(&swings, 0, 1);
    assert_eq!(r.clusters.len(), 0);
    assert_eq!(r.inliers.len(), 0);

    let r2 = cluster_swings(&swings, 1_000, 1);
    assert_eq!(r2.clusters.len(), 1);
    assert_eq!(r2.clusters[0].id, 0);
    assert_eq!(r2.clusters[0].swing_count, 2);
}

#[test]
fn density_degenerate_inputs_are_empty() {
    let one = vec![swing(0, 1_000_000, 10)];
    let d = compute_density_curve(&one, 400);
    assert!(d.grid.is_empty());
    assert_eq!(d.max_density, 0);

    let two = vec![swing(0, 1_000_000, 10), swing(1, 1_100_000, 10)];
    let d2 = compute_density_curve(&two, 2);
    assert!(d2.grid.is_empty());
}

#[test]
fn density_is_nonnegative_and_max_is_attained() {
    let mut swings = Vec::new();
    for i in 0..16usize {
        swings.push(swing(i, 1_000_000 + (i as i64 % 4) * 40_000, 100));
    }
    let d = compute_density_curve(&swings, 101);
    assert_eq!(d.grid.len(), 101);
    let mut seen_max = false;
    for p in &d.grid {
        assert!(p.density >= 0);
        assert!(p.density <= d.max_density);
        if p.density == d.max_density {
            seen_max = true;
        }
    }
    assert!(seen_max);
    // The grid ascends with a fixed step.
    let step = d.grid[1].price - d.grid[0].price;
    for w in d.grid.windows(2) {
        assert_eq!(w[1].price - w[0].price, step);
    }
}

#[test]
fn density_mass_is_near_one_for_well_covered_input() {
    // Sixteen swings spread over 150 price units: the grid margin covers
    // most of every kernel, so the discrete mass is near one.
    let mut swings = Vec::new();
    for i in 0..16usize {
        swings.push(swing(i, 1_000_000 + i as i64 * 100_000, 100));
    }
    let d = compute_density_curve(&swings, 1001);
    let step = d.grid[1].price - d.grid[0].price;
    let mut mass: i128 = 0;
    for p in &d.grid {
        mass += p.density as i128 * step as i128;
    }
    // Units: density is per price unit at scale 1e9; step is ticks at 1e4
    // per unit. Full mass would be 1e13.
    assert!(mass > 8_000_000_000_000, "mass too small: {}", mass);
    assert!(mass < 11_000_000_000_000, "mass too large: {}", mass);
}

#[test]
fn peaks_exceed_neighbours_and_prominence_at_most_density() {
    let grid = vec![
        DensityPoint { price: 0, density: 10 },
        DensityPoint { price: 1, density: 50 },
        DensityPoint { price: 2, density: 20 },
        DensityPoint { price: 3, density: 70 },
        DensityPoint { price: 4, density: 5 },
    ];
    let d = DensityAnalysis { grid, bandwidths: vec![1], max_density: 70 };
    let peaks = detect_peaks(&d);
    assert_eq!(peaks.len(), 2);
    // Sorted by descending prominence: 70 - 5 = 65 beats 50 - 10 = 40.
    assert_eq!(peaks[0].price, 3);
    assert_eq!(peaks[0].density, 70);
    assert_eq!(peaks[0].prominence, 65);
    assert_eq!(peaks[1].price, 1);
    assert_eq!(peaks[1].prominence, 40);
    for p in &peaks {
        assert!(p.prominence <= p.density);
        assert!(p.prominence >= 0);
    }
}

#[test]
fn no_interior_maximum_means_no_peaks() {
    let grid = vec![
        DensityPoint { price: 0, density: 10 },
        DensityPoint { price: 1, density: 20 },
        DensityPoint { price: 2, density: 30 },
    ];
    let d = DensityAnalysis { grid, bandwidths: vec![1], max_density: 30 };
    assert_eq!(detect_peaks(&d).len(), 0);
}
