use level_recon::math::{isqrt, iroot5, exp_neg, exp_pos, ln_scaled};
use level_recon::sort::{sort_i64, sort_levels_by_confidence};
use level_recon::data::{Level, LevelType, PerformanceStats};

#[test]
fn integer_square_root_brackets_the_input() {
    assert_eq!(isqrt(0), 0);
    assert_eq!(isqrt(1), 1);
    assert_eq!(isqrt(15), 3);
    assert_eq!(isqrt(16), 4);
    assert_eq!(isqrt(400_000_000_000_000_000_000), 20_000_000_000);
    let x: u128 = 123_456_789_012_345;
    let r = isqrt(x) as u128;
    assert!(r * r <= x);
    assert!((r + 1) * (r + 1) > x);
}

#[test]
fn integer_fifth_root_brackets_the_input() {
    assert_eq!(iroot5(0), 0);
    assert_eq!(iroot5(31), 1);
    assert_eq!(iroot5(32), 2);
    assert_eq!(iroot5(1_000_000_000_000_000), 1_000);
    let x: u128 = 987_654_321_987;
    let r = iroot5(x) as u128;
    assert!(r.pow(5) <= x);
    assert!((r + 1).pow(5) > x);
}

#[test]
fn exponentials_hit_known_values() {
    assert_eq!(exp_neg(0), 1_000_000_000);
    // e^-1 at the output scale, exactly the stored constant.
    assert_eq!(exp_neg(1_000_000), 367_879_441);
    // e^-0.5 is about 0.60653.
    let h = exp_neg(500_000);
    assert!(h > 605_500_000 && h < 607_500_000, "e^-0.5 was {}", h);
    // Far arguments flush to zero.
    assert_eq!(exp_neg(40_000_000), 0);
    assert_eq!(exp_pos(0), 1_000_000_000);
    // e^2 is about 7.389.
    let e2 = exp_pos(2_000_000);
    assert!(e2 > 7_380_000_000 && e2 < 7_398_000_000, "e^2 was {}", e2);
}

#[test]
fn logarithm_hits_known_values() {
    assert_eq!(ln_scaled(1_000_000), 0);
    let l2 = ln_scaled(2_000_000);
    assert!(l2 > 692_000 && l2 < 694_000, "ln 2 was {}", l2);
    let l9 = ln_scaled(9_000_000);
    assert!(l9 > 2_190_000 && l9 < 2_204_000, "ln 9 was {}", l9);
    let lm = ln_scaled(1_000_000_000_000);
    assert!(lm > 13_800_000 && lm < 13_825_000, "ln 1e6 was {}", lm);
}

#[test]
fn sorting_is_ascending_and_keeps_elements() {
    let v = vec![5i64, 3, 9, 3, 1];
    let s = sort_i64(v);
    assert_eq!(s, vec![1, 3, 3, 5, 9]);
}

fn level_with(confidence: i64, price: i64) -> Level {
    Level {
        price,
        density: 0,
        confidence,
        confidence_band: 10_000,
        level_type: LevelType::Support,
        performance: PerformanceStats::empty(),
        distance_from_last: 0,
    }
}

#[test]
fn level_sort_descends_and_is_stable() {
    let v = vec![
        level_with(100, 1),
        level_with(500, 2),
        level_with(100, 3),
        level_with(900, 4),
    ];
    let s = sort_levels_by_confidence(v);
    let confs: Vec<i64> = s.iter().map(|l| l.confidence).collect();
    assert_eq!(confs, vec![900, 500, 100, 100]);
    // Equal confidences keep their original order.
    assert_eq!(s[2].price, 1);
    assert_eq!(s[3].price, 3);
}
