//! Weighted multi-bandwidth Gaussian kernel density over swing prices,
//! sampled on a uniform price grid.

use vstd::prelude::*;
use crate::data::{DensityPoint, SwingPoint, swings_wf, swing_wf, PRICE_CAP};
use crate::math::{spec_isqrt, spec_iroot5, spec_exp_neg, isqrt, iroot5, exp_neg,
    lemma_exp_neg_bounds, is_sqrt, is_root5, lemma_pow5_increases, pow5};
use crate::util::{imax, imin, lemma_avg_bound, div_nn_i128};

verus! {

/// Densities are per price unit, scaled by this factor.
pub const DENSITY_SCALE: i64 = 1_000_000_000;

/// Upper bound on any sampled density value.
pub const DENSITY_CAP: i64 = 10_000_000_000_000_000;

/// Grid prices may leave the admissible bar-price range by the margin.
pub const GRID_PRICE_CAP: i64 = 20_000_000_000;

/// A density grid the downstream stages accept.
pub open spec fn grid_wf(s: Seq<DensityPoint>) -> bool {
    forall|i: int| 0 <= i < s.len()
        ==> 0 <= (#[trigger] s[i]).density <= DENSITY_CAP
            && -GRID_PRICE_CAP <= s[i].price <= GRID_PRICE_CAP
}

/// Result of the density estimation: the sampled curve, the bandwidths
/// blended into it, and the largest sampled density.
#[derive(Debug, Clone, PartialEq, Eq)]
pub struct DensityAnalysis {
    pub grid: Vec<DensityPoint>,
    pub bandwidths: Vec<i64>,
    pub max_density: i64,
}

impl DensityAnalysis {
    pub fn is_empty(&self) -> (r: bool)
        ensures
            r == (self.grid@.len() == 0),
    {
        self.grid.len() == 0
    }
}



/// Kernel weight of a swing: its bar volume, floored at one.
pub open spec fn spec_weight(s: SwingPoint) -> int {
    imax(s.bar.volume as int, 1)
}

pub open spec fn weights_wf(weights: Seq<i64>) -> bool {
    forall|i: int| 0 <= i < weights.len() ==> 1 <= #[trigger] weights[i] <= 1_000_000_000
}

pub open spec fn prices_wf(prices: Seq<i64>) -> bool {
    forall|i: int| 0 <= i < prices.len() ==> 0 <= #[trigger] prices[i] <= PRICE_CAP
}

/// Sum of the first `i` weights.
pub open spec fn spec_w_sum(weights: Seq<i64>, i: int) -> int
    decreases i,
{
    if i <= 0 {
        0
    } else {
        spec_w_sum(weights, i - 1) + weights[i - 1]
    }
}

/// Weighted price sum over the first `i` entries.
pub open spec fn spec_wp_sum(prices: Seq<i64>, weights: Seq<i64>, i: int) -> int
    decreases i,
{
    if i <= 0 {
        0
    } else {
        spec_wp_sum(prices, weights, i - 1) + prices[i - 1] * weights[i - 1]
    }
}

/// Weighted squared-deviation sum over the first `i` entries.
pub open spec fn spec_var_sum(prices: Seq<i64>, weights: Seq<i64>, mean: int, i: int) -> int
    decreases i,
{
    if i <= 0 {
        0
    } else {
        spec_var_sum(prices, weights, mean, i - 1)
            + weights[i - 1] * ((prices[i - 1] - mean) * (prices[i - 1] - mean))
    }
}

/// Smallest of the first `i` prices.
pub open spec fn spec_pmin(prices: Seq<i64>, i: int) -> int
    decreases i,
{
    if i <= 1 {
        prices[0] as int
    } else {
        imin(spec_pmin(prices, i - 1), prices[i - 1] as int)
    }
}

/// Largest of the first `i` prices.
pub open spec fn spec_pmax(prices: Seq<i64>, i: int) -> int
    decreases i,
{
    if i <= 1 {
        prices[0] as int
    } else {
        imax(spec_pmax(prices, i - 1), prices[i - 1] as int)
    }
}

/// Volume-weighted mean price.
pub open spec fn spec_mean(prices: Seq<i64>, weights: Seq<i64>) -> int {
    spec_wp_sum(prices, weights, prices.len() as int)
        / spec_w_sum(weights, weights.len() as int)
}

/// Volume-weighted price variance, in squared ticks.
pub open spec fn spec_variance(prices: Seq<i64>, weights: Seq<i64>) -> int {
    spec_var_sum(prices, weights, spec_mean(prices, weights), prices.len() as int)
        / spec_w_sum(weights, weights.len() as int)
}

/// Standard deviation in ticks, floored at one tick.
pub open spec fn spec_std(prices: Seq<i64>, weights: Seq<i64>) -> int {
    imax(spec_isqrt(spec_variance(prices, weights)), 1)
}

/// Silverman bandwidth: `1.06 * std * n^(-1/5)`, in ticks. The fifth root
/// of `n` is computed at a scale of one thousand.
pub open spec fn spec_base_bandwidth(prices: Seq<i64>, weights: Seq<i64>) -> int {
    106 * spec_std(prices, weights) * 1000
        / (100 * spec_iroot5(prices.len() as int * 1_000_000_000_000_000))
}

/// The blended bandwidth set: three quarters, one, and three halves of the
/// base bandwidth, kept when positive, duplicates dropped. The candidates
/// ascend, so the set is sorted.
pub open spec fn spec_bandwidths(prices: Seq<i64>, weights: Seq<i64>) -> Seq<i64> {
    let b = spec_base_bandwidth(prices, weights);
    let c1 = b * 3 / 4;
    let c2 = b;
    let c3 = b * 3 / 2;
    let s0 = Seq::<i64>::empty();
    let s1 = if c1 > 0 { s0.push(c1 as i64) } else { s0 };
    let s2 = if c2 > 0 && (s1.len() == 0 || c2 != s1.last() as int) { s1.push(c2 as i64) } else { s1 };
    let s3 = if c3 > 0 && (s2.len() == 0 || c3 != s2.last() as int) { s2.push(c3 as i64) } else { s2 };
    s3
}

/// Grid margin: fifteen percent of the price range or of the deviation,
/// whichever is larger.
pub open spec fn spec_margin(prices: Seq<i64>, weights: Seq<i64>) -> int {
    imax(spec_pmax(prices, prices.len() as int) - spec_pmin(prices, prices.len() as int),
        spec_std(prices, weights)) * 15 / 100
}

pub open spec fn spec_grid_min(prices: Seq<i64>, weights: Seq<i64>) -> int {
    spec_pmin(prices, prices.len() as int) - spec_margin(prices, weights)
}

pub open spec fn spec_grid_max(prices: Seq<i64>, weights: Seq<i64>) -> int {
    spec_pmax(prices, prices.len() as int) + spec_margin(prices, weights)
}

pub open spec fn spec_step(prices: Seq<i64>, weights: Seq<i64>, grid_points: int) -> int {
    (spec_grid_max(prices, weights) - spec_grid_min(prices, weights)) / (grid_points - 1)
}

/// Scaled kernel argument for one observation: `z^2 / 2` at the exp input
/// scale.
pub open spec fn spec_kernel_arg(x: int, p: int, bw: int) -> int {
    (x - p) * (x - p) * 1_000_000 / (2 * (bw * bw))
}

/// Weighted sum of kernel values over the first `i` observations, at the
/// exp output scale.
pub open spec fn spec_kernel_num(
    x: int,
    prices: Seq<i64>,
    weights: Seq<i64>,
    bw: int,
    i: int,
) -> int
    decreases i,
{
    if i <= 0 {
        0
    } else {
        spec_kernel_num(x, prices, weights, bw, i - 1)
            + weights[i - 1] * spec_exp_neg(spec_kernel_arg(x, prices[i - 1] as int, bw))
    }
}

/// Kernel mixture density at grid price `x` for one bandwidth, per price
/// unit at the density scale: the weighted mean kernel value divided by
/// `bw * sqrt(2*pi)`.
pub open spec fn spec_kernel(
    x: int,
    prices: Seq<i64>,
    weights: Seq<i64>,
    bw: int,
    w_total: int,
) -> int {
    if bw <= 0 {
        0
    } else {
        spec_kernel_num(x, prices, weights, bw, prices.len() as int) / w_total * 100_000_000
            / (bw * 25_066)
    }
}

/// Sum of the kernel densities over the first `k` bandwidths.
pub open spec fn spec_kernel_bw_sum(
    x: int,
    prices: Seq<i64>,
    weights: Seq<i64>,
    bws: Seq<i64>,
    w_total: int,
    k: int,
) -> int
    decreases k,
{
    if k <= 0 {
        0
    } else {
        spec_kernel_bw_sum(x, prices, weights, bws, w_total, k - 1)
            + spec_kernel(x, prices, weights, bws[k - 1] as int, w_total)
    }
}

/// Density at grid price `x`: the mean over the bandwidth set, or the
/// single kernel at the standard deviation when the set is empty.
pub open spec fn spec_density_at(
    x: int,
    prices: Seq<i64>,
    weights: Seq<i64>,
    bws: Seq<i64>,
    w_total: int,
) -> int {
    if bws.len() == 0 {
        spec_kernel(x, prices, weights, spec_std(prices, weights), w_total)
    } else {
        spec_kernel_bw_sum(x, prices, weights, bws, w_total, bws.len() as int)
            / bws.len() as int
    }
}

/// The full sampled grid as a sequence: equally spaced prices with their
/// mixture densities.
pub open spec fn spec_density_grid(prices: Seq<i64>, weights: Seq<i64>, grid_points: int)
    -> Seq<DensityPoint> {
    let gmin = spec_grid_min(prices, weights);
    let step = spec_step(prices, weights, grid_points);
    let bws = spec_bandwidths(prices, weights);
    let w_total = spec_w_sum(weights, weights.len() as int);
    Seq::new(grid_points as nat, |i: int| DensityPoint {
        price: (gmin + step * i) as i64,
        density: spec_density_at(gmin + step * i, prices, weights, bws, w_total) as i64,
    })
}

/// Largest density among the first `i` grid points, floored at zero.
pub open spec fn spec_max_density(grid: Seq<DensityPoint>, i: int) -> int
    decreases i,
{
    if i <= 0 {
        0
    } else {
        imax(spec_max_density(grid, i - 1), grid[i - 1].density as int)
    }
}

proof fn lemma_w_sum_bounds(weights: Seq<i64>, i: int)
    requires
        weights_wf(weights),
        0 <= i <= weights.len(),
    ensures
        i <= spec_w_sum(weights, i) <= i * 1_000_000_000,
    decreases i,
{
    if i > 0 {
        lemma_w_sum_bounds(weights, i - 1);
        assert((i - 1) * 1_000_000_000 + 1_000_000_000 == i * 1_000_000_000)
            by (nonlinear_arith);
    }
}

proof fn lemma_wp_sum_bounds(prices: Seq<i64>, weights: Seq<i64>, i: int)
    requires
        prices_wf(prices),
        weights_wf(weights),
        prices.len() == weights.len(),
        0 <= i <= prices.len(),
    ensures
        0 <= spec_wp_sum(prices, weights, i)
            <= spec_w_sum(weights, i) * PRICE_CAP,
    decreases i,
{
    if i > 0 {
        lemma_wp_sum_bounds(prices, weights, i - 1);
        lemma_w_sum_bounds(weights, i - 1);
        let p = prices[i - 1] as int;
        let w = weights[i - 1] as int;
        assert(0 <= p * w <= PRICE_CAP * w) by (nonlinear_arith)
            requires
                0 <= p <= PRICE_CAP as int,
                0 <= w,
        ;
        assert(spec_w_sum(weights, i - 1) * PRICE_CAP + PRICE_CAP * w
            == (spec_w_sum(weights, i - 1) + w) * PRICE_CAP) by (nonlinear_arith);
    }
}

/// The weighted mean price stays within the price range.
proof fn lemma_mean_bounds(prices: Seq<i64>, weights: Seq<i64>)
    requires
        prices_wf(prices),
        weights_wf(weights),
        prices.len() == weights.len(),
        prices.len() >= 1,
    ensures
        0 <= spec_mean(prices, weights) <= PRICE_CAP,
{
    let n = prices.len() as int;
    lemma_w_sum_bounds(weights, n);
    lemma_wp_sum_bounds(prices, weights, n);
    lemma_avg_bound(spec_wp_sum(prices, weights, n), spec_w_sum(weights, n), PRICE_CAP as int);
}

proof fn lemma_var_sum_bounds(prices: Seq<i64>, weights: Seq<i64>, mean: int, i: int)
    requires
        prices_wf(prices),
        weights_wf(weights),
        prices.len() == weights.len(),
        0 <= i <= prices.len(),
        0 <= mean <= PRICE_CAP,
    ensures
        0 <= spec_var_sum(prices, weights, mean, i)
            <= spec_w_sum(weights, i) * 400_000_000_000_000_000_000,
    decreases i,
{
    if i > 0 {
        lemma_var_sum_bounds(prices, weights, mean, i - 1);
        lemma_w_sum_bounds(weights, i - 1);
        let p = prices[i - 1] as int;
        let w = weights[i - 1] as int;
        let d = p - mean;
        assert(0 <= d * d <= 400_000_000_000_000_000_000) by (nonlinear_arith)
            requires
                -10_000_000_000 <= d <= 10_000_000_000,
        ;
        assert(0 <= w * (d * d) <= w * 400_000_000_000_000_000_000) by (nonlinear_arith)
            requires
                0 <= w,
                0 <= d * d <= 400_000_000_000_000_000_000,
        ;
        assert(spec_w_sum(weights, i - 1) * 400_000_000_000_000_000_000
            + w * 400_000_000_000_000_000_000
            == (spec_w_sum(weights, i - 1) + w) * 400_000_000_000_000_000_000)
            by (nonlinear_arith);
    }
}

proof fn lemma_variance_bounds(prices: Seq<i64>, weights: Seq<i64>)
    requires
        prices_wf(prices),
        weights_wf(weights),
        prices.len() == weights.len(),
        prices.len() >= 1,
    ensures
        0 <= spec_variance(prices, weights) <= 400_000_000_000_000_000_000,
{
    let n = prices.len() as int;
    lemma_mean_bounds(prices, weights);
    lemma_w_sum_bounds(weights, n);
    lemma_var_sum_bounds(prices, weights, spec_mean(prices, weights), n);
    lemma_avg_bound(spec_var_sum(prices, weights, spec_mean(prices, weights), n),
        spec_w_sum(weights, n), 400_000_000_000_000_000_000);
}

proof fn lemma_pmin_pmax_bounds(prices: Seq<i64>, i: int)
    requires
        prices_wf(prices),
        1 <= i <= prices.len(),
    ensures
        0 <= spec_pmin(prices, i) <= spec_pmax(prices, i) <= PRICE_CAP,
    decreases i,
{
    assert(0 <= prices[0] <= PRICE_CAP);
    if i > 1 {
        lemma_pmin_pmax_bounds(prices, i - 1);
    }
}

/// Bounds for the derived grid quantities.
proof fn lemma_grid_bounds(prices: Seq<i64>, weights: Seq<i64>, grid_points: int)
    requires
        prices_wf(prices),
        weights_wf(weights),
        prices.len() == weights.len(),
        prices.len() >= 2,
        prices.len() <= 10_000_000,
        grid_points >= 3,
    ensures
        1 <= spec_std(prices, weights) <= 20_000_000_000,
        0 <= spec_base_bandwidth(prices, weights) <= 43_000_000_000,
        0 <= spec_margin(prices, weights) <= 6_450_000_000,
        -GRID_PRICE_CAP <= spec_grid_min(prices, weights)
            <= spec_grid_max(prices, weights) <= GRID_PRICE_CAP,
        0 <= spec_step(prices, weights, grid_points)
            <= spec_grid_max(prices, weights) - spec_grid_min(prices, weights),
{
    let n = prices.len() as int;
    lemma_variance_bounds(prices, weights);
    let v = spec_variance(prices, weights);
    assert(is_sqrt(v, spec_isqrt(v))) by {
        lemma_sqrt_exists(v);
    };
    let s = spec_isqrt(v);
    assert(s <= 20_000_000_000) by (nonlinear_arith)
        requires
            s * s <= 400_000_000_000_000_000_000,
            0 <= s,
    ;
    let std = spec_std(prices, weights);
    let r5 = spec_iroot5(n * 1_000_000_000_000_000);
    assert(is_root5(n * 1_000_000_000_000_000, r5)) by {
        lemma_root5_exists(n * 1_000_000_000_000_000);
    };
    assert(1_000_000_000_000_000 <= n * 1_000_000_000_000_000
        <= 10_000_000_000_000_000_000_000) by (nonlinear_arith)
        requires
            1 <= n <= 10_000_000,
    ;
    assert(r5 >= 1000) by {
        if r5 < 1000 {
            lemma_pow5_increases(r5 + 1, 1000);
            assert(pow5(1000) == 1_000_000_000_000_000) by (nonlinear_arith);
        }
    };
    let bw = spec_base_bandwidth(prices, weights);
    assert(106 * std * 1000 <= 2_120_000_000_000_000) by (nonlinear_arith)
        requires
            1 <= std <= 20_000_000_000,
    ;
    assert(106 * std * 1000 >= 0) by (nonlinear_arith)
        requires
            std >= 0,
    ;
    assert(100 * r5 >= 100_000);
    vstd::arithmetic::div_mod::lemma_div_pos_is_pos(106 * std * 1000, 100 * r5);
    vstd::arithmetic::div_mod::lemma_div_is_ordered_by_denominator(106 * std * 1000, 100_000,
        100 * r5);
    assert(2_120_000_000_000_000int / 100_000 == 21_200_000_000);
    vstd::arithmetic::div_mod::lemma_div_is_ordered(106 * std * 1000, 2_120_000_000_000_000,
        100_000);
    lemma_pmin_pmax_bounds(prices, n);
    let range = spec_pmax(prices, n) - spec_pmin(prices, n);
    let m = spec_margin(prices, weights);
    assert(imax(range, std) * 15 <= 20_000_000_000 * 15) by (nonlinear_arith)
        requires
            0 <= imax(range, std) <= 20_000_000_000,
    ;
    assert(imax(range, std) * 15 >= 0) by (nonlinear_arith)
        requires
            0 <= imax(range, std),
    ;
    lemma_avg_bound(imax(range, std) * 15, 100, 3_000_000_000);
    let gmin = spec_grid_min(prices, weights);
    let gmax = spec_grid_max(prices, weights);
    let step = spec_step(prices, weights, grid_points);
    assert(gmax - gmin <= (grid_points - 1) * (gmax - gmin)) by (nonlinear_arith)
        requires
            grid_points >= 3,
            gmax - gmin >= 0,
    ;
    lemma_avg_bound(gmax - gmin, grid_points - 1, gmax - gmin);
}

/// Weighted Gaussian kernel density at one grid price for one bandwidth.
pub fn gaussian_kernel_sum(
    price: i64,
    prices: &Vec<i64>,
    weights: &Vec<i64>,
    bandwidth: i64,
    total_weight: i128,
) -> (r: i64)
    requires
        prices_wf(prices@),
        weights_wf(weights@),
        prices@.len() == weights@.len(),
        1 <= prices@.len() <= 10_000_000,
        total_weight == spec_w_sum(weights@, weights@.len() as int),
        -GRID_PRICE_CAP <= price <= GRID_PRICE_CAP,
        bandwidth <= 100_000_000_000,
    ensures
        r as int == spec_kernel(price as int, prices@, weights@, bandwidth as int,
            total_weight as int),
        0 <= r <= DENSITY_CAP,
{
    if bandwidth <= 0 {
        return 0;
    }
    let n = prices.len();
    proof { lemma_w_sum_bounds(weights@, n as int); }
    let mut num: i128 = 0;
    let mut i: usize = 0;
    while i < n
        invariant
            prices_wf(prices@),
            weights_wf(weights@),
            prices@.len() == weights@.len(),
            n == prices@.len(),
            1 <= n <= 10_000_000,
            -GRID_PRICE_CAP <= price <= GRID_PRICE_CAP,
            0 < bandwidth <= 100_000_000_000,
            i <= n,
            num == spec_kernel_num(price as int, prices@, weights@, bandwidth as int, i as int),
            0 <= num <= spec_w_sum(weights@, i as int) * 1_000_000_000,
            spec_w_sum(weights@, i as int) <= (i as int) * 1_000_000_000,
        decreases n - i,
    {
        let p = prices[i];
        let w = weights[i];
        let dp: i64 = price - p;
        proof {
            assert(0 <= (dp as int) * (dp as int) <= 1_600_000_000_000_000_000_000int)
                by (nonlinear_arith)
                requires
                    -40_000_000_000 <= dp as int <= 40_000_000_000,
            ;
            assert(0 < 2 * ((bandwidth as int) * (bandwidth as int))
                <= 20_000_000_000_000_000_000_000int) by (nonlinear_arith)
                requires
                    0 < bandwidth as int <= 100_000_000_000,
            ;
        }
        let dp2: i128 = (dp as i128) * (dp as i128);
        let arg: i128 = div_nn_i128(
            dp2 * 1_000_000,
            2 * ((bandwidth as i128) * (bandwidth as i128)),
        );
        let ez: i64 = exp_neg(arg);
        proof {
            lemma_w_sum_bounds(weights@, i as int);
            lemma_w_sum_bounds(weights@, i as int + 1);
            assert(0 <= (w as int) * (ez as int) <= (w as int) * 1_000_000_000)
                by (nonlinear_arith)
                requires
                    0 <= w as int,
                    0 <= ez as int <= 1_000_000_000,
            ;
            assert(spec_w_sum(weights@, i as int) * 1_000_000_000
                + (w as int) * 1_000_000_000
                == (spec_w_sum(weights@, i as int) + w as int) * 1_000_000_000)
                by (nonlinear_arith);
        }
        num = num + (w as i128) * (ez as i128);
        i = i + 1;
    }
    proof {
        lemma_w_sum_bounds(weights@, n as int);
        lemma_avg_bound(num as int, total_weight as int, 1_000_000_000);
    }
    let t: i128 = div_nn_i128(num, total_weight);
    proof {
        assert((t as int) * 100_000_000
            <= ((bandwidth as int) * 25_066) * 10_000_000_000_000_000) by (nonlinear_arith)
            requires
                0 <= t as int <= 1_000_000_000,
                1 <= bandwidth as int,
        ;
        assert((bandwidth as int) * 25_066 > 0) by (nonlinear_arith)
            requires
                bandwidth as int >= 1,
        ;
        assert((bandwidth as int) * 25_066 <= 2_506_600_000_000_000int) by (nonlinear_arith)
            requires
                bandwidth as int <= 100_000_000_000,
        ;
        lemma_avg_bound((t as int) * 100_000_000, (bandwidth as int) * 25_066,
            10_000_000_000_000_000);
    }
    let r: i128 = div_nn_i128(t * 100_000_000, (bandwidth as i128) * 25_066);
    r as i64
}

/// Compute the multi-bandwidth kernel density curve of the swing prices
/// over a uniform grid. Empty when fewer than two swings or fewer than
/// three grid points are given; otherwise the grid has exactly
/// `grid_points` ascending equally spaced prices, every density is
/// nonnegative, and `max_density` is the largest sampled density.
#[verifier::rlimit(100)]
pub fn compute_density_curve(swings: &Vec<SwingPoint>, grid_points: usize) -> (r: DensityAnalysis)
    requires
        swings_wf(swings@),
        grid_points <= 1_000_000,
    ensures
        ({
            let prices = swings@.map_values(|s: SwingPoint| s.price);
            let weights = swings@.map_values(|s: SwingPoint| (imax(s.bar.volume as int, 1) as i64));
            let w_total = spec_w_sum(weights, weights.len() as int);
            let bws = spec_bandwidths(prices, weights);
            let gmin = spec_grid_min(prices, weights);
            let step = spec_step(prices, weights, grid_points as int);
            if swings@.len() < 2 || grid_points < 3 {
                r.grid@.len() == 0 && r.bandwidths@.len() == 0 && r.max_density == 0
            } else {
                &&& r.grid@.len() == grid_points as int
                &&& r.grid@ == spec_density_grid(prices, weights, grid_points as int)
                &&& r.bandwidths@ == bws
                &&& r.max_density as int == spec_max_density(r.grid@, grid_points as int)
                &&& forall|idx: int| 0 <= idx < grid_points as int
                    ==> (#[trigger] r.grid@[idx]).price as int == gmin + step * idx
                        && r.grid@[idx].density as int
                            == spec_density_at(gmin + step * idx, prices, weights, bws, w_total)
                &&& exists|idx: int| 0 <= idx < grid_points as int
                    && (#[trigger] r.grid@[idx]).density == r.max_density
            }
        }),
        grid_wf(r.grid@),
        0 <= r.max_density <= DENSITY_CAP,
        forall|idx: int| 0 <= idx < r.grid@.len()
            ==> (#[trigger] r.grid@[idx]).density <= r.max_density,
{
    if swings.len() < 2 || grid_points < 3 {
        return DensityAnalysis { grid: Vec::new(), bandwidths: Vec::new(), max_density: 0 };
    }

    let n = swings.len();
    let mut prices: Vec<i64> = Vec::new();
    let mut weights: Vec<i64> = Vec::new();
    let mut i: usize = 0;
    while i < n
        invariant
            swings_wf(swings@),
            n == swings@.len(),
            2 <= n <= 10_000_000,
            i <= n,
            prices@ == swings@.take(i as int).map_values(|s: SwingPoint| s.price),
            weights@ == swings@.take(i as int).map_values(
                |s: SwingPoint| (imax(s.bar.volume as int, 1) as i64),
            ),
        decreases n - i,
    {
        let s = swings[i];
        assert(swing_wf(swings@[i as int]));
        prices.push(s.price);
        weights.push(if s.bar.volume >= 1 { s.bar.volume } else { 1 });
        proof {
            assert(swings@.take(i as int + 1).map_values(|s: SwingPoint| s.price) =~= prices@);
            assert(swings@.take(i as int + 1).map_values(
                |s: SwingPoint| (imax(s.bar.volume as int, 1) as i64),
            ) =~= weights@);
        }
        i = i + 1;
    }
    proof {
        assert(swings@.take(n as int) =~= swings@);
        assert forall|j: int| 0 <= j < prices@.len()
            implies 0 <= #[trigger] prices@[j] <= PRICE_CAP by {
            assert(swing_wf(swings@[j]));
        };
        assert forall|j: int| 0 <= j < weights@.len()
            implies 1 <= #[trigger] weights@[j] <= 1_000_000_000 by {
            assert(swing_wf(swings@[j]));
        };
        lemma_grid_bounds(prices@, weights@, grid_points as int);
    }

    let mut min_price: i64 = prices[0];
    let mut max_price: i64 = prices[0];
    let mut j: usize = 1;
    while j < n
        invariant
            prices_wf(prices@),
            n == prices@.len(),
            1 <= j <= n,
            min_price as int == spec_pmin(prices@, j as int),
            max_price as int == spec_pmax(prices@, j as int),
            0 <= min_price <= max_price <= PRICE_CAP,
        decreases n - j,
    {
        let p = prices[j];
        if p < min_price {
            min_price = p;
        }
        if p > max_price {
            max_price = p;
        }
        j = j + 1;
    }

    let mut w_total: i128 = 0;
    let mut k: usize = 0;
    while k < n
        invariant
            weights_wf(weights@),
            n == weights@.len(),
            k <= n,
            w_total == spec_w_sum(weights@, k as int),
            0 <= w_total <= (k as int) * 1_000_000_000,
        decreases n - k,
    {
        proof {
            assert((k as int) * 1_000_000_000 + 1_000_000_000
                == (k as int + 1) * 1_000_000_000) by (nonlinear_arith);
        }
        w_total = w_total + weights[k] as i128;
        k = k + 1;
    }

    let mut wp: i128 = 0;
    let mut k2: usize = 0;
    while k2 < n
        invariant
            prices_wf(prices@),
            weights_wf(weights@),
            n == prices@.len(),
            prices@.len() == weights@.len(),
            2 <= n <= 10_000_000,
            k2 <= n,
            wp == spec_wp_sum(prices@, weights@, k2 as int),
            0 <= wp <= spec_w_sum(weights@, k2 as int) * PRICE_CAP,
            spec_w_sum(weights@, k2 as int) <= (k2 as int) * 1_000_000_000,
        decreases n - k2,
    {
        proof {
            lemma_w_sum_bounds(weights@, k2 as int);
            lemma_w_sum_bounds(weights@, k2 as int + 1);
            lemma_wp_sum_bounds(prices@, weights@, k2 as int);
            lemma_wp_sum_bounds(prices@, weights@, k2 as int + 1);
            assert(spec_w_sum(weights@, k2 as int + 1) * PRICE_CAP
                <= ((k2 as int + 1) * 1_000_000_000) * PRICE_CAP) by (nonlinear_arith)
                requires
                    spec_w_sum(weights@, k2 as int + 1) <= (k2 as int + 1) * 1_000_000_000,
            ;
            assert(0 <= (prices@[k2 as int] as int) * (weights@[k2 as int] as int)
                <= 10_000_000_000_000_000_000int) by (nonlinear_arith)
                requires
                    0 <= prices@[k2 as int] as int <= 10_000_000_000,
                    0 <= weights@[k2 as int] as int <= 1_000_000_000,
            ;
            assert(wp as int <= 100_000_000_000_000_000_000_000_000int) by (nonlinear_arith)
                requires
                    wp as int <= spec_w_sum(weights@, k2 as int) * 10_000_000_000,
                    spec_w_sum(weights@, k2 as int) <= (k2 as int) * 1_000_000_000,
                    0 <= k2 as int <= 10_000_000,
            ;
        }
        wp = wp + (prices[k2] as i128) * (weights[k2] as i128);
        k2 = k2 + 1;
    }
    proof {
        lemma_w_sum_bounds(weights@, n as int);
        lemma_avg_bound(wp as int, w_total as int, PRICE_CAP as int);
    }
    let mean: i64 = div_nn_i128(wp, w_total) as i64;
    assert(mean as int == spec_mean(prices@, weights@));

    let mut vs: i128 = 0;
    let mut k3: usize = 0;
    while k3 < n
        invariant
            prices_wf(prices@),
            weights_wf(weights@),
            n == prices@.len(),
            prices@.len() == weights@.len(),
            2 <= n <= 10_000_000,
            0 <= mean <= PRICE_CAP,
            k3 <= n,
            vs == spec_var_sum(prices@, weights@, mean as int, k3 as int),
            0 <= vs <= spec_w_sum(weights@, k3 as int) * 400_000_000_000_000_000_000,
            spec_w_sum(weights@, k3 as int) <= (k3 as int) * 1_000_000_000,
        decreases n - k3,
    {
        proof {
            lemma_w_sum_bounds(weights@, k3 as int);
            lemma_w_sum_bounds(weights@, k3 as int + 1);
            lemma_var_sum_bounds(prices@, weights@, mean as int, k3 as int);
            lemma_var_sum_bounds(prices@, weights@, mean as int, k3 as int + 1);
            assert(spec_w_sum(weights@, k3 as int + 1) * 400_000_000_000_000_000_000
                <= ((k3 as int + 1) * 1_000_000_000) * 400_000_000_000_000_000_000)
                by (nonlinear_arith)
                requires
                    spec_w_sum(weights@, k3 as int + 1) <= (k3 as int + 1) * 1_000_000_000,
            ;
        }
        let d: i64 = prices[k3] - mean;
        proof {
            assert(0 <= (d as int) * (d as int) <= 400_000_000_000_000_000_000int)
                by (nonlinear_arith)
                requires
                    -10_000_000_000 <= d as int <= 10_000_000_000,
            ;
            assert(0 <= (weights@[k3 as int] as int) * ((d as int) * (d as int))
                <= 1_000_000_000int * 400_000_000_000_000_000_000int) by (nonlinear_arith)
                requires
                    0 <= weights@[k3 as int] as int <= 1_000_000_000,
                    0 <= (d as int) * (d as int) <= 400_000_000_000_000_000_000int,
            ;
            assert(vs as int <= 4_000_000_000_000_000_000_000_000_000_000_000_000int)
                by (nonlinear_arith)
                requires
                    vs as int <= spec_w_sum(weights@, k3 as int) * 400_000_000_000_000_000_000,
                    spec_w_sum(weights@, k3 as int) <= (k3 as int) * 1_000_000_000,
                    0 <= k3 as int <= 10_000_000,
            ;
        }
        vs = vs + (weights[k3] as i128) * ((d as i128) * (d as i128));
        k3 = k3 + 1;
    }
    proof {
        lemma_w_sum_bounds(weights@, n as int);
        lemma_avg_bound(vs as int, w_total as int, 400_000_000_000_000_000_000);
    }
    let variance: i128 = div_nn_i128(vs, w_total);
    assert(variance as int == spec_variance(prices@, weights@));

    let sd = isqrt(variance as u128);
    let std_dev: i64 = if sd >= 1 { sd } else { 1 };
    proof {
        crate::math::lemma_sqrt_unique(variance as int, sd as int,
            spec_isqrt(variance as int));
        assert(std_dev as int == spec_std(prices@, weights@));
    }

    let r5: i64 = iroot5((n as u128) * 1_000_000_000_000_000);
    proof {
        crate::math::lemma_root5_unique((n as int) * 1_000_000_000_000_000, r5 as int,
            spec_iroot5((n as int) * 1_000_000_000_000_000));
    }
    assert(r5 >= 1000) by {
        if r5 < 1000 {
            lemma_pow5_increases(r5 as int + 1, 1000);
            assert(pow5(1000) == 1_000_000_000_000_000) by (nonlinear_arith);
            assert((n as int) * 1_000_000_000_000_000 >= 1_000_000_000_000_000)
                by (nonlinear_arith)
                requires
                    n as int >= 1,
            ;
        }
    };
    proof {
        assert(0 <= 106 * (std_dev as int) * 1000 <= 2_120_000_000_000_000int)
            by (nonlinear_arith)
            requires
                1 <= std_dev as int <= 20_000_000_000,
        ;
        assert(100 * (r5 as int) >= 100_000);
        lemma_avg_bound(106 * (std_dev as int) * 1000, 100 * (r5 as int),
            2_120_000_000_000_000int);
    }
    let base_bandwidth: i64 = div_nn_i128(
        106 * (std_dev as i128) * 1000,
        100 * (r5 as i128),
    ) as i64;
    assert(base_bandwidth as int == spec_base_bandwidth(prices@, weights@));
    assert(0 <= base_bandwidth <= 43_000_000_000) by {
        lemma_grid_bounds(prices@, weights@, grid_points as int);
    };

    let c1: i64 = base_bandwidth * 3 / 4;
    let c2: i64 = base_bandwidth;
    let c3: i64 = base_bandwidth * 3 / 2;
    let mut bandwidths: Vec<i64> = Vec::new();
    if c1 > 0 {
        bandwidths.push(c1);
    }
    if c2 > 0 && (bandwidths.len() == 0 || c2 != bandwidths[bandwidths.len() - 1]) {
        bandwidths.push(c2);
    }
    if c3 > 0 && (bandwidths.len() == 0 || c3 != bandwidths[bandwidths.len() - 1]) {
        bandwidths.push(c3);
    }
    proof {
        assert(bandwidths@ =~= spec_bandwidths(prices@, weights@));
        assert forall|b: int| 0 <= b < bandwidths@.len()
            implies 0 < #[trigger] bandwidths@[b] <= 100_000_000_000 by {
        };
    }

    let span: i64 = max_price - min_price;
    let m_base: i64 = if span >= std_dev { span } else { std_dev };
    proof {
        assert(0 <= (m_base as int) * 15 <= 300_000_000_000int) by (nonlinear_arith)
            requires
                0 <= m_base as int <= 20_000_000_000,
        ;
        lemma_avg_bound((m_base as int) * 15, 100, 3_000_000_000);
    }
    let margin: i64 = div_nn_i128((m_base as i128) * 15, 100) as i64;
    let gmin: i64 = min_price - margin;
    let gmax: i64 = max_price + margin;
    proof {
        assert(margin as int == spec_margin(prices@, weights@));
        assert(gmin as int == spec_grid_min(prices@, weights@));
        assert(gmax as int == spec_grid_max(prices@, weights@));
        assert(gmax as int - gmin as int
            <= (grid_points as int - 1) * (gmax as int - gmin as int)) by (nonlinear_arith)
            requires
                grid_points as int >= 3,
                gmax as int - gmin as int >= 0,
        ;
        lemma_avg_bound(gmax as int - gmin as int, grid_points as int - 1,
            gmax as int - gmin as int);
    }
    let step: i64 = div_nn_i128((gmax as i128) - (gmin as i128),
        (grid_points as i128) - 1) as i64;
    assert(step as int == spec_step(prices@, weights@, grid_points as int));

    let ghost gbws = spec_bandwidths(prices@, weights@);
    let mut grid: Vec<DensityPoint> = Vec::new();
    let mut max_density: i64 = 0;
    let mut gi: usize = 0;
    while gi < grid_points
        invariant
            prices_wf(prices@),
            weights_wf(weights@),
            n == prices@.len(),
            prices@.len() == weights@.len(),
            2 <= n <= 10_000_000,
            w_total == spec_w_sum(weights@, weights@.len() as int),
            3 <= grid_points <= 1_000_000,
            gi <= grid_points,
            bandwidths@ == gbws,
            gbws == spec_bandwidths(prices@, weights@),
            forall|b: int| 0 <= b < bandwidths@.len()
                ==> 0 < #[trigger] bandwidths@[b] <= 100_000_000_000,
            1 <= std_dev as int == spec_std(prices@, weights@) <= 20_000_000_000,
            gmin as int == spec_grid_min(prices@, weights@),
            gmax as int == spec_grid_max(prices@, weights@),
            -GRID_PRICE_CAP <= gmin as int <= gmax as int <= GRID_PRICE_CAP,
            step as int == spec_step(prices@, weights@, grid_points as int),
            0 <= step as int <= gmax as int - gmin as int,
            grid@.len() == gi as int,
            forall|idx: int| 0 <= idx < gi as int
                ==> (#[trigger] grid@[idx]).price as int == gmin as int + step as int * idx
                    && grid@[idx].density as int == spec_density_at(
                        gmin as int + step as int * idx, prices@, weights@, gbws, w_total as int)
                    && 0 <= grid@[idx].density <= DENSITY_CAP
                    && -GRID_PRICE_CAP <= grid@[idx].price <= GRID_PRICE_CAP,
            0 <= max_density <= DENSITY_CAP,
            max_density as int == spec_max_density(grid@, gi as int),
            forall|idx: int| 0 <= idx < gi as int
                ==> (#[trigger] grid@[idx]).density <= max_density,
            gi > 0 ==> exists|idx: int| 0 <= idx < gi as int
                && (#[trigger] grid@[idx]).density == max_density,
            max_density == 0 || (exists|idx: int| 0 <= idx < gi as int
                && (#[trigger] grid@[idx]).density == max_density),
        decreases grid_points - gi,
    {
        proof {
            assert((step as int) * (gi as int) <= (step as int) * (grid_points as int - 1))
                by (nonlinear_arith)
                requires
                    0 <= step as int,
                    0 <= gi as int <= grid_points as int - 1,
            ;
            vstd::arithmetic::div_mod::lemma_fundamental_div_mod(
                gmax as int - gmin as int, grid_points as int - 1);
            assert((step as int) * (grid_points as int - 1) <= gmax as int - gmin as int)
                by (nonlinear_arith)
                requires
                    (gmax as int - gmin as int) == (grid_points as int - 1) * (step as int)
                        + (gmax as int - gmin as int) % (grid_points as int - 1),
                    (gmax as int - gmin as int) % (grid_points as int - 1) >= 0,
            ;
            assert((step as int) * (gi as int) >= 0) by (nonlinear_arith)
                requires
                    step as int >= 0,
                    gi as int >= 0,
            ;
        }
        let price: i64 = gmin + step * (gi as i64);
        let mut density: i64;
        if bandwidths.len() == 0 {
            density = gaussian_kernel_sum(price, &prices, &weights, std_dev, w_total);
        } else {
            let nb = bandwidths.len();
            let mut acc: i64 = 0;
            let mut bi: usize = 0;
            while bi < nb
                invariant
                    prices_wf(prices@),
                    weights_wf(weights@),
                    prices@.len() == weights@.len(),
                    1 <= prices@.len() <= 10_000_000,
                    w_total == spec_w_sum(weights@, weights@.len() as int),
                    nb == bandwidths@.len(),
                    1 <= nb <= 3,
                    forall|b: int| 0 <= b < bandwidths@.len()
                        ==> 0 < #[trigger] bandwidths@[b] <= 100_000_000_000,
                    -GRID_PRICE_CAP <= price <= GRID_PRICE_CAP,
                    bi <= nb,
                    acc as int == spec_kernel_bw_sum(price as int, prices@, weights@,
                        bandwidths@, w_total as int, bi as int),
                    0 <= acc as int <= (bi as int) * DENSITY_CAP,
                decreases nb - bi,
            {
                let kd = gaussian_kernel_sum(price, &prices, &weights, bandwidths[bi], w_total);
                proof {
                    assert((bi as int) * DENSITY_CAP + DENSITY_CAP
                        == (bi as int + 1) * DENSITY_CAP) by (nonlinear_arith);
                }
                acc = acc + kd;
                bi = bi + 1;
            }
            proof {
                lemma_avg_bound(acc as int, nb as int, 3 * DENSITY_CAP);
            }
            density = ((acc as i128) / (nb as i128)) as i64;
            proof {
                lemma_avg_bound(acc as int, nb as int, DENSITY_CAP as int);
            }
        }
        let ghost mprev = max_density;
        let ghost gi0 = gi as int;
        let ghost gprev = grid@;
        if density > max_density {
            max_density = density;
        }
        grid.push(DensityPoint { price, density });
        proof {
            lemma_max_density_push(gprev, DensityPoint { price, density }, gi0);
            if density > mprev {
                assert(grid@[gi0].density == max_density);
            } else if gi0 == 0 {
                assert(mprev == 0);
                assert(density == 0);
                assert(grid@[0].density == max_density);
            } else {
                let w = choose|idx: int| 0 <= idx < gi0
                    && (#[trigger] gprev[idx]).density == mprev;
                assert(grid@[w] == gprev[w]);
                assert(grid@[w].density == max_density);
            }
        }
        gi = gi + 1;
    }

    proof {
        assert(grid_wf(grid@));
        assert(grid@ =~= spec_density_grid(prices@, weights@, grid_points as int));
        lemma_max_density_stable(grid@, spec_density_grid(prices@, weights@,
            grid_points as int), grid_points as int);
    }
    DensityAnalysis { grid, bandwidths, max_density }
}

proof fn lemma_max_density_stable(a: Seq<DensityPoint>, b: Seq<DensityPoint>, i: int)
    requires
        a == b,
    ensures
        spec_max_density(a, i) == spec_max_density(b, i),
{
}

proof fn lemma_max_density_push(s: Seq<DensityPoint>, x: DensityPoint, i: int)
    requires
        0 <= i <= s.len(),
    ensures
        spec_max_density(s.push(x), i) == spec_max_density(s, i),
    decreases i,
{
    if i > 0 {
        lemma_max_density_push(s, x, i - 1);
    }
}

proof fn lemma_sqrt_exists(x: int)
    requires
        0 <= x <= 400_000_000_000_000_000_000,
    ensures
        is_sqrt(x, spec_isqrt(x)),
{
    let r = lemma_sqrt_witness(x, 0);
    assert(is_sqrt(x, r));
    assert(exists|q: int| is_sqrt(x, q));
}

proof fn lemma_sqrt_witness(x: int, lo: int) -> (r: int)
    requires
        0 <= lo,
        lo * lo <= x,
        x <= 400_000_000_000_000_000_000,
    ensures
        is_sqrt(x, r),
    decreases 20_000_000_001 - lo,
{
    assert(lo <= 20_000_000_000) by (nonlinear_arith)
        requires
            lo * lo <= 400_000_000_000_000_000_000,
            0 <= lo,
    ;
    if (lo + 1) * (lo + 1) > x {
        lo
    } else {
        lemma_sqrt_witness(x, lo + 1)
    }
}

proof fn lemma_root5_exists(x: int)
    requires
        0 <= x <= 1_000_000_000_000_000_000_000_000,
    ensures
        is_root5(x, spec_iroot5(x)),
{
    let r = lemma_root5_witness(x, 0);
    assert(is_root5(x, r));
    assert(exists|q: int| is_root5(x, q));
}

proof fn lemma_root5_witness(x: int, lo: int) -> (r: int)
    requires
        0 <= lo,
        pow5(lo) <= x,
        x <= 1_000_000_000_000_000_000_000_000,
    ensures
        is_root5(x, r),
    decreases 65_537 - lo,
{
    assert(lo <= 65_536) by (nonlinear_arith)
        requires
            lo * lo * lo * lo * lo <= 1_000_000_000_000_000_000_000_000,
            0 <= lo,
    ;
    if pow5(lo + 1) > x {
        lo
    } else {
        lemma_root5_witness(x, lo + 1)
    }
}

} // verus!
