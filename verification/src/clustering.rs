//! Single-link price-proximity grouping of swing points, with an
//! auto-estimated neighbourhood radius.

use vstd::prelude::*;
use crate::data::{SwingPoint, PriceCluster, swings_wf, swing_wf, PRICE_CAP, SERIES_CAP};
use crate::PRICE_SCALE;
use crate::sort::{spec_sort_by, lt_i64, lt_swing_price, sort_i64, sort_swings_by_price, sorted_ord};
use crate::util::{imax, iabs, lemma_avg_bound, div_nn_i128, copy_swings};

verus! {

#[derive(Debug, Clone, PartialEq, Eq)]
pub struct ClusterResult {
    pub clusters: Vec<PriceCluster>,
    pub inliers: Vec<SwingPoint>,
}

/// Median of a sequence of nonnegative values: the middle element of the
/// sorted sequence, or the mean of the two middle elements.
pub open spec fn spec_median(s: Seq<i64>) -> int {
    let ss = spec_sort_by(lt_i64(), s);
    let mid = s.len() as int / 2;
    if s.len() % 2 == 0 {
        (ss[mid - 1] + ss[mid]) / 2
    } else {
        ss[mid] as int
    }
}

/// Median of the values, `None` for an empty input.
pub fn median(values: &Vec<i64>) -> (r: Option<i64>)
    requires
        forall|i: int| 0 <= i < values@.len() ==> 0 <= #[trigger] values@[i] <= 2 * PRICE_CAP,
    ensures
        r == if values@.len() == 0 { None::<i64> } else { Some(spec_median(values@) as i64) },
        values@.len() > 0 ==> 0 <= spec_median(values@) <= 2 * PRICE_CAP,
{
    if values.len() == 0 {
        return None;
    }
    let sorted = sort_i64(copy_i64_vec(values));
    proof {
        assert forall|i: int| 0 <= i < sorted@.len()
            implies 0 <= #[trigger] sorted@[i] <= 2 * PRICE_CAP by {
            assert(sorted@.contains(sorted@[i]));
        };
    }
    let mid = values.len() / 2;
    if values.len() % 2 == 0 {
        Some((sorted[mid - 1] + sorted[mid]) / 2)
    } else {
        Some(sorted[mid])
    }
}

fn copy_i64_vec(v: &Vec<i64>) -> (r: Vec<i64>)
    ensures
        r@ == v@,
{
    let mut out: Vec<i64> = Vec::new();
    let mut i: usize = 0;
    while i < v.len()
        invariant
            i <= v@.len(),
            out@ == v@.take(i as int),
        decreases v@.len() - i,
    {
        out.push(v[i]);
        proof { assert(out@ =~= v@.take(i as int + 1)); }
        i = i + 1;
    }
    proof { assert(v@.take(v@.len() as int) =~= v@); }
    out
}

/// Consecutive differences of the sorted swing prices.
pub open spec fn spec_price_diffs(swings: Seq<SwingPoint>) -> Seq<i64> {
    let prices = spec_sort_by(lt_i64(), swings.map_values(|s: SwingPoint| s.price));
    Seq::new((prices.len() - 1) as nat, |i: int| (prices[i + 1] - prices[i]) as i64)
}

/// The auto-estimated clustering radius: the median consecutive spacing of
/// the sorted swing prices, or a tenth of a percent of the price scale
/// when that median is not positive.
pub open spec fn spec_auto_epsilon(swings: Seq<SwingPoint>) -> int {
    if swings.len() < 2 {
        0
    } else {
        let prices = spec_sort_by(lt_i64(), swings.map_values(|s: SwingPoint| s.price));
        let m = spec_median(spec_price_diffs(swings));
        if m > 0 {
            m
        } else {
            imax(iabs(prices.last() as int), PRICE_SCALE as int) / 1000
        }
    }
}

/// Estimate a suitable clustering epsilon from the swing-price spacing.
pub fn auto_dbscan_epsilon(swings: &Vec<SwingPoint>) -> (r: i64)
    requires
        swings_wf(swings@),
    ensures
        r == spec_auto_epsilon(swings@),
        0 <= r <= 2 * PRICE_CAP,
{
    if swings.len() < 2 {
        return 0;
    }
    let mut raw_prices: Vec<i64> = Vec::new();
    let mut i: usize = 0;
    while i < swings.len()
        invariant
            swings_wf(swings@),
            i <= swings@.len(),
            raw_prices@ == swings@.take(i as int).map_values(|s: SwingPoint| s.price),
        decreases swings@.len() - i,
    {
        raw_prices.push(swings[i].price);
        proof {
            assert(swings@.take(i as int + 1).map_values(|s: SwingPoint| s.price)
                =~= raw_prices@);
        }
        i = i + 1;
    }
    proof {
        assert(swings@.take(swings@.len() as int) =~= swings@);
        assert forall|j: int| 0 <= j < raw_prices@.len()
            implies 0 <= #[trigger] raw_prices@[j] <= PRICE_CAP by {
            assert(swing_wf(swings@[j]));
        };
    }
    let prices = sort_i64(raw_prices);
    proof {
        assert forall|j: int| 0 <= j < prices@.len()
            implies 0 <= #[trigger] prices@[j] <= PRICE_CAP by {
            assert(prices@.contains(prices@[j]));
        };
    }

    let mut diffs: Vec<i64> = Vec::new();
    let mut j: usize = 1;
    while j < prices.len()
        invariant
            1 <= j <= prices@.len(),
            2 <= prices@.len(),
            forall|k: int| 0 <= k < prices@.len() ==> 0 <= #[trigger] prices@[k] <= PRICE_CAP,
            sorted_ord(lt_i64(), prices@),
            diffs@ == Seq::new((j - 1) as nat, |i: int| (prices@[i + 1] - prices@[i]) as i64),
        decreases prices@.len() - j,
    {
        assert(!lt_i64()(prices@[j as int], prices@[j as int - 1]));
        let d = prices[j] - prices[j - 1];
        diffs.push(d);
        proof {
            assert(diffs@ =~= Seq::new(j as nat, |i: int| (prices@[i + 1] - prices@[i]) as i64));
        }
        j = j + 1;
    }
    proof {
        assert(diffs@ =~= spec_price_diffs(swings@));
        assert forall|k: int| 0 <= k < diffs@.len()
            implies 0 <= #[trigger] diffs@[k] <= 2 * PRICE_CAP by {
            assert(!lt_i64()(prices@[k + 1], prices@[k]));
        };
    }

    let m = match median(&diffs) {
        Some(v) => v,
        None => 0,
    };
    if m > 0 {
        m
    } else {
        let last = prices[prices.len() - 1];
        let scale = if last >= PRICE_SCALE { last } else { PRICE_SCALE };
        scale / 1000
    }
}

/// Sum of member volumes.
pub open spec fn spec_vol_sum(s: Seq<SwingPoint>) -> int
    decreases s.len(),
{
    if s.len() == 0 {
        0
    } else {
        spec_vol_sum(s.drop_last()) + s.last().bar.volume
    }
}

/// Sum of member price-volume products.
pub open spec fn spec_pv_sum(s: Seq<SwingPoint>) -> int
    decreases s.len(),
{
    if s.len() == 0 {
        0
    } else {
        spec_pv_sum(s.drop_last()) + s.last().price * s.last().bar.volume
    }
}

/// Sum of member prices.
pub open spec fn spec_price_sum(s: Seq<SwingPoint>) -> int
    decreases s.len(),
{
    if s.len() == 0 {
        0
    } else {
        spec_price_sum(s.drop_last()) + s.last().price
    }
}

/// Representative price of a member run: the volume-weighted mean price,
/// or the arithmetic mean when the total volume is zero.
pub open spec fn spec_rep_price(s: Seq<SwingPoint>) -> int {
    if spec_vol_sum(s) > 0 {
        spec_pv_sum(s) / spec_vol_sum(s)
    } else {
        spec_price_sum(s) / s.len() as int
    }
}

/// Scan state of the single-link chain: emitted clusters, their members,
/// and the run being gathered.
#[verifier::ext_equal]
pub struct ClusterScan {
    pub clusters: Seq<PriceCluster>,
    pub inliers: Seq<SwingPoint>,
    pub buffer: Seq<SwingPoint>,
}

/// The cluster record emitted for a member run.
pub open spec fn spec_cluster_of(buffer: Seq<SwingPoint>, id: int) -> PriceCluster {
    PriceCluster {
        id: id as usize,
        representative_price: spec_rep_price(buffer) as i64,
        total_volume: spec_vol_sum(buffer) as i64,
        swing_count: buffer.len() as usize,
    }
}

/// Emit the gathered run as a cluster when it has enough members;
/// otherwise drop nothing and keep the state.
pub open spec fn spec_emit(st: ClusterScan, min_points: int) -> ClusterScan {
    if st.buffer.len() < min_points {
        st
    } else {
        ClusterScan {
            clusters: st.clusters.push(spec_cluster_of(st.buffer, st.clusters.len() as int)),
            inliers: st.inliers + st.buffer,
            buffer: st.buffer,
        }
    }
}

/// One swing of the chain scan over the price-sorted swings.
pub open spec fn spec_cluster_step(
    sorted: Seq<SwingPoint>,
    epsilon: i64,
    min_points: int,
    st: ClusterScan,
    i: int,
) -> ClusterScan {
    let s = sorted[i];
    if st.buffer.len() == 0 {
        ClusterScan { buffer: seq![s], ..st }
    } else if iabs(s.price - st.buffer.last().price) <= epsilon {
        ClusterScan { buffer: st.buffer.push(s), ..st }
    } else {
        let e = spec_emit(st, min_points);
        ClusterScan { clusters: e.clusters, inliers: e.inliers, buffer: seq![s] }
    }
}

pub open spec fn spec_cluster_upto(
    sorted: Seq<SwingPoint>,
    epsilon: i64,
    min_points: int,
    i: int,
) -> ClusterScan
    decreases i,
{
    if i <= 0 {
        ClusterScan { clusters: Seq::empty(), inliers: Seq::empty(), buffer: Seq::empty() }
    } else {
        spec_cluster_step(
            sorted,
            epsilon,
            min_points,
            spec_cluster_upto(sorted, epsilon, min_points, i - 1),
            i - 1,
        )
    }
}

/// Final clusters and inliers for a swing set: scan the price-sorted
/// swings, then emit the last gathered run.
pub open spec fn spec_cluster_final(
    swings: Seq<SwingPoint>,
    epsilon: i64,
    min_points: int,
) -> ClusterScan {
    let sorted = spec_sort_by(lt_swing_price(), swings);
    spec_emit(spec_cluster_upto(sorted, epsilon, min_points, sorted.len() as int), min_points)
}

/// Sum of the member counts of the first `k` clusters.
pub open spec fn spec_count_prefix(clusters: Seq<PriceCluster>, k: int) -> int
    decreases k,
{
    if k <= 0 {
        0
    } else {
        spec_count_prefix(clusters, k - 1) + clusters[k - 1].swing_count
    }
}

/// The member run of cluster `k` inside the inlier sequence.
pub open spec fn spec_members(clusters: Seq<PriceCluster>, inliers: Seq<SwingPoint>, k: int)
    -> Seq<SwingPoint> {
    inliers.subrange(
        spec_count_prefix(clusters, k),
        spec_count_prefix(clusters, k) + clusters[k].swing_count,
    )
}

/// The emitted clusters partition the inliers into runs; each cluster was
/// built from its own run.
pub open spec fn clusters_ok(
    clusters: Seq<PriceCluster>,
    inliers: Seq<SwingPoint>,
    min_points: int,
) -> bool {
    &&& spec_count_prefix(clusters, clusters.len() as int) == inliers.len()
    &&& forall|k: int| 0 <= k < clusters.len() ==> {
        let c = #[trigger] clusters[k];
        &&& c.id == k
        &&& c.swing_count >= min_points
        &&& c.swing_count >= 1
        &&& spec_count_prefix(clusters, k) + c.swing_count <= inliers.len()
        &&& c.representative_price == spec_rep_price(spec_members(clusters, inliers, k))
        &&& c.total_volume == spec_vol_sum(spec_members(clusters, inliers, k))
    }
    &&& forall|j: int| 0 <= j < inliers.len() ==> swing_wf(#[trigger] inliers[j])
}

proof fn lemma_count_prefix_push(clusters: Seq<PriceCluster>, c: PriceCluster, k: int)
    requires
        0 <= k <= clusters.len(),
    ensures
        spec_count_prefix(clusters.push(c), k) == spec_count_prefix(clusters, k),
    decreases k,
{
    if k > 0 {
        lemma_count_prefix_push(clusters, c, k - 1);
    }
}

proof fn lemma_member_sums(s: Seq<SwingPoint>, lo: int, hi: int)
    requires
        forall|i: int| 0 <= i < s.len() ==> swing_wf(#[trigger] s[i]),
        forall|i: int| 0 <= i < s.len() ==> lo <= (#[trigger] s[i]).price <= hi,
    ensures
        0 <= spec_vol_sum(s) <= s.len() * 1_000_000_000,
        lo * spec_vol_sum(s) <= spec_pv_sum(s) <= hi * spec_vol_sum(s),
        lo * s.len() <= spec_price_sum(s) <= hi * s.len(),
        spec_pv_sum(s) <= s.len() * (PRICE_CAP as int) * 1_000_000_000,
        spec_pv_sum(s) >= 0 || lo < 0,
    decreases s.len(),
{
    if s.len() == 0 {
        assert(lo * 0 == 0) by (nonlinear_arith);
        assert(hi * 0 == 0) by (nonlinear_arith);
    } else {
        let d = s.drop_last();
        lemma_member_sums(d, lo, hi);
        let x = s.last();
        assert(swing_wf(s[s.len() - 1]));
        assert(lo <= s[s.len() - 1].price <= hi);
        assert(lo * spec_vol_sum(d) + lo * x.bar.volume == lo * (spec_vol_sum(d) + x.bar.volume))
            by (nonlinear_arith);
        assert(hi * spec_vol_sum(d) + hi * x.bar.volume == hi * (spec_vol_sum(d) + x.bar.volume))
            by (nonlinear_arith);
        assert(lo * x.bar.volume <= x.price * x.bar.volume <= hi * x.bar.volume)
            by (nonlinear_arith)
            requires
                0 <= x.bar.volume,
                lo <= x.price <= hi,
        ;
        assert(lo * (s.len() - 1) + lo == lo * s.len()) by (nonlinear_arith);
        assert(hi * (s.len() - 1) + hi == hi * s.len()) by (nonlinear_arith);
        assert((s.len() - 1) * 1_000_000_000 + 1_000_000_000 == s.len() * 1_000_000_000)
            by (nonlinear_arith);
        assert(x.price * x.bar.volume <= (PRICE_CAP as int) * 1_000_000_000)
            by (nonlinear_arith)
            requires
                0 <= x.price <= PRICE_CAP as int,
                0 <= x.bar.volume <= 1_000_000_000,
        ;
        assert((s.len() - 1) * ((PRICE_CAP as int) * 1_000_000_000)
            + (PRICE_CAP as int) * 1_000_000_000
            == s.len() * ((PRICE_CAP as int) * 1_000_000_000)) by (nonlinear_arith);
        assert(x.price * x.bar.volume >= 0 || lo < 0) by (nonlinear_arith)
            requires
                0 <= x.bar.volume,
                lo <= x.price,
        ;
    }
}

/// The representative price of a nonempty run of well-formed members lies
/// within the member price range.
pub proof fn lemma_rep_price_in_range(s: Seq<SwingPoint>, lo: int, hi: int)
    requires
        s.len() >= 1,
        forall|i: int| 0 <= i < s.len() ==> swing_wf(#[trigger] s[i]),
        forall|i: int| 0 <= i < s.len() ==> lo <= (#[trigger] s[i]).price <= hi,
        0 <= lo <= hi,
    ensures
        lo <= spec_rep_price(s) <= hi,
{
    lemma_member_sums(s, lo, hi);
    let v = spec_vol_sum(s);
    if v > 0 {
        let pv = spec_pv_sum(s);
        assert(lo * v >= 0) by (nonlinear_arith)
            requires
                lo >= 0,
                v > 0,
        ;
        vstd::arithmetic::div_mod::lemma_div_is_ordered(lo * v, pv, v);
        vstd::arithmetic::div_mod::lemma_div_is_ordered(pv, hi * v, v);
        vstd::arithmetic::div_mod::lemma_div_multiples_vanish(lo, v);
        vstd::arithmetic::div_mod::lemma_div_multiples_vanish(hi, v);
        assert(lo * v == v * lo) by (nonlinear_arith);
        assert(hi * v == v * hi) by (nonlinear_arith);
    } else {
        let n = s.len() as int;
        let ps = spec_price_sum(s);
        assert(lo * n >= 0) by (nonlinear_arith)
            requires
                lo >= 0,
                n > 0,
        ;
        vstd::arithmetic::div_mod::lemma_div_is_ordered(lo * n, ps, n);
        vstd::arithmetic::div_mod::lemma_div_is_ordered(ps, hi * n, n);
        vstd::arithmetic::div_mod::lemma_div_multiples_vanish(lo, n);
        vstd::arithmetic::div_mod::lemma_div_multiples_vanish(hi, n);
        assert(lo * n == n * lo) by (nonlinear_arith);
        assert(hi * n == n * hi) by (nonlinear_arith);
    }
}

proof fn lemma_count_prefix_lb(clusters: Seq<PriceCluster>, k: int)
    requires
        0 <= k <= clusters.len(),
        forall|j: int| 0 <= j < clusters.len() ==> (#[trigger] clusters[j]).swing_count >= 1,
    ensures
        spec_count_prefix(clusters, k) >= k,
    decreases k,
{
    if k > 0 {
        lemma_count_prefix_lb(clusters, k - 1);
    }
}

proof fn lemma_count_prefix_nonneg(clusters: Seq<PriceCluster>, k: int)
    requires
        0 <= k <= clusters.len(),
    ensures
        spec_count_prefix(clusters, k) >= 0,
    decreases k,
{
    if k > 0 {
        lemma_count_prefix_nonneg(clusters, k - 1);
    }
}

proof fn lemma_emit_ok(st: ClusterScan, min_points: int)
    requires
        clusters_ok(st.clusters, st.inliers, min_points),
        st.buffer.len() >= 1,
        forall|j: int| 0 <= j < st.buffer.len() ==> swing_wf(#[trigger] st.buffer[j]),
        st.inliers.len() + st.buffer.len() <= SERIES_CAP,
        st.clusters.len() <= SERIES_CAP,
    ensures
        clusters_ok(spec_emit(st, min_points).clusters, spec_emit(st, min_points).inliers, min_points),
        spec_emit(st, min_points).inliers.len() <= st.inliers.len() + st.buffer.len(),
        spec_emit(st, min_points).buffer == st.buffer,
{
    if st.buffer.len() >= min_points {
        let e = spec_emit(st, min_points);
        let old_len = st.clusters.len() as int;
        let new_c = spec_cluster_of(st.buffer, old_len);
        lemma_rep_price_in_range(st.buffer, 0, PRICE_CAP as int);
        lemma_member_sums(st.buffer, 0, PRICE_CAP as int);
        assert((st.buffer.len() as int) * 1_000_000_000 <= (SERIES_CAP as int) * 1_000_000_000)
            by (nonlinear_arith)
            requires
                st.buffer.len() <= SERIES_CAP,
        ;
        assert forall|k: int| 0 <= k <= old_len
            implies spec_count_prefix(e.clusters, k) == spec_count_prefix(st.clusters, k) by {
            lemma_count_prefix_push(st.clusters, new_c, k);
        };
        assert(spec_members(e.clusters, e.inliers, old_len) =~= st.buffer);
        lemma_count_prefix_nonneg(st.clusters, old_len);
        assert forall|k: int| 0 <= k < old_len
            implies spec_members(e.clusters, e.inliers, k)
                =~= spec_members(st.clusters, st.inliers, k) by {
            assert(st.clusters[k] == st.clusters[k]);
            assert(spec_count_prefix(e.clusters, k) == spec_count_prefix(st.clusters, k));
            assert(spec_count_prefix(e.clusters, k + 1) == spec_count_prefix(st.clusters, k + 1));
            assert(e.clusters[k] == st.clusters[k]);
            lemma_count_prefix_nonneg(st.clusters, k);
            assert(spec_count_prefix(st.clusters, k) + st.clusters[k].swing_count
                <= st.inliers.len());
        };
        assert(spec_count_prefix(e.clusters, e.clusters.len() as int) == e.inliers.len());
    }
}

/// Scan-state facts maintained while `i` sorted swings have been read.
pub open spec fn scan_ok(
    sorted: Seq<SwingPoint>,
    st: ClusterScan,
    min_points: int,
    i: int,
) -> bool {
    &&& 0 <= i <= sorted.len()
    &&& st.inliers.len() + st.buffer.len() <= i
    &&& clusters_ok(st.clusters, st.inliers, min_points)
    &&& (i == 0 ==> st.buffer.len() == 0 && st.clusters.len() == 0 && st.inliers.len() == 0)
    &&& (i > 0 ==> st.buffer.len() >= 1)
    &&& st.clusters.len() <= st.inliers.len()
    &&& forall|j: int| 0 <= j < st.buffer.len() ==> swing_wf(#[trigger] st.buffer[j])
    &&& forall|j: int| 0 <= j < st.inliers.len() ==> sorted.contains(#[trigger] st.inliers[j])
    &&& forall|j: int| 0 <= j < st.buffer.len() ==> sorted.contains(#[trigger] st.buffer[j])
}

proof fn lemma_scan_step_ok(
    sorted: Seq<SwingPoint>,
    epsilon: i64,
    min_points: int,
    st: ClusterScan,
    i: int,
)
    requires
        scan_ok(sorted, st, min_points, i),
        0 <= i < sorted.len(),
        sorted.len() <= SERIES_CAP,
        forall|j: int| 0 <= j < sorted.len() ==> swing_wf(#[trigger] sorted[j]),
    ensures
        scan_ok(
            sorted,
            spec_cluster_step(sorted, epsilon, min_points, st, i),
            min_points,
            i + 1,
        ),
{
    let s = sorted[i];
    assert(sorted.contains(s));
    assert(swing_wf(s));
    if st.buffer.len() == 0 {
    } else if iabs(s.price - st.buffer.last().price) <= epsilon {
    } else {
        lemma_emit_ok(st, min_points);
        let e = spec_emit(st, min_points);
        if st.buffer.len() >= min_points {
            assert forall|j: int| 0 <= j < e.inliers.len()
                implies sorted.contains(#[trigger] e.inliers[j]) by {
                if j < st.inliers.len() {
                } else {
                    assert(e.inliers[j] == st.buffer[j - st.inliers.len()]);
                }
            };
            lemma_count_prefix_lb(e.clusters, e.clusters.len() as int);
        }
    }
}

proof fn lemma_scan_upto_ok(
    sorted: Seq<SwingPoint>,
    epsilon: i64,
    min_points: int,
    i: int,
)
    requires
        0 <= i <= sorted.len(),
        sorted.len() <= SERIES_CAP,
        forall|j: int| 0 <= j < sorted.len() ==> swing_wf(#[trigger] sorted[j]),
    ensures
        scan_ok(sorted, spec_cluster_upto(sorted, epsilon, min_points, i), min_points, i),
    decreases i,
{
    if i > 0 {
        lemma_scan_upto_ok(sorted, epsilon, min_points, i - 1);
        lemma_scan_step_ok(
            sorted,
            epsilon,
            min_points,
            spec_cluster_upto(sorted, epsilon, min_points, i - 1),
            i - 1,
        );
    }
}

proof fn lemma_has_min_price(s: Seq<SwingPoint>)
    requires
        s.len() >= 1,
    ensures
        exists|m: int| #![trigger s[m]] 0 <= m < s.len()
            && forall|j: int| 0 <= j < s.len() ==> (#[trigger] s[j]).price >= s[m].price,
    decreases s.len(),
{
    if s.len() == 1 {
        assert(forall|j: int| 0 <= j < s.len() ==> (#[trigger] s[j]).price >= s[0].price);
    } else {
        lemma_has_min_price(s.drop_last());
        let m0 = choose|m: int| #![trigger s.drop_last()[m]] 0 <= m < s.drop_last().len()
            && forall|j: int| 0 <= j < s.drop_last().len()
                ==> (#[trigger] s.drop_last()[j]).price >= s.drop_last()[m].price;
        if s.last().price < s[m0].price {
            assert forall|j: int| 0 <= j < s.len()
                implies (#[trigger] s[j]).price >= s[s.len() - 1].price by {
                if j < s.len() - 1 {
                    assert(s[j] == s.drop_last()[j]);
                    assert(s.drop_last()[j].price >= s.drop_last()[m0].price);
                }
            };
        } else {
            assert forall|j: int| 0 <= j < s.len()
                implies (#[trigger] s[j]).price >= s[m0].price by {
                if j < s.len() - 1 {
                    assert(s[j] == s.drop_last()[j]);
                    assert(s.drop_last()[j].price >= s.drop_last()[m0].price);
                }
                assert(s[m0] == s.drop_last()[m0]);
            };
        }
    }
}

proof fn lemma_has_max_price(s: Seq<SwingPoint>)
    requires
        s.len() >= 1,
    ensures
        exists|m: int| #![trigger s[m]] 0 <= m < s.len()
            && forall|j: int| 0 <= j < s.len() ==> (#[trigger] s[j]).price <= s[m].price,
    decreases s.len(),
{
    if s.len() == 1 {
        assert(forall|j: int| 0 <= j < s.len() ==> (#[trigger] s[j]).price <= s[0].price);
    } else {
        lemma_has_max_price(s.drop_last());
        let m0 = choose|m: int| #![trigger s.drop_last()[m]] 0 <= m < s.drop_last().len()
            && forall|j: int| 0 <= j < s.drop_last().len()
                ==> (#[trigger] s.drop_last()[j]).price <= s.drop_last()[m].price;
        if s.last().price > s[m0].price {
            assert forall|j: int| 0 <= j < s.len()
                implies (#[trigger] s[j]).price <= s[s.len() - 1].price by {
                if j < s.len() - 1 {
                    assert(s[j] == s.drop_last()[j]);
                    assert(s.drop_last()[j].price <= s.drop_last()[m0].price);
                }
            };
        } else {
            assert forall|j: int| 0 <= j < s.len()
                implies (#[trigger] s[j]).price <= s[m0].price by {
                if j < s.len() - 1 {
                    assert(s[j] == s.drop_last()[j]);
                    assert(s.drop_last()[j].price <= s.drop_last()[m0].price);
                }
                assert(s[m0] == s.drop_last()[m0]);
            };
        }
    }
}

/// Every emitted cluster's representative price lies within the price
/// range of its own members.
pub proof fn lemma_rep_within_members(
    clusters: Seq<PriceCluster>,
    inliers: Seq<SwingPoint>,
    min_points: int,
    k: int,
)
    requires
        clusters_ok(clusters, inliers, min_points),
        0 <= k < clusters.len(),
    ensures
        exists|j: int| 0 <= j < spec_members(clusters, inliers, k).len()
            && (#[trigger] spec_members(clusters, inliers, k)[j]).price
                <= clusters[k].representative_price,
        exists|j: int| 0 <= j < spec_members(clusters, inliers, k).len()
            && (#[trigger] spec_members(clusters, inliers, k)[j]).price
                >= clusters[k].representative_price,
{
    let seg = spec_members(clusters, inliers, k);
    let c = clusters[k];
    assert(c.swing_count >= 1);
    lemma_count_prefix_nonneg(clusters, k);
    assert(spec_count_prefix(clusters, k) + c.swing_count <= inliers.len());
    assert(seg.len() == c.swing_count >= 1);
    assert forall|j: int| 0 <= j < seg.len() implies swing_wf(#[trigger] seg[j]) by {
        assert(seg[j] == inliers[spec_count_prefix(clusters, k) + j]);
    };
    lemma_has_min_price(seg);
    lemma_has_max_price(seg);
    let m = choose|m: int| #![trigger seg[m]] 0 <= m < seg.len()
        && forall|j: int| 0 <= j < seg.len() ==> (#[trigger] seg[j]).price >= seg[m].price;
    let mx = choose|m2: int| #![trigger seg[m2]] 0 <= m2 < seg.len()
        && forall|j: int| 0 <= j < seg.len() ==> (#[trigger] seg[j]).price <= seg[m2].price;
    lemma_rep_price_in_range(seg, seg[m].price as int, seg[mx].price as int);
}

/// Emit the gathered run as a cluster (appending its members to the
/// inliers) when it has at least `min_points` members; otherwise leave
/// both outputs unchanged.
fn maybe_emit_cluster(
    clusters: &mut Vec<PriceCluster>,
    inliers: &mut Vec<SwingPoint>,
    buffer: &Vec<SwingPoint>,
    min_points: usize,
)
    requires
        buffer@.len() >= 1,
        forall|j: int| 0 <= j < buffer@.len() ==> swing_wf(#[trigger] buffer@[j]),
        old(inliers)@.len() + buffer@.len() <= SERIES_CAP,
        old(clusters)@.len() <= SERIES_CAP,
    ensures
        buffer@.len() < min_points ==> final(clusters)@ == old(clusters)@
            && final(inliers)@ == old(inliers)@,
        buffer@.len() >= min_points ==> final(clusters)@
            == old(clusters)@.push(spec_cluster_of(buffer@, old(clusters)@.len() as int))
            && final(inliers)@ == old(inliers)@ + buffer@,
{
    let ghost st = ClusterScan {
        clusters: old(clusters)@,
        inliers: old(inliers)@,
        buffer: buffer@,
    };
    if buffer.len() < min_points {
        return;
    }

    let n = buffer.len();
    let mut tv: i128 = 0;
    let mut pv: i128 = 0;
    let mut ps: i128 = 0;
    let mut j: usize = 0;
    while j < n
        invariant
            n == buffer@.len(),
            1 <= n <= SERIES_CAP,
            j <= n,
            forall|t: int| 0 <= t < buffer@.len() ==> swing_wf(#[trigger] buffer@[t]),
            tv == spec_vol_sum(buffer@.take(j as int)),
            pv == spec_pv_sum(buffer@.take(j as int)),
            ps == spec_price_sum(buffer@.take(j as int)),
            0 <= tv <= (j as int) * 1_000_000_000,
            0 <= pv <= (j as int) * 10_000_000_000_000_000_000,
            0 <= ps <= (j as int) * 10_000_000_000,
        decreases n - j,
    {
        let s = buffer[j];
        assert(swing_wf(buffer@[j as int]));
        proof {
            assert(0 <= (s.price as int) * (s.bar.volume as int) <= 10_000_000_000_000_000_000int)
                by (nonlinear_arith)
                requires
                    0 <= s.price as int <= 10_000_000_000int,
                    0 <= s.bar.volume as int <= 1_000_000_000int,
            ;
            assert((j as int) * 1_000_000_000 + 1_000_000_000 == (j as int + 1) * 1_000_000_000)
                by (nonlinear_arith);
            assert((j as int) * 10_000_000_000_000_000_000 + 10_000_000_000_000_000_000
                == (j as int + 1) * 10_000_000_000_000_000_000) by (nonlinear_arith);
            assert((j as int) * 10_000_000_000 + 10_000_000_000
                == (j as int + 1) * 10_000_000_000) by (nonlinear_arith);
            assert(buffer@.take(j as int + 1).drop_last() =~= buffer@.take(j as int));
        }
        tv = tv + s.bar.volume as i128;
        pv = pv + (s.price as i128) * (s.bar.volume as i128);
        ps = ps + s.price as i128;
        j = j + 1;
    }
    proof {
        assert(buffer@.take(n as int) =~= buffer@);
        lemma_rep_price_in_range(buffer@, 0, PRICE_CAP as int);
        lemma_member_sums(buffer@, 0, PRICE_CAP as int);
        assert((buffer@.len() as int) * 1_000_000_000 <= (SERIES_CAP as int) * 1_000_000_000)
            by (nonlinear_arith)
            requires
                buffer@.len() <= SERIES_CAP,
        ;
    }
    let rep: i64 = if tv > 0 {
        div_nn_i128(pv, tv) as i64
    } else {
        div_nn_i128(ps, n as i128) as i64
    };
    let id = clusters.len();
    clusters.push(PriceCluster {
        id,
        representative_price: rep,
        total_volume: tv as i64,
        swing_count: n,
    });
    let mut t: usize = 0;
    while t < n
        invariant
            n == buffer@.len(),
            t <= n,
            inliers@ == old(inliers)@ + buffer@.take(t as int),
        decreases n - t,
    {
        inliers.push(buffer[t]);
        proof {
            assert(old(inliers)@ + buffer@.take(t as int + 1)
                =~= (old(inliers)@ + buffer@.take(t as int)).push(buffer@[t as int]));
        }
        t = t + 1;
    }
    proof {
        assert(buffer@.take(n as int) =~= buffer@);
        assert(clusters@ =~= old(clusters)@.push(
            spec_cluster_of(buffer@, old(clusters)@.len() as int)));
        assert(inliers@ =~= old(inliers)@ + buffer@);
    }
}

/// Group the swings into price-proximity clusters: the price-sorted
/// swings are cut wherever consecutive prices differ by more than
/// `epsilon`, and each run of at least `min_points` swings becomes a
/// cluster whose members join the inlier set.
pub fn cluster_swings(swings: &Vec<SwingPoint>, epsilon: i64, min_points: usize) -> (r: ClusterResult)
    requires
        swings_wf(swings@),
    ensures
        ({
            let e = spec_cluster_final(swings@, epsilon, min_points as int);
            if swings@.len() == 0 || epsilon <= 0 {
                r.clusters@.len() == 0 && r.inliers@.len() == 0
            } else {
                r.clusters@ == e.clusters && r.inliers@ == e.inliers
            }
        }),
        clusters_ok(r.clusters@, r.inliers@, min_points as int),
        r.inliers@.len() <= swings@.len(),
        r.clusters@.len() <= swings@.len(),
        forall|j: int| 0 <= j < r.inliers@.len() ==> swings@.contains(#[trigger] r.inliers@[j]),
{
    if swings.len() == 0 || epsilon <= 0 {
        return ClusterResult { clusters: Vec::new(), inliers: Vec::new() };
    }

    let sorted = sort_swings_by_price(copy_swings(swings));
    proof {
        assert forall|j: int| 0 <= j < sorted@.len()
            implies swing_wf(#[trigger] sorted@[j]) by {
            assert(sorted@.contains(sorted@[j]));
        };
    }
    let ghost minp = min_points as int;
    let n = sorted.len();
    let mut clusters: Vec<PriceCluster> = Vec::new();
    let mut inliers: Vec<SwingPoint> = Vec::new();
    let mut buffer: Vec<SwingPoint> = Vec::new();

    let mut i: usize = 0;
    while i < n
        invariant
            swings_wf(swings@),
            sorted@ == spec_sort_by(lt_swing_price(), swings@),
            sorted@.len() == swings@.len(),
            forall|j: int| 0 <= j < sorted@.len() ==> swing_wf(#[trigger] sorted@[j]),
            forall|e: SwingPoint| #[trigger] sorted@.contains(e) ==> swings@.contains(e),
            n == sorted@.len(),
            0 < n <= SERIES_CAP,
            i <= n,
            minp == min_points as int,
            ({
                let st = spec_cluster_upto(sorted@, epsilon, minp, i as int);
                &&& clusters@ == st.clusters
                &&& inliers@ == st.inliers
                &&& buffer@ == st.buffer
            }),
            scan_ok(sorted@, spec_cluster_upto(sorted@, epsilon, minp, i as int), minp, i as int),
        decreases n - i,
    {
        proof {
            lemma_scan_step_ok(
                sorted@,
                epsilon,
                minp,
                spec_cluster_upto(sorted@, epsilon, minp, i as int),
                i as int,
            );
            assert(spec_cluster_upto(sorted@, epsilon, minp, i as int + 1)
                == spec_cluster_step(
                    sorted@,
                    epsilon,
                    minp,
                    spec_cluster_upto(sorted@, epsilon, minp, i as int),
                    i as int,
                ));
        }
        let s = sorted[i];
        if buffer.len() == 0 {
            buffer.push(s);
        } else {
            let lastp = buffer[buffer.len() - 1].price;
            let d = if s.price >= lastp { s.price - lastp } else { lastp - s.price };
            if d <= epsilon {
                buffer.push(s);
            } else {
                let ghost st0 = ClusterScan {
                    clusters: clusters@,
                    inliers: inliers@,
                    buffer: buffer@,
                };
                proof {
                    assert(st0 =~= spec_cluster_upto(sorted@, epsilon, minp, i as int));
                }
                maybe_emit_cluster(&mut clusters, &mut inliers, &buffer, min_points);
                proof {
                    assert(clusters@ == spec_emit(st0, minp).clusters);
                    assert(inliers@ == spec_emit(st0, minp).inliers);
                }
                buffer.clear();
                buffer.push(s);
            }
        }
        i = i + 1;
    }

    proof {
        lemma_emit_ok(spec_cluster_upto(sorted@, epsilon, minp, n as int), minp);
    }
    let ghost stf = ClusterScan { clusters: clusters@, inliers: inliers@, buffer: buffer@ };
    proof {
        assert(stf =~= spec_cluster_upto(sorted@, epsilon, minp, n as int));
    }
    maybe_emit_cluster(&mut clusters, &mut inliers, &buffer, min_points);
    proof {
        assert(clusters@ == spec_emit(stf, minp).clusters);
        assert(inliers@ == spec_emit(stf, minp).inliers);
    }
    proof {
        let fin = spec_cluster_final(swings@, epsilon, minp);
        assert(clusters@ == fin.clusters && inliers@ == fin.inliers);
        let st = spec_cluster_upto(sorted@, epsilon, minp, n as int);
        let e = spec_emit(st, minp);
        assert forall|j: int| 0 <= j < e.inliers.len()
            implies swings@.contains(#[trigger] e.inliers[j]) by {
            if j < st.inliers.len() {
                assert(sorted@.contains(st.inliers[j]));
            } else {
                assert(e.inliers[j] == st.buffer[j - st.inliers.len()]);
                assert(sorted@.contains(st.buffer[j - st.inliers.len()]));
            }
        };
        if e.clusters.len() > st.clusters.len() {
            lemma_count_prefix_lb(e.clusters, e.clusters.len() as int);
        } else {
            lemma_count_prefix_lb(e.clusters, e.clusters.len() as int);
        }
    }
    ClusterResult { clusters, inliers }
}

} // verus!
