//! ATR-governed zig-zag swing (pivot) extraction.
//!
//! The scan keeps the last confirmed pivot and the running extreme
//! candidates for the opposite pivot type; a candidate is confirmed once
//! price has moved a threshold distance away from the last pivot. The
//! series always begins with an implicit low pivot at the first bar.

use vstd::prelude::*;
use crate::data::{Bar, SwingPoint, SwingType, bars_wf, swings_wf, swing_wf, PRICE_CAP, SERIES_CAP};
use crate::atr::atr_series_wf;
use crate::util::{imax, iabs, tdiv, div_nn_i128};

verus! {

/// Scan state after some prefix of the bars: emitted swings, the last
/// confirmed pivot, and the running extreme candidates.
pub struct ScanState {
    pub swings: Seq<SwingPoint>,
    pub last_type: SwingType,
    pub last_index: usize,
    pub last_price: i64,
    pub ch_price: i64,
    pub ch_idx: usize,
    pub cl_price: i64,
    pub cl_idx: usize,
}

/// ATR value used at index `j`: the series value, or the given fallback
/// when the series is exhausted.
pub open spec fn spec_atr_at(atr: Seq<i64>, j: int, fallback: i64) -> i64 {
    if 0 <= j < atr.len() {
        atr[j]
    } else {
        fallback
    }
}

/// The value reused once the ATR series is exhausted: its last entry.
pub open spec fn spec_atr_last(atr: Seq<i64>) -> i64 {
    if atr.len() == 0 {
        0
    } else {
        atr.last()
    }
}

/// Per-bar confirmation threshold: the ATR move scaled by the multiplier
/// (parts per million), floored at the minimum swing distance and at one
/// tick.
pub open spec fn spec_threshold(atr_val: i64, atr_multiplier: i64, min_swing_distance: i64) -> int {
    imax(imax(iabs(tdiv(atr_val * atr_multiplier, 1_000_000)), min_swing_distance as int), 1)
}

/// The implicit initial low pivot at the first bar.
pub open spec fn spec_initial_swing(bars: Seq<Bar>, atr: Seq<i64>) -> SwingPoint {
    SwingPoint {
        index: 0,
        bar: bars[0],
        price: bars[0].low,
        swing_type: SwingType::Low,
        atr: spec_atr_at(atr, 0, 0),
    }
}

pub open spec fn spec_scan_init(bars: Seq<Bar>, atr: Seq<i64>) -> ScanState {
    ScanState {
        swings: seq![spec_initial_swing(bars, atr)],
        last_type: SwingType::Low,
        last_index: 0,
        last_price: bars[0].low,
        ch_price: bars[0].high,
        ch_idx: 0,
        cl_price: bars[0].low,
        cl_idx: 0,
    }
}

/// One bar of the scan: extend the extreme candidates, then confirm the
/// awaited pivot when the move from the last pivot reaches the threshold.
pub open spec fn spec_scan_step(
    bars: Seq<Bar>,
    atr: Seq<i64>,
    atr_multiplier: i64,
    min_swing_distance: i64,
    st: ScanState,
    i: int,
) -> ScanState {
    let bar = bars[i];
    let atr_val = spec_atr_at(atr, i, spec_atr_last(atr));
    let threshold = spec_threshold(atr_val, atr_multiplier, min_swing_distance);
    let st1 = ScanState {
        ch_price: if bar.high >= st.ch_price { bar.high } else { st.ch_price },
        ch_idx: if bar.high >= st.ch_price { i as usize } else { st.ch_idx },
        cl_price: if bar.low <= st.cl_price { bar.low } else { st.cl_price },
        cl_idx: if bar.low <= st.cl_price { i as usize } else { st.cl_idx },
        ..st
    };
    match st1.last_type {
        SwingType::Low => {
            if st1.ch_price - st1.last_price >= threshold && st1.ch_idx > st1.last_index {
                let pivot = bars[st1.ch_idx as int];
                let swing = SwingPoint {
                    index: st1.ch_idx,
                    bar: pivot,
                    price: pivot.high,
                    swing_type: SwingType::High,
                    atr: spec_atr_at(atr, st1.ch_idx as int, atr_val),
                };
                ScanState {
                    swings: st1.swings.push(swing),
                    last_type: SwingType::High,
                    last_index: st1.ch_idx,
                    last_price: pivot.high,
                    cl_price: pivot.low,
                    cl_idx: st1.ch_idx,
                    ..st1
                }
            } else {
                st1
            }
        },
        SwingType::High => {
            if st1.last_price - st1.cl_price >= threshold && st1.cl_idx > st1.last_index {
                let pivot = bars[st1.cl_idx as int];
                let swing = SwingPoint {
                    index: st1.cl_idx,
                    bar: pivot,
                    price: pivot.low,
                    swing_type: SwingType::Low,
                    atr: spec_atr_at(atr, st1.cl_idx as int, atr_val),
                };
                ScanState {
                    swings: st1.swings.push(swing),
                    last_type: SwingType::Low,
                    last_index: st1.cl_idx,
                    last_price: pivot.low,
                    ch_price: pivot.high,
                    ch_idx: st1.cl_idx,
                    ..st1
                }
            } else {
                st1
            }
        },
    }
}

/// Scan state after processing bars `1 .. i`.
pub open spec fn spec_scan_upto(
    bars: Seq<Bar>,
    atr: Seq<i64>,
    atr_multiplier: i64,
    min_swing_distance: i64,
    i: int,
) -> ScanState
    decreases i,
{
    if i <= 1 {
        spec_scan_init(bars, atr)
    } else {
        spec_scan_step(
            bars,
            atr,
            atr_multiplier,
            min_swing_distance,
            spec_scan_upto(bars, atr, atr_multiplier, min_swing_distance, i - 1),
            i - 1,
        )
    }
}

/// The emitted swing sequence for a bar series.
pub open spec fn spec_detect_swings(
    bars: Seq<Bar>,
    atr: Seq<i64>,
    atr_multiplier: i64,
    min_swing_distance: i64,
) -> Seq<SwingPoint> {
    if bars.len() == 0 {
        Seq::empty()
    } else {
        spec_scan_upto(bars, atr, atr_multiplier, min_swing_distance, bars.len() as int).swings
    }
}

/// Structural facts the scan maintains; `i` is the number of bars read.
pub open spec fn scan_inv(
    bars: Seq<Bar>,
    atr: Seq<i64>,
    st: ScanState,
    i: int,
) -> bool {
    &&& 1 <= st.swings.len() <= i
    &&& st.swings[0] == spec_initial_swing(bars, atr)
    &&& forall|a: int, b: int| 0 <= a < b < st.swings.len()
        ==> #[trigger] st.swings[a].index < #[trigger] st.swings[b].index
    &&& forall|a: int| 0 <= a < st.swings.len() ==> swing_wf(#[trigger] st.swings[a])
    &&& st.swings.last().index == st.last_index
    &&& st.swings.last().swing_type == st.last_type
    &&& st.swings.last().price == st.last_price
    &&& st.last_index < i
    &&& st.ch_idx < i
    &&& st.cl_idx < i
    &&& st.last_index <= st.ch_idx
    &&& st.last_index <= st.cl_idx
    &&& 0 <= st.ch_price <= PRICE_CAP
    &&& 0 <= st.cl_price <= PRICE_CAP
    &&& 0 <= st.last_price <= PRICE_CAP
}

proof fn lemma_scan_upto_inv(
    bars: Seq<Bar>,
    atr: Seq<i64>,
    atr_multiplier: i64,
    min_swing_distance: i64,
    i: int,
)
    requires
        bars_wf(bars),
        atr_series_wf(atr),
        1 <= i <= bars.len(),
    ensures
        scan_inv(bars, atr, spec_scan_upto(bars, atr, atr_multiplier, min_swing_distance, i), i),
    decreases i,
{
    if i <= 1 {
        assert(bar_ok(bars, 0));
    } else {
        lemma_scan_upto_inv(bars, atr, atr_multiplier, min_swing_distance, i - 1);
        let st = spec_scan_upto(bars, atr, atr_multiplier, min_swing_distance, i - 1);
        let st2 = spec_scan_step(bars, atr, atr_multiplier, min_swing_distance, st, i - 1);
        assert(bar_ok(bars, i - 1));
        if st2.swings.len() > st.swings.len() {
            assert(st2.swings.last().index > st.last_index);
            assert(forall|a: int| 0 <= a < st.swings.len()
                ==> #[trigger] st.swings[a].index <= st.swings[st.swings.len() - 1].index);
        }
    }
}

/// Helper trigger target: bar `i` is well formed.
pub open spec fn bar_ok(bars: Seq<Bar>, i: int) -> bool {
    0 <= i < bars.len() && crate::data::bar_wf(bars[i])
}

proof fn lemma_scan_never_confirms(
    bars: Seq<Bar>,
    atr: Seq<i64>,
    atr_multiplier: i64,
    min_swing_distance: i64,
    i: int,
)
    requires
        bars_wf(bars),
        1 <= i <= bars.len(),
        forall|a: int, b: int| 0 <= a < bars.len() && 0 <= b < bars.len()
            ==> (#[trigger] bars[a]).high - (#[trigger] bars[b]).low < min_swing_distance,
    ensures
        ({
            let st = spec_scan_upto(bars, atr, atr_multiplier, min_swing_distance, i);
            &&& st.swings == seq![spec_initial_swing(bars, atr)]
            &&& st.last_type == SwingType::Low
            &&& st.last_price == bars[0].low
            &&& exists|j: int| 0 <= j < i && (#[trigger] bars[j]).high == st.ch_price
        }),
    decreases i,
{
    if i <= 1 {
        assert(bars[0].high == spec_scan_init(bars, atr).ch_price);
    } else {
        lemma_scan_never_confirms(bars, atr, atr_multiplier, min_swing_distance, i - 1);
        let st = spec_scan_upto(bars, atr, atr_multiplier, min_swing_distance, i - 1);
        let j0 = choose|j: int| 0 <= j < i - 1 && (#[trigger] bars[j]).high == st.ch_price;
        let bar = bars[i - 1];
        if bar.high >= st.ch_price {
            assert(bars[i - 1].high
                == spec_scan_upto(bars, atr, atr_multiplier, min_swing_distance, i).ch_price);
        } else {
            assert(bars[j0].high
                == spec_scan_upto(bars, atr, atr_multiplier, min_swing_distance, i).ch_price);
        }
    }
}

/// With a minimum swing distance beyond every high-to-low span of the
/// series — an unreachable confirmation threshold — the detector emits
/// exactly the implicit initial low pivot.
pub proof fn lemma_swings_single_when_threshold_unreachable(
    bars: Seq<Bar>,
    atr: Seq<i64>,
    atr_multiplier: i64,
    min_swing_distance: i64,
)
    requires
        bars_wf(bars),
        bars.len() >= 1,
        forall|a: int, b: int| 0 <= a < bars.len() && 0 <= b < bars.len()
            ==> (#[trigger] bars[a]).high - (#[trigger] bars[b]).low < min_swing_distance,
    ensures
        spec_detect_swings(bars, atr, atr_multiplier, min_swing_distance)
            == seq![spec_initial_swing(bars, atr)],
{
    lemma_scan_never_confirms(bars, atr, atr_multiplier, min_swing_distance,
        bars.len() as int);
}

/// The swings of well-formed inputs are well formed, from the scan
/// invariant.
pub proof fn lemma_detect_swings_wf(
    bars: Seq<Bar>,
    atr: Seq<i64>,
    atr_multiplier: i64,
    min_swing_distance: i64,
)
    requires
        bars_wf(bars),
        atr_series_wf(atr),
    ensures
        swings_wf(spec_detect_swings(bars, atr, atr_multiplier, min_swing_distance)),
{
    if bars.len() > 0 {
        lemma_scan_upto_inv(bars, atr, atr_multiplier, min_swing_distance, bars.len() as int);
    }
}

/// Detect swing highs and lows with the zig-zag scan. The result mirrors
/// the scan exactly; its pivot indices strictly increase, so no two
/// emitted swings share an (index, type) pair.
pub fn detect_swings(
    bars: &Vec<Bar>,
    atr: &Vec<i64>,
    atr_multiplier: i64,
    min_swing_distance: i64,
) -> (r: Vec<SwingPoint>)
    requires
        bars_wf(bars@),
        atr_series_wf(atr@),
        0 <= atr_multiplier <= 1_000_000_000,
        0 <= min_swing_distance <= PRICE_CAP,
    ensures
        r@ == spec_detect_swings(bars@, atr@, atr_multiplier, min_swing_distance),
        swings_wf(r@),
        forall|a: int, b: int| 0 <= a < b < r@.len()
            ==> #[trigger] r@[a].index < #[trigger] r@[b].index,
        bars@.len() > 0 ==> r@.len() >= 1 && r@[0] == spec_initial_swing(bars@, atr@),
{
    if bars.len() == 0 {
        let r: Vec<SwingPoint> = Vec::new();
        assert(r@ =~= spec_detect_swings(bars@, atr@, atr_multiplier, min_swing_distance));
        return r;
    }

    let n = bars.len();
    let initial_atr: i64 = if atr.len() > 0 { atr[0] } else { 0 };
    let last_atr: i64 = if atr.len() > 0 { atr[atr.len() - 1] } else { 0 };
    let first = bars[0];
    let mut swings: Vec<SwingPoint> = Vec::new();
    swings.push(SwingPoint {
        index: 0,
        bar: first,
        price: first.low,
        swing_type: SwingType::Low,
        atr: initial_atr,
    });

    let mut last_type = SwingType::Low;
    let mut last_index: usize = 0;
    let mut last_price: i64 = first.low;
    let mut ch_price: i64 = first.high;
    let mut ch_idx: usize = 0;
    let mut cl_price: i64 = first.low;
    let mut cl_idx: usize = 0;

    let mut idx: usize = 1;
    while idx < n
        invariant
            bars_wf(bars@),
            atr_series_wf(atr@),
            0 <= atr_multiplier <= 1_000_000_000,
            0 <= min_swing_distance <= PRICE_CAP,
            n == bars@.len(),
            0 < n <= SERIES_CAP,
            1 <= idx <= n,
            initial_atr == spec_atr_at(atr@, 0, 0),
            last_atr == spec_atr_last(atr@),
            ({
                let st = spec_scan_upto(bars@, atr@, atr_multiplier, min_swing_distance, idx as int);
                &&& swings@ == st.swings
                &&& last_type == st.last_type
                &&& last_index == st.last_index
                &&& last_price == st.last_price
                &&& ch_price == st.ch_price
                &&& ch_idx == st.ch_idx
                &&& cl_price == st.cl_price
                &&& cl_idx == st.cl_idx
            }),
            scan_inv(
                bars@,
                atr@,
                spec_scan_upto(bars@, atr@, atr_multiplier, min_swing_distance, idx as int),
                idx as int,
            ),
        decreases n - idx,
    {
        proof {
            lemma_scan_upto_inv(bars@, atr@, atr_multiplier, min_swing_distance, idx as int + 1);
        }
        let bar = bars[idx];
        let atr_val: i64 = if idx < atr.len() { atr[idx] } else { last_atr };
        proof {
            assert(0 <= (atr_val as int) * (atr_multiplier as int)
                <= 10_000_000_000int * 1_000_000_000int) by (nonlinear_arith)
                requires
                    0 <= atr_val as int <= 10_000_000_000int,
                    0 <= atr_multiplier as int <= 1_000_000_000int,
            ;
        }
        let prod: i128 = (atr_val as i128) * (atr_multiplier as i128);
        proof {
            crate::util::lemma_avg_bound(prod as int, 1_000_000int, 10_000_000_000_000int);
        }
        let scaled: i64 = div_nn_i128(prod, 1_000_000) as i64;
        let scaled_abs: i64 = scaled;
        let mut threshold: i64 = scaled_abs;
        if min_swing_distance > threshold {
            threshold = min_swing_distance;
        }
        if threshold < 1 {
            threshold = 1;
        }
        assert(threshold as int == spec_threshold(atr_val, atr_multiplier, min_swing_distance));

        if bar.high >= ch_price {
            ch_price = bar.high;
            ch_idx = idx;
        }
        if bar.low <= cl_price {
            cl_price = bar.low;
            cl_idx = idx;
        }

        match last_type {
            SwingType::Low => {
                if ch_price - last_price >= threshold && ch_idx > last_index {
                    let pivot = bars[ch_idx];
                    let s_atr: i64 = if ch_idx < atr.len() { atr[ch_idx] } else { atr_val };
                    swings.push(SwingPoint {
                        index: ch_idx,
                        bar: pivot,
                        price: pivot.high,
                        swing_type: SwingType::High,
                        atr: s_atr,
                    });
                    last_type = SwingType::High;
                    last_index = ch_idx;
                    last_price = pivot.high;
                    cl_idx = ch_idx;
                    cl_price = pivot.low;
                }
            },
            SwingType::High => {
                if last_price - cl_price >= threshold && cl_idx > last_index {
                    let pivot = bars[cl_idx];
                    let s_atr: i64 = if cl_idx < atr.len() { atr[cl_idx] } else { atr_val };
                    swings.push(SwingPoint {
                        index: cl_idx,
                        bar: pivot,
                        price: pivot.low,
                        swing_type: SwingType::Low,
                        atr: s_atr,
                    });
                    last_type = SwingType::Low;
                    last_index = cl_idx;
                    last_price = pivot.low;
                    ch_idx = cl_idx;
                    ch_price = pivot.high;
                }
            },
        }
        idx = idx + 1;
    }

    proof {
        lemma_scan_upto_inv(bars@, atr@, atr_multiplier, min_swing_distance, n as int);
    }
    swings
}

} // verus!
