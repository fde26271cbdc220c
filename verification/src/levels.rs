//! Conversion of density peaks into priced levels with blended confidence
//! scores.

use vstd::prelude::*;
use crate::data::{Level, LevelType, PerformanceStats, empty_performance, level_wf, PRICE_CAP};
use crate::density::{DENSITY_CAP, GRID_PRICE_CAP};
use crate::peaks::DensityPeak;
use crate::sort::{spec_sort_by, lt_level_confidence, sort_levels_by_confidence, sorted_ord};
use crate::util::{imax, iabs, iclamp, lemma_avg_bound, div_nn_i128, clamp_i64, max_i64};

verus! {

/// A peak record the level builder accepts.
pub open spec fn peak_wf(p: DensityPeak) -> bool {
    &&& -GRID_PRICE_CAP <= p.price <= GRID_PRICE_CAP
    &&& 0 <= p.density <= DENSITY_CAP
    &&& 0 <= p.prominence <= p.density
}

pub open spec fn peaks_wf(s: Seq<DensityPeak>) -> bool {
    forall|i: int| 0 <= i < s.len() ==> peak_wf(#[trigger] s[i])
}

/// Largest peak prominence, floored at one density unit.
pub open spec fn spec_max_prominence(s: Seq<DensityPeak>) -> int
    decreases s.len(),
{
    if s.len() == 0 {
        1
    } else {
        imax(spec_max_prominence(s.drop_last()), s.last().prominence as int)
    }
}

/// The level built for one peak: confidence blends the density score and
/// the prominence score 60/40; the band is the mean ATR scaled by the
/// band multiplier, with a relative fallback when that is not positive.
pub open spec fn spec_level_of(
    p: DensityPeak,
    max_density: i64,
    max_prominence: int,
    current_price: i64,
    mean_atr: i64,
    band_multiplier: i64,
) -> Level {
    let density_score = if max_density > 0 {
        iclamp(p.density * 1_000_000 / (max_density as int), 0, 1_000_000)
    } else {
        0
    };
    let prominence_score = iclamp(p.prominence * 1_000_000 / max_prominence, 0, 1_000_000);
    let confidence = (6 * density_score + 4 * prominence_score) / 10;
    let base_band = mean_atr * band_multiplier / 1_000_000;
    let band = if base_band > 0 {
        base_band
    } else {
        imax(iabs(p.price as int) / 1000, 2500)
    };
    Level {
        price: p.price,
        density: p.density,
        confidence: confidence as i64,
        confidence_band: band as i64,
        level_type: if p.price >= current_price {
            LevelType::Resistance
        } else {
            LevelType::Support
        },
        performance: empty_performance(),
        distance_from_last: iabs(p.price - current_price) as i64,
    }
}

/// All levels of a peak set, sorted by descending confidence and cut to
/// `max_levels`.
pub open spec fn spec_build_levels(
    peaks: Seq<DensityPeak>,
    max_density: i64,
    current_price: i64,
    mean_atr: i64,
    band_multiplier: i64,
    max_levels: int,
) -> Seq<Level> {
    let mp = spec_max_prominence(peaks);
    let raw = peaks.map_values(
        |p: DensityPeak| spec_level_of(p, max_density, mp, current_price, mean_atr, band_multiplier),
    );
    let sorted = spec_sort_by(lt_level_confidence(), raw);
    sorted.take(if max_levels < sorted.len() { max_levels } else { sorted.len() as int })
}

proof fn lemma_max_prominence_bounds(s: Seq<DensityPeak>)
    requires
        peaks_wf(s),
    ensures
        1 <= spec_max_prominence(s) <= DENSITY_CAP,
        forall|i: int| 0 <= i < s.len()
            ==> (#[trigger] s[i]).prominence <= spec_max_prominence(s),
    decreases s.len(),
{
    if s.len() > 0 {
        lemma_max_prominence_bounds(s.drop_last());
        assert(peak_wf(s[s.len() - 1]));
        assert forall|i: int| 0 <= i < s.len()
            implies (#[trigger] s[i]).prominence <= spec_max_prominence(s) by {
            if i < s.len() - 1 {
                assert(s[i] == s.drop_last()[i]);
            }
        };
    }
}

/// The level built for a well-formed peak is well formed, with confidence
/// in `[0, 1_000_000]` and an empty starting performance record.
pub proof fn lemma_level_of_wf(
    p: DensityPeak,
    max_density: i64,
    max_prominence: int,
    current_price: i64,
    mean_atr: i64,
    band_multiplier: i64,
)
    requires
        peak_wf(p),
        max_prominence >= 1,
        0 <= current_price <= PRICE_CAP,
        0 <= mean_atr <= PRICE_CAP,
        0 <= band_multiplier <= 1_000_000_000,
    ensures
        level_wf(spec_level_of(p, max_density, max_prominence, current_price, mean_atr,
            band_multiplier)),
        spec_level_of(p, max_density, max_prominence, current_price, mean_atr,
            band_multiplier).performance == empty_performance(),
        0 <= spec_level_of(p, max_density, max_prominence, current_price, mean_atr,
            band_multiplier).confidence <= 1_000_000,
{
    let l = spec_level_of(p, max_density, max_prominence, current_price, mean_atr,
        band_multiplier);
    assert(0 <= mean_atr * band_multiplier <= 10_000_000_000_000_000_000) by (nonlinear_arith)
        requires
            0 <= mean_atr as int <= 10_000_000_000int,
            0 <= band_multiplier as int <= 1_000_000_000int,
    ;
    lemma_avg_bound(mean_atr * band_multiplier, 1_000_000, 10_000_000_000_000int);
}

/// Build ranked levels from the detected peaks: one level per peak,
/// sorted by descending confidence, truncated to `max_levels`.
pub fn build_levels(
    peaks: &Vec<DensityPeak>,
    max_density: i64,
    current_price: i64,
    mean_atr: i64,
    confidence_band_multiplier: i64,
    max_levels: usize,
) -> (r: Vec<Level>)
    requires
        peaks_wf(peaks@),
        0 <= current_price <= PRICE_CAP,
        0 <= mean_atr <= PRICE_CAP,
        0 <= confidence_band_multiplier <= 1_000_000_000,
    ensures
        r@ == spec_build_levels(peaks@, max_density, current_price, mean_atr,
            confidence_band_multiplier, max_levels as int),
        r@.len() == if peaks@.len() < max_levels as int { peaks@.len() as int } else {
            max_levels as int
        },
        forall|k: int| 0 <= k < r@.len() ==> level_wf(#[trigger] r@[k]),
        forall|k: int| 0 <= k < r@.len()
            ==> (#[trigger] r@[k]).performance == empty_performance(),
        forall|k: int| 0 <= k < r@.len()
            ==> 0 <= (#[trigger] r@[k]).confidence <= 1_000_000,
        sorted_ord(lt_level_confidence(), r@),
{
    let ghost mp = spec_max_prominence(peaks@);
    proof { lemma_max_prominence_bounds(peaks@); }

    let n = peaks.len();
    let mut max_prom: i64 = 1;
    let mut i: usize = 0;
    while i < n
        invariant
            peaks_wf(peaks@),
            n == peaks@.len(),
            i <= n,
            max_prom == spec_max_prominence(peaks@.take(i as int)),
            1 <= max_prom <= DENSITY_CAP,
        decreases n - i,
    {
        proof {
            assert(peak_wf(peaks@[i as int]));
            assert(peaks@.take(i as int + 1).drop_last() =~= peaks@.take(i as int));
        }
        let p = peaks[i].prominence;
        if p > max_prom {
            max_prom = p;
        }
        i = i + 1;
    }
    proof { assert(peaks@.take(n as int) =~= peaks@); }

    let mut raw: Vec<Level> = Vec::new();
    let mut j: usize = 0;
    while j < n
        invariant
            peaks_wf(peaks@),
            n == peaks@.len(),
            j <= n,
            0 <= current_price <= PRICE_CAP,
            0 <= mean_atr <= PRICE_CAP,
            0 <= confidence_band_multiplier <= 1_000_000_000,
            max_prom as int == mp,
            mp == spec_max_prominence(peaks@),
            1 <= max_prom <= DENSITY_CAP,
            raw@ == peaks@.take(j as int).map_values(
                |p: DensityPeak| spec_level_of(p, max_density, mp, current_price, mean_atr,
                    confidence_band_multiplier),
            ),
            forall|k: int| 0 <= k < raw@.len() ==> level_wf(#[trigger] raw@[k]),
            forall|k: int| 0 <= k < raw@.len()
                ==> (#[trigger] raw@[k]).performance == empty_performance(),
            forall|k: int| 0 <= k < raw@.len()
                ==> 0 <= (#[trigger] raw@[k]).confidence <= 1_000_000,
        decreases n - j,
    {
        let p = peaks[j];
        assert(peak_wf(peaks@[j as int]));
        let density_score: i64 = if max_density > 0 {
            proof {
                assert(0 <= (p.density as int) * 1_000_000
                    <= 10_000_000_000_000_000_000_000int) by (nonlinear_arith)
                    requires
                        0 <= p.density as int <= 10_000_000_000_000_000int,
                ;
            }
            let q: i128 = div_nn_i128((p.density as i128) * 1_000_000, max_density as i128);
            proof {
                lemma_avg_bound((p.density as i128) * 1_000_000int, max_density as int,
                    10_000_000_000_000_000_000_000int);
            }
            clamp_i64(if q > 1_000_000 { 1_000_000 } else { q as i64 }, 0, 1_000_000)
        } else {
            0
        };
        proof {
            if max_density > 0 {
                assert(density_score as int
                    == iclamp(p.density * 1_000_000 / (max_density as int), 0, 1_000_000));
            }
        }
        proof {
            assert(0 <= (p.prominence as int) * 1_000_000
                <= 10_000_000_000_000_000_000_000int) by (nonlinear_arith)
                requires
                    0 <= p.prominence as int <= 10_000_000_000_000_000int,
            ;
        }
        let qp: i128 = div_nn_i128((p.prominence as i128) * 1_000_000, max_prom as i128);
        proof {
            lemma_avg_bound((p.prominence as i128) * 1_000_000int, max_prom as int,
                10_000_000_000_000_000_000_000int);
        }
        let prominence_score: i64 = clamp_i64(if qp > 1_000_000 { 1_000_000 } else { qp as i64 },
            0, 1_000_000);
        let confidence: i64 = (6 * density_score + 4 * prominence_score) / 10;

        proof {
            assert(0 <= (mean_atr as int) * (confidence_band_multiplier as int)
                <= 10_000_000_000_000_000_000int) by (nonlinear_arith)
                requires
                    0 <= mean_atr as int <= 10_000_000_000int,
                    0 <= confidence_band_multiplier as int <= 1_000_000_000int,
            ;
            lemma_avg_bound((mean_atr as int) * (confidence_band_multiplier as int), 1_000_000,
                10_000_000_000_000int);
        }
        let base_band: i64 = div_nn_i128(
            (mean_atr as i128) * (confidence_band_multiplier as i128),
            1_000_000,
        ) as i64;
        let band: i64 = if base_band > 0 {
            base_band
        } else {
            let pa = if p.price >= 0 { p.price } else { -p.price };
            max_i64(pa / 1000, 2500)
        };
        let level_type = if p.price >= current_price {
            LevelType::Resistance
        } else {
            LevelType::Support
        };
        let dist = if p.price >= current_price {
            p.price - current_price
        } else {
            current_price - p.price
        };
        let lvl = Level {
            price: p.price,
            density: p.density,
            confidence,
            confidence_band: band,
            level_type,
            performance: PerformanceStats::empty(),
            distance_from_last: dist,
        };
        proof {
            lemma_level_of_wf(p, max_density, mp, current_price, mean_atr,
                confidence_band_multiplier);
            assert(lvl == spec_level_of(p, max_density, mp, current_price, mean_atr,
                confidence_band_multiplier));
        }
        raw.push(lvl);
        proof {
            assert(peaks@.take(j as int + 1).map_values(
                |p: DensityPeak| spec_level_of(p, max_density, mp, current_price, mean_atr,
                    confidence_band_multiplier),
            ) =~= raw@);
        }
        j = j + 1;
    }
    proof { assert(peaks@.take(n as int) =~= peaks@); }

    let mut sorted = sort_levels_by_confidence(raw);
    proof {
        assert forall|k: int| 0 <= k < sorted@.len()
            implies level_wf(#[trigger] sorted@[k])
                && sorted@[k].performance == empty_performance()
                && 0 <= sorted@[k].confidence <= 1_000_000 by {
            assert(sorted@.contains(sorted@[k]));
        };
    }
    if sorted.len() > max_levels {
        sorted.truncate(max_levels);
        proof {
            assert(sorted@ =~= spec_build_levels(peaks@, max_density, current_price, mean_atr,
                confidence_band_multiplier, max_levels as int));
        }
    } else {
        proof {
            assert(sorted@ =~= spec_build_levels(peaks@, max_density, current_price, mean_atr,
                confidence_band_multiplier, max_levels as int));
        }
    }
    sorted
}

} // verus!
