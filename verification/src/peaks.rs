//! Local-maxima and prominence detection over the density grid.

use vstd::prelude::*;
use crate::data::DensityPoint;
use crate::density::{DensityAnalysis, grid_wf, DENSITY_CAP, GRID_PRICE_CAP};
use crate::sort::{spec_sort_by, lt_peak_prominence, sort_peaks_by_prominence, sorted_ord};
use crate::util::imin;

verus! {

/// A local maximum of the density curve: its price, its density, and the
/// drop to the lower of its two adjacent values.
#[derive(Debug, Clone, Copy, PartialEq, Eq, Structural)]
pub struct DensityPeak {
    pub price: i64,
    pub density: i64,
    pub prominence: i64,
}

/// Whether grid point `i` is an interior strict local maximum.
pub open spec fn is_peak(grid: Seq<DensityPoint>, i: int) -> bool {
    &&& 1 <= i < grid.len() - 1
    &&& grid[i].density > grid[i - 1].density
    &&& grid[i].density > grid[i + 1].density
}

/// The peak record for grid point `i`.
pub open spec fn spec_peak_at(grid: Seq<DensityPoint>, i: int) -> DensityPeak {
    let prev = grid[i - 1].density as int;
    let curr = grid[i].density as int;
    let next = grid[i + 1].density as int;
    let left_base = imin(prev, curr);
    let right_base = imin(next, curr);
    DensityPeak {
        price: grid[i].price,
        density: grid[i].density,
        prominence: (curr - imin(left_base, right_base)) as i64,
    }
}

/// Peaks among interior grid points with index below `i`, in grid order.
pub open spec fn spec_peaks_upto(grid: Seq<DensityPoint>, i: int) -> Seq<DensityPeak>
    decreases i,
{
    if i <= 1 {
        Seq::empty()
    } else if is_peak(grid, i - 1) {
        spec_peaks_upto(grid, i - 1).push(spec_peak_at(grid, i - 1))
    } else {
        spec_peaks_upto(grid, i - 1)
    }
}

/// All peaks of the grid, sorted by descending prominence.
pub open spec fn spec_detect_peaks(grid: Seq<DensityPoint>) -> Seq<DensityPeak> {
    if grid.len() < 3 {
        Seq::empty()
    } else {
        spec_sort_by(lt_peak_prominence(), spec_peaks_upto(grid, grid.len() - 1))
    }
}

/// A peak record that genuinely comes from a strict local maximum of the
/// grid.
pub open spec fn peak_from_grid(grid: Seq<DensityPoint>, p: DensityPeak) -> bool {
    exists|i: int| is_peak(grid, i) && p == spec_peak_at(grid, i)
}

proof fn lemma_peaks_upto_from_grid(grid: Seq<DensityPoint>, i: int, e: DensityPeak)
    requires
        i <= grid.len() - 1,
        spec_peaks_upto(grid, i).contains(e),
    ensures
        peak_from_grid(grid, e),
    decreases i,
{
    if i > 1 {
        let prefix = spec_peaks_upto(grid, i - 1);
        if is_peak(grid, i - 1) {
            let k = choose|k: int|
                0 <= k < spec_peaks_upto(grid, i).len() && spec_peaks_upto(grid, i)[k] == e;
            if k < prefix.len() {
                lemma_peaks_upto_from_grid(grid, i - 1, e);
            } else {
                assert(e == spec_peak_at(grid, i - 1));
            }
        } else {
            lemma_peaks_upto_from_grid(grid, i - 1, e);
        }
    }
}

/// Scan the interior grid points for strict local maxima and return them
/// sorted by descending prominence. Every returned peak's density strictly
/// exceeds both its grid neighbours, and its prominence lies in
/// `[0, density]`.
pub fn detect_peaks(density: &DensityAnalysis) -> (r: Vec<DensityPeak>)
    requires
        grid_wf(density.grid@),
    ensures
        r@ == spec_detect_peaks(density.grid@),
        forall|k: int| 0 <= k < r@.len() ==> peak_from_grid(density.grid@, #[trigger] r@[k]),
        forall|k: int| 0 <= k < r@.len()
            ==> 0 <= (#[trigger] r@[k]).prominence <= r@[k].density,
        sorted_ord(lt_peak_prominence(), r@),
{
    let grid = &density.grid;
    if grid.len() < 3 {
        let r: Vec<DensityPeak> = Vec::new();
        assert(r@ =~= spec_detect_peaks(grid@));
        return r;
    }

    let n = grid.len();
    let mut peaks: Vec<DensityPeak> = Vec::new();
    let mut i: usize = 1;
    while i < n - 1
        invariant
            grid_wf(grid@),
            n == grid@.len(),
            3 <= n,
            1 <= i <= n - 1,
            peaks@ == spec_peaks_upto(grid@, i as int),
        decreases n - i,
    {
        let prev = grid[i - 1].density;
        let curr = grid[i].density;
        let next = grid[i + 1].density;
        if curr > prev && curr > next {
            let left_base = if prev <= curr { prev } else { curr };
            let right_base = if next <= curr { next } else { curr };
            let base = if left_base <= right_base { left_base } else { right_base };
            peaks.push(DensityPeak {
                price: grid[i].price,
                density: curr,
                prominence: curr - base,
            });
        }
        i = i + 1;
    }

    let r = sort_peaks_by_prominence(peaks);
    proof {
        assert forall|k: int| 0 <= k < r@.len()
            implies peak_from_grid(grid@, #[trigger] r@[k]) by {
            assert(r@.contains(r@[k]));
            lemma_peaks_upto_from_grid(grid@, n as int - 1, r@[k]);
        };
        assert forall|k: int| 0 <= k < r@.len()
            implies 0 <= (#[trigger] r@[k]).prominence <= r@[k].density by {
            assert(peak_from_grid(grid@, r@[k]));
            let i0 = choose|i0: int| is_peak(grid@, i0) && r@[k] == spec_peak_at(grid@, i0);
            assert(0 <= grid@[i0 - 1].density && 0 <= grid@[i0 + 1].density);
        };
    }
    r
}

} // verus!
