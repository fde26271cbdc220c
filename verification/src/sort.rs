//! Stable sorting, specified as insertion sort: each element is placed
//! after every element it does not strictly precede, so elements that
//! compare equal keep their original order.

use vstd::prelude::*;
use crate::data::{SwingPoint, Level};
use crate::peaks::DensityPeak;

verus! {

/// Insert `x` into `s` after every element `y` with `!lt(x, y)`.
pub open spec fn spec_insert_by<T>(lt: spec_fn(T, T) -> bool, s: Seq<T>, x: T) -> Seq<T>
    decreases s.len(),
{
    if s.len() == 0 {
        seq![x]
    } else if !lt(x, s.last()) {
        s.push(x)
    } else {
        spec_insert_by(lt, s.drop_last(), x).push(s.last())
    }
}

/// Stable insertion sort of `s` under the strict order `lt`.
pub open spec fn spec_sort_by<T>(lt: spec_fn(T, T) -> bool, s: Seq<T>) -> Seq<T>
    decreases s.len(),
{
    if s.len() == 0 {
        Seq::empty()
    } else {
        spec_insert_by(lt, spec_sort_by(lt, s.drop_last()), s.last())
    }
}

/// No later element strictly precedes an earlier one.
pub open spec fn sorted_ord<T>(lt: spec_fn(T, T) -> bool, s: Seq<T>) -> bool {
    forall|i: int, j: int| 0 <= i < j < s.len() ==> !lt(#[trigger] s[j], #[trigger] s[i])
}

/// A strict order usable for sorting: asymmetric, with transitive
/// complement.
pub open spec fn strict_order<T>(lt: spec_fn(T, T) -> bool) -> bool {
    &&& forall|a: T, b: T| #[trigger] lt(a, b) ==> !lt(b, a)
    &&& forall|a: T, b: T, c: T| !#[trigger] lt(a, b) && !#[trigger] lt(b, c) ==> !lt(a, c)
}

pub proof fn lemma_insert_by_len<T>(lt: spec_fn(T, T) -> bool, s: Seq<T>, x: T)
    ensures
        spec_insert_by(lt, s, x).len() == s.len() + 1,
    decreases s.len(),
{
    if s.len() != 0 && lt(x, s.last()) {
        lemma_insert_by_len(lt, s.drop_last(), x);
    }
}

pub proof fn lemma_insert_by_contains<T>(lt: spec_fn(T, T) -> bool, s: Seq<T>, x: T, e: T)
    requires
        spec_insert_by(lt, s, x).contains(e),
    ensures
        s.contains(e) || e == x,
    decreases s.len(),
{
    let r = spec_insert_by(lt, s, x);
    if s.len() == 0 {
        assert(r == seq![x]);
        assert(e == r[0]);
    } else if !lt(x, s.last()) {
        let i = choose|i: int| 0 <= i < r.len() && r[i] == e;
        if i < s.len() {
            assert(s[i] == e);
        }
    } else {
        let sub = spec_insert_by(lt, s.drop_last(), x);
        let i = choose|i: int| 0 <= i < r.len() && r[i] == e;
        lemma_insert_by_len(lt, s.drop_last(), x);
        if i < sub.len() {
            lemma_insert_by_contains(lt, s.drop_last(), x, e);
            if s.drop_last().contains(e) {
                let j = choose|j: int| 0 <= j < s.drop_last().len() && s.drop_last()[j] == e;
                assert(s[j] == e);
            }
        } else {
            assert(e == s.last());
            assert(s[s.len() - 1] == e);
        }
    }
}

pub proof fn lemma_insert_by_multiset<T>(lt: spec_fn(T, T) -> bool, s: Seq<T>, x: T)
    ensures
        spec_insert_by(lt, s, x).to_multiset() == s.to_multiset().insert(x),
    decreases s.len(),
{
    broadcast use vstd::seq_lib::group_to_multiset_ensures;

    if s.len() == 0 {
        assert(spec_insert_by(lt, s, x) =~= Seq::empty().push(x));
        assert(s =~= Seq::<T>::empty());
        assert(Seq::<T>::empty().push(x).to_multiset() =~= Seq::<T>::empty().to_multiset().insert(x));
    } else if !lt(x, s.last()) {
    } else {
        lemma_insert_by_multiset(lt, s.drop_last(), x);
        let sub = spec_insert_by(lt, s.drop_last(), x);
        assert(s.drop_last().push(s.last()) =~= s);
        assert(sub.push(s.last()).to_multiset() =~= sub.to_multiset().insert(s.last()));
        assert(s.drop_last().push(s.last()).to_multiset()
            =~= s.drop_last().to_multiset().insert(s.last()));
        assert(sub.to_multiset().insert(s.last())
            =~= s.drop_last().to_multiset().insert(x).insert(s.last()));
        assert(s.drop_last().to_multiset().insert(x).insert(s.last())
            =~= s.drop_last().to_multiset().insert(s.last()).insert(x));
    }
}

pub proof fn lemma_insert_by_sorted<T>(lt: spec_fn(T, T) -> bool, s: Seq<T>, x: T)
    requires
        strict_order(lt),
        sorted_ord(lt, s),
    ensures
        sorted_ord(lt, spec_insert_by(lt, s, x)),
    decreases s.len(),
{
    let r = spec_insert_by(lt, s, x);
    if s.len() == 0 {
    } else if !lt(x, s.last()) {
        assert forall|i: int, j: int| 0 <= i < j < r.len() implies !lt(r[j], r[i]) by {
            if j == r.len() - 1 {
                if i < s.len() - 1 {
                    assert(!lt(s.last(), s[i]));
                    assert(!lt(x, s.last()));
                }
            }
        };
    } else {
        lemma_insert_by_sorted(lt, s.drop_last(), x);
        let sub = spec_insert_by(lt, s.drop_last(), x);
        lemma_insert_by_len(lt, s.drop_last(), x);
        assert forall|i: int, j: int| 0 <= i < j < r.len() implies !lt(r[j], r[i]) by {
            if j == r.len() - 1 {
                assert(r[j] == s.last());
                lemma_insert_by_contains(lt, s.drop_last(), x, r[i]);
                if s.drop_last().contains(r[i]) {
                    let k = choose|k: int|
                        0 <= k < s.drop_last().len() && s.drop_last()[k] == r[i];
                    assert(!lt(s[s.len() - 1], s[k]));
                } else {
                    assert(r[i] == x);
                    assert(lt(x, s.last()));
                    assert(!lt(s.last(), x));
                }
            } else {
                assert(r[i] == sub[i] && r[j] == sub[j]);
            }
        };
    }
}

pub proof fn lemma_sort_by_props<T>(lt: spec_fn(T, T) -> bool, s: Seq<T>)
    requires
        strict_order(lt),
    ensures
        spec_sort_by(lt, s).len() == s.len(),
        spec_sort_by(lt, s).to_multiset() == s.to_multiset(),
        sorted_ord(lt, spec_sort_by(lt, s)),
        forall|e: T| #[trigger] spec_sort_by(lt, s).contains(e) ==> s.contains(e),
    decreases s.len(),
{
    broadcast use vstd::seq_lib::group_to_multiset_ensures;

    if s.len() == 0 {
    } else {
        lemma_sort_by_props(lt, s.drop_last());
        let sub = spec_sort_by(lt, s.drop_last());
        lemma_insert_by_len(lt, sub, s.last());
        lemma_insert_by_multiset(lt, sub, s.last());
        lemma_insert_by_sorted(lt, sub, s.last());
        assert(s.drop_last().push(s.last()) =~= s);
        assert(s.drop_last().push(s.last()).to_multiset()
            =~= s.drop_last().to_multiset().insert(s.last()));
        assert forall|e: T| #[trigger] spec_sort_by(lt, s).contains(e) implies s.contains(e) by {
            lemma_insert_by_contains(lt, sub, s.last(), e);
            if sub.contains(e) {
                let j = choose|j: int| 0 <= j < s.drop_last().len() && s.drop_last()[j] == e;
                assert(s[j] == e);
            } else {
                assert(s[s.len() - 1] == e);
            }
        };
    }
}

/// Where `spec_insert_by` places `x`: before position `pos`, the elements
/// `x` does not precede; from `pos` on, those it does.
pub proof fn lemma_insert_by_at<T>(lt: spec_fn(T, T) -> bool, s: Seq<T>, x: T, pos: int)
    requires
        0 <= pos <= s.len(),
        forall|j: int| pos <= j < s.len() ==> lt(x, #[trigger] s[j]),
        pos > 0 ==> !lt(x, s[pos - 1]),
    ensures
        spec_insert_by(lt, s, x) == s.take(pos).push(x) + s.skip(pos),
    decreases s.len(),
{
    if s.len() == 0 {
        assert(spec_insert_by(lt, s, x) =~= s.take(pos).push(x) + s.skip(pos));
    } else if !lt(x, s.last()) {
        assert(pos == s.len());
        assert(s.take(pos) =~= s);
        assert(s.skip(pos) =~= Seq::empty());
        assert(spec_insert_by(lt, s, x) =~= s.take(pos).push(x) + s.skip(pos));
    } else {
        lemma_insert_by_at(lt, s.drop_last(), x, pos);
        assert(s.drop_last().take(pos) =~= s.take(pos));
        assert(spec_insert_by(lt, s.drop_last(), x).push(s.last())
            =~= s.take(pos).push(x) + s.skip(pos));
    }
}

/// Ascending order on plain values.
pub open spec fn lt_i64() -> spec_fn(i64, i64) -> bool {
    |a: i64, b: i64| a < b
}

/// Ascending order on swing prices.
pub open spec fn lt_swing_price() -> spec_fn(SwingPoint, SwingPoint) -> bool {
    |a: SwingPoint, b: SwingPoint| a.price < b.price
}

/// Descending order on peak prominence.
pub open spec fn lt_peak_prominence() -> spec_fn(DensityPeak, DensityPeak) -> bool {
    |a: DensityPeak, b: DensityPeak| a.prominence > b.prominence
}

/// Descending order on level confidence.
pub open spec fn lt_level_confidence() -> spec_fn(Level, Level) -> bool {
    |a: Level, b: Level| a.confidence > b.confidence
}

/// Sort values ascending; stable.
pub fn sort_i64(v: Vec<i64>) -> (r: Vec<i64>)
    ensures
        r@ == spec_sort_by(lt_i64(), v@),
        r@.len() == v@.len(),
        r@.to_multiset() == v@.to_multiset(),
        sorted_ord(lt_i64(), r@),
        forall|e: i64| #[trigger] r@.contains(e) ==> v@.contains(e),
{
    let ghost lt = lt_i64();
    proof { lemma_sort_by_props(lt, v@); }
    let mut out: Vec<i64> = Vec::new();
    let mut i: usize = 0;
    while i < v.len()
        invariant
            i <= v@.len(),
            out@ == spec_sort_by(lt, v@.take(i as int)),
            out@.len() == i as int,
            lt == lt_i64(),
        decreases v@.len() - i,
    {
        let x = v[i];
        let mut pos: usize = out.len();
        while pos > 0 && x < out[pos - 1]
            invariant
                pos <= out@.len(),
                forall|j: int| pos <= j < out@.len() ==> lt(x, #[trigger] out@[j]),
                lt == lt_i64(),
            decreases pos,
        {
            pos = pos - 1;
        }
        proof {
            lemma_insert_by_at(lt, out@, x, pos as int);
            assert(v@.take(i as int + 1).drop_last() =~= v@.take(i as int));
            assert(out@.take(pos as int).push(x) + out@.skip(pos as int)
                =~= out@.insert(pos as int, x));
        }
        out.insert(pos, x);
        i = i + 1;
    }
    proof {
        assert(v@.take(v@.len() as int) =~= v@);
        lemma_sort_by_props(lt, v@);
    }
    out
}

/// Sort swing points by price ascending; stable, so swings with equal
/// prices keep their detection order.
pub fn sort_swings_by_price(v: Vec<SwingPoint>) -> (r: Vec<SwingPoint>)
    ensures
        r@ == spec_sort_by(lt_swing_price(), v@),
        r@.len() == v@.len(),
        r@.to_multiset() == v@.to_multiset(),
        sorted_ord(lt_swing_price(), r@),
        forall|e: SwingPoint| #[trigger] r@.contains(e) ==> v@.contains(e),
{
    let ghost lt = lt_swing_price();
    proof { lemma_sort_by_props(lt, v@); }
    let mut out: Vec<SwingPoint> = Vec::new();
    let mut i: usize = 0;
    while i < v.len()
        invariant
            i <= v@.len(),
            out@ == spec_sort_by(lt, v@.take(i as int)),
            out@.len() == i as int,
            lt == lt_swing_price(),
        decreases v@.len() - i,
    {
        let x = v[i];
        let mut pos: usize = out.len();
        while pos > 0 && x.price < out[pos - 1].price
            invariant
                pos <= out@.len(),
                forall|j: int| pos <= j < out@.len() ==> lt(x, #[trigger] out@[j]),
                lt == lt_swing_price(),
            decreases pos,
        {
            pos = pos - 1;
        }
        proof {
            lemma_insert_by_at(lt, out@, x, pos as int);
            assert(v@.take(i as int + 1).drop_last() =~= v@.take(i as int));
            assert(out@.take(pos as int).push(x) + out@.skip(pos as int)
                =~= out@.insert(pos as int, x));
        }
        out.insert(pos, x);
        i = i + 1;
    }
    proof {
        assert(v@.take(v@.len() as int) =~= v@);
        lemma_sort_by_props(lt, v@);
    }
    out
}

/// Sort peaks by prominence descending; stable, so peaks with equal
/// prominence keep grid order.
pub fn sort_peaks_by_prominence(v: Vec<DensityPeak>) -> (r: Vec<DensityPeak>)
    ensures
        r@ == spec_sort_by(lt_peak_prominence(), v@),
        r@.len() == v@.len(),
        r@.to_multiset() == v@.to_multiset(),
        sorted_ord(lt_peak_prominence(), r@),
        forall|e: DensityPeak| #[trigger] r@.contains(e) ==> v@.contains(e),
{
    let ghost lt = lt_peak_prominence();
    proof { lemma_sort_by_props(lt, v@); }
    let mut out: Vec<DensityPeak> = Vec::new();
    let mut i: usize = 0;
    while i < v.len()
        invariant
            i <= v@.len(),
            out@ == spec_sort_by(lt, v@.take(i as int)),
            out@.len() == i as int,
            lt == lt_peak_prominence(),
        decreases v@.len() - i,
    {
        let x = v[i];
        let mut pos: usize = out.len();
        while pos > 0 && x.prominence > out[pos - 1].prominence
            invariant
                pos <= out@.len(),
                forall|j: int| pos <= j < out@.len() ==> lt(x, #[trigger] out@[j]),
                lt == lt_peak_prominence(),
            decreases pos,
        {
            pos = pos - 1;
        }
        proof {
            lemma_insert_by_at(lt, out@, x, pos as int);
            assert(v@.take(i as int + 1).drop_last() =~= v@.take(i as int));
            assert(out@.take(pos as int).push(x) + out@.skip(pos as int)
                =~= out@.insert(pos as int, x));
        }
        out.insert(pos, x);
        i = i + 1;
    }
    proof {
        assert(v@.take(v@.len() as int) =~= v@);
        lemma_sort_by_props(lt, v@);
    }
    out
}

/// Sort levels by confidence descending; stable, so levels with equal
/// confidence keep their construction order.
pub fn sort_levels_by_confidence(v: Vec<Level>) -> (r: Vec<Level>)
    ensures
        r@ == spec_sort_by(lt_level_confidence(), v@),
        r@.len() == v@.len(),
        r@.to_multiset() == v@.to_multiset(),
        sorted_ord(lt_level_confidence(), r@),
        forall|e: Level| #[trigger] r@.contains(e) ==> v@.contains(e),
{
    let ghost lt = lt_level_confidence();
    proof { lemma_sort_by_props(lt, v@); }
    let mut out: Vec<Level> = Vec::new();
    let mut i: usize = 0;
    while i < v.len()
        invariant
            i <= v@.len(),
            out@ == spec_sort_by(lt, v@.take(i as int)),
            out@.len() == i as int,
            lt == lt_level_confidence(),
        decreases v@.len() - i,
    {
        let x = v[i];
        let mut pos: usize = out.len();
        while pos > 0 && x.confidence > out[pos - 1].confidence
            invariant
                pos <= out@.len(),
                forall|j: int| pos <= j < out@.len() ==> lt(x, #[trigger] out@[j]),
                lt == lt_level_confidence(),
            decreases pos,
        {
            pos = pos - 1;
        }
        proof {
            lemma_insert_by_at(lt, out@, x, pos as int);
            assert(v@.take(i as int + 1).drop_last() =~= v@.take(i as int));
            assert(out@.take(pos as int).push(x) + out@.skip(pos as int)
                =~= out@.insert(pos as int, x));
        }
        out.insert(pos, x);
        i = i + 1;
    }
    proof {
        assert(v@.take(v@.len() as int) =~= v@);
        lemma_sort_by_props(lt, v@);
    }
    out
}

} // verus!
