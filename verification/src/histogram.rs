//! Diameters sorted, ranged, counted into bins and scaled for a histogram.
use crate::calc::answered;
use crate::calc::ask;
use crate::calc::computes;
use crate::calc::result_of;
use crate::scalar::lemma_rank_orders_values;
use crate::scalar::Scalar;
use crate::scalar::INFINITY_BITS;
use crate::scalar::ONE_BITS;
use crate::sorting::before;
use crate::sorting::arranged;
use crate::sorting::arranging_keeps_items;
use crate::sorting::arranging_keeps_picks;
use crate::sorting::is_order;
use crate::sorting::order_exists;
use crate::sorting::order_is_arrangement;
use crate::sorting::models;
use crate::sorting::order_by_key;
use crate::sorting::order_of;
use crate::types::diameters_in;
use crate::types::lemma_take_step;
use crate::types::totals_pick_by_marks;
use crate::types::AnalysisResults;
use crate::types::BubbleView;
use crate::types::FrameView;
use crate::types::ResultsView;
use vstd::prelude::*;

verus! {

/// What the vertical axis of a histogram counts.
#[derive(Clone, Copy, Debug, PartialEq, Eq, Structural)]
pub enum HistAxisMode {
    Counts,
    AvgPerImage,
    Percent,
}

/// The caption of the vertical axis.
pub open spec fn axis_caption(mode: HistAxisMode) -> Seq<char> {
    match mode {
        HistAxisMode::Counts => "count"@,
        HistAxisMode::AvgPerImage => "avg / image"@,
        HistAxisMode::Percent => "%"@,
    }
}

/// With how many decimals a value of the vertical axis is written: none, but for
/// averages on an axis that ends below ten, and one more below one.
pub open spec fn axis_decimals(mode: HistAxisMode, y_max: Scalar) -> nat {
    let ten = Scalar { bits: 0x4120_0000 };
    let one = Scalar { bits: ONE_BITS };
    match mode {
        HistAxisMode::AvgPerImage => if ten.at_most(y_max) {
            0
        } else if one.at_most(y_max) {
            1
        } else {
            2
        },
        _ => 0,
    }
}

impl HistAxisMode {
    /// The caption of the vertical axis.
    pub fn axis_label(self) -> (r: &'static str)
        ensures
            r@ == axis_caption(self),
            self == HistAxisMode::Counts ==> r@ == "count"@,
            self == HistAxisMode::AvgPerImage ==> r@ == "avg / image"@,
            self == HistAxisMode::Percent ==> r@ == "%"@,
    {
        match self {
            HistAxisMode::Counts => "count",
            HistAxisMode::AvgPerImage => "avg / image",
            HistAxisMode::Percent => "%",
        }
    }

    /// How many decimals the values of the axis are written with.
    pub fn label_decimals(self, y_max: Scalar) -> (r: usize)
        ensures
            r == axis_decimals(self, y_max),
            self != HistAxisMode::AvgPerImage ==> r == 0,
            self == HistAxisMode::AvgPerImage ==> (r == 0 <==> (Scalar { bits: 0x4120_0000 }).at_most(y_max)),
            self == HistAxisMode::AvgPerImage ==> (r == 1 <==> (Scalar { bits: ONE_BITS }).at_most(y_max)
                && !(Scalar { bits: 0x4120_0000 }).at_most(y_max)),
            r <= 2,
    {
        match self {
            HistAxisMode::AvgPerImage => {
                if Scalar::from_bits(0x4120_0000).le(y_max) {
                    0
                } else if Scalar::from_bits(ONE_BITS).le(y_max) {
                    1
                } else {
                    2
                }
            },
            _ => 0,
        }
    }

    /// What is written behind the values of the axis.
    pub fn label_suffix(self) -> (r: &'static str)
        ensures
            r@ == (if self == HistAxisMode::Percent {
                "%"@
            } else {
                ""@
            }),
    {
        match self {
            HistAxisMode::Percent => "%",
            _ => "",
        }
    }
}

/// Keys that put the smallest number first.
pub open spec fn value_keys(ds: Seq<Scalar>) -> Seq<i64> {
    Seq::new(ds.len(), |i: int| ds[i].rank_spec() as i64)
}

/// The numbers from the smallest to the largest, equal ones in their given order.
pub open spec fn sorted(ds: Seq<Scalar>) -> Seq<Scalar> {
    Seq::new(ds.len(), |i: int| ds[order_of(value_keys(ds))[i] as int])
}

/// Sorts numbers from the smallest to the largest.
pub fn sort_diameters(ds: &Vec<Scalar>) -> (r: Vec<Scalar>)
    ensures
        r@ == sorted(ds@),
{
    let n: usize = ds.len();
    let mut keys: Vec<i64> = Vec::new();
    let mut i: usize = 0;
    while i < n
        invariant
            i <= n,
            n == ds@.len(),
            keys@ == value_keys(ds@).take(i as int),
        decreases n - i,
    {
        keys.push(ds[i].rank());
        assert(keys@ =~= value_keys(ds@).take(i + 1));
        i += 1;
    }
    assert(keys@ =~= value_keys(ds@));
    assert(models(keys@) =~= keys@);
    let order = order_by_key(&keys);
    let mut out: Vec<Scalar> = Vec::new();
    let mut k: usize = 0;
    while k < n
        invariant
            k <= n,
            n == ds@.len(),
            is_order(value_keys(ds@), order@),
            order@ == order_of(value_keys(ds@)),
            out@ == sorted(ds@).take(k as int),
        decreases n - k,
    {
        out.push(ds[order[k]]);
        assert(out@ =~= sorted(ds@).take(k + 1));
        k += 1;
    }
    assert(out@ =~= sorted(ds@));
    out
}

/// The smallest, the middle and the largest of some diameters.
#[derive(Clone, Copy, Debug)]
pub struct Spread {
    pub min: Scalar,
    pub median: Scalar,
    pub max: Scalar,
}

/// The spread of at least one diameter. Of an even number the upper middle one counts.
pub open spec fn spread_of(ds: Seq<Scalar>) -> Spread {
    Spread { min: sorted(ds)[0], median: sorted(ds)[ds.len() as int / 2], max: sorted(ds)[ds.len() - 1] }
}

/// The spread of some diameters, where there are any.
pub fn spread(ds: &Vec<Scalar>) -> (r: Option<Spread>)
    ensures
        r == (if ds@.len() == 0 {
            None
        } else {
            Some(spread_of(ds@))
        }),
        r is Some && (forall|k: int| 0 <= k < ds@.len() ==> !(#[trigger] ds@[k]).nan()) ==> {
            let n = ds@.len();
            let median = r->Some_0.median;
            &&& ds@.contains(r->Some_0.min)
            &&& ds@.contains(median)
            &&& ds@.contains(r->Some_0.max)
            &&& ds@.filter(|d: Scalar| r->Some_0.min.at_most(d)).len() == n
            &&& ds@.filter(|d: Scalar| d.at_most(r->Some_0.max)).len() == n
            &&& ds@.filter(|d: Scalar| d.at_most(median)).len() >= n / 2 + 1
            &&& ds@.filter(|d: Scalar| median.at_most(d)).len() >= n - n / 2
        },
{
    let n: usize = ds.len();
    if n == 0 {
        return None;
    }
    let s = sort_diameters(ds);
    proof {
        if forall|k: int| 0 <= k < ds@.len() ==> !(#[trigger] ds@[k]).nan() {
            spread_halves_diameters(ds@);
        }
    }
    Some(Spread { min: s[0], median: s[n / 2], max: s[n - 1] })
}

/// The sorted numbers are the given ones, each found once, and none is smaller than one
/// that stands before it.
pub proof fn sorted_is_sorted(ds: Seq<Scalar>)
    requires
        ds.len() <= usize::MAX,
        forall|i: int| 0 <= i < ds.len() ==> !(#[trigger] ds[i]).nan(),
    ensures
        sorted(ds).len() == ds.len(),
        forall|i: int, j: int|
            0 <= i <= j < ds.len() ==> (#[trigger] sorted(ds)[i]).at_most(#[trigger] sorted(ds)[j]),
        is_order(value_keys(ds), order_of(value_keys(ds))),
{
    let keys = value_keys(ds);
    order_exists(keys);
    let order = order_of(keys);
    assert(is_order(keys, order));
    assert forall|i: int, j: int| 0 <= i <= j < ds.len() implies (#[trigger] sorted(ds)[i]).at_most(
        #[trigger] sorted(ds)[j],
    ) by {
        let a = order[i];
        let b = order[j];
        assert(a < keys.len() && b < keys.len());
        if i < j {
            assert(before(keys, a, b));
        }
        lemma_rank_orders_values(ds[a as int], ds[b as int]);
        lemma_rank_orders_values(ds[b as int], ds[a as int]);
    }
}

/// The three numbers of a spread are in order, and bound every diameter.
pub proof fn spread_bounds_diameters(ds: Seq<Scalar>, i: int)
    requires
        ds.len() <= usize::MAX,
        forall|k: int| 0 <= k < ds.len() ==> !(#[trigger] ds[k]).nan(),
        0 <= i < ds.len(),
    ensures
        spread_of(ds).min.at_most(spread_of(ds).median),
        spread_of(ds).median.at_most(spread_of(ds).max),
        spread_of(ds).min.at_most(ds[i]),
        ds[i].at_most(spread_of(ds).max),
{
    sorted_is_sorted(ds);
    let order = order_of(value_keys(ds));
    assert(order.contains(i as usize));
    let p = choose|p: int| 0 <= p < order.len() && order[p] == i as usize;
    assert(sorted(ds)[p] == ds[i]);
}

proof fn lemma_all_picked(ds: Seq<Scalar>, pick: spec_fn(Scalar) -> bool)
    requires
        forall|i: int| 0 <= i < ds.len() ==> pick(#[trigger] ds[i]),
    ensures
        ds.filter(pick).len() == ds.len(),
    decreases ds.len(),
{
    reveal(Seq::filter);
    if ds.len() > 0 {
        let shorter = ds.drop_last();
        assert forall|i: int| 0 <= i < shorter.len() implies pick(#[trigger] shorter[i]) by {
            assert(shorter[i] == ds[i]);
        }
        assert(pick(ds[ds.len() - 1]));
        lemma_all_picked(shorter, pick);
    }
}

/// At least as many are picked as a stretch of picked ones is long.
proof fn lemma_stretch_picked(ds: Seq<Scalar>, pick: spec_fn(Scalar) -> bool, lo: int, hi: int)
    requires
        0 <= lo <= hi <= ds.len(),
        forall|i: int| lo <= i < hi ==> pick(#[trigger] ds[i]),
    ensures
        ds.filter(pick).len() >= hi - lo,
{
    let head = ds.take(lo);
    let part = ds.subrange(lo, hi);
    let tail = ds.skip(hi);
    assert(ds =~= head + part + tail);
    Seq::filter_distributes_over_add(head + part, tail, pick);
    Seq::filter_distributes_over_add(head, part, pick);
    assert forall|i: int| 0 <= i < part.len() implies pick(#[trigger] part[i]) by {
        assert(part[i] == ds[lo + i]);
    }
    lemma_all_picked(part, pick);
}

/// Sorting keeps each number as often as it is given.
pub proof fn sorting_keeps_numbers(ds: Seq<Scalar>)
    requires
        ds.len() <= usize::MAX,
    ensures
        sorted(ds).to_multiset() == ds.to_multiset(),
{
    let keys = value_keys(ds);
    order_exists(keys);
    order_is_arrangement(keys, order_of(keys));
    arranging_keeps_items(ds, order_of(keys));
    assert(sorted(ds) =~= arranged(ds, order_of(keys)));
}

/// The three numbers of a spread are among the given ones. None is smaller than the first,
/// none larger than the last, and the middle one has the middle place: with it, more than
/// half of the numbers are at most as large, and at least half are at least as large.
pub proof fn spread_halves_diameters(ds: Seq<Scalar>)
    requires
        0 < ds.len() <= usize::MAX,
        forall|k: int| 0 <= k < ds.len() ==> !(#[trigger] ds[k]).nan(),
    ensures
        ds.contains(spread_of(ds).min),
        ds.contains(spread_of(ds).median),
        ds.contains(spread_of(ds).max),
        ds.filter(|d: Scalar| spread_of(ds).min.at_most(d)).len() == ds.len(),
        ds.filter(|d: Scalar| d.at_most(spread_of(ds).max)).len() == ds.len(),
        ds.filter(|d: Scalar| d.at_most(spread_of(ds).median)).len() >= ds.len() / 2 + 1,
        ds.filter(|d: Scalar| spread_of(ds).median.at_most(d)).len() >= ds.len() - ds.len() / 2,
{
    let n = ds.len() as int;
    let s = sorted(ds);
    let m = spread_of(ds).median;
    sorted_is_sorted(ds);
    let keys = value_keys(ds);
    let order = order_of(keys);
    order_is_arrangement(keys, order);
    assert(s =~= arranged(ds, order));
    assert(order[0] < keys.len() && order[n / 2] < keys.len() && order[n - 1] < keys.len());
    assert(ds[order[0] as int] == s[0] && ds[order[n / 2] as int] == s[n / 2] && ds[order[n - 1] as int] == s[n - 1]);
    let low = |d: Scalar| d.at_most(m);
    let high = |d: Scalar| m.at_most(d);
    assert(m == s[n / 2]);
    arranging_keeps_picks(ds, order, low);
    arranging_keeps_picks(ds, order, high);
    lemma_stretch_picked(s, low, 0, n / 2 + 1);
    lemma_stretch_picked(s, high, n / 2, n);
    let above = |d: Scalar| spread_of(ds).min.at_most(d);
    let below = |d: Scalar| d.at_most(spread_of(ds).max);
    assert forall|i: int| 0 <= i < n implies above(#[trigger] ds[i]) && below(ds[i]) by {
        spread_bounds_diameters(ds, i);
    }
    lemma_all_picked(ds, above);
    lemma_all_picked(ds, below);
}

/// The smallest of `start` and the diameters.
pub open spec fn least(start: Scalar, ds: Seq<Scalar>) -> Scalar
    decreases ds.len(),
{
    if ds.len() == 0 {
        start
    } else {
        let m = least(start, ds.drop_last());
        if ds.last().less(m) {
            ds.last()
        } else {
            m
        }
    }
}

/// The largest of `start` and the diameters.
pub open spec fn greatest(start: Scalar, ds: Seq<Scalar>) -> Scalar
    decreases ds.len(),
{
    if ds.len() == 0 {
        start
    } else {
        let m = greatest(start, ds.drop_last());
        if m.less(ds.last()) {
            ds.last()
        } else {
            m
        }
    }
}

/// The accepted diameters of all samples, one after the other.
pub open spec fn all_diameters(samples: Seq<ResultsView>) -> Seq<Scalar>
    decreases samples.len(),
{
    if samples.len() == 0 {
        Seq::empty()
    } else {
        all_diameters(samples.drop_last()) + diameters_in(samples.last().frames)
    }
}

/// The range that the diameters span: from zero to one where they span none.
pub open spec fn range_of(ds: Seq<Scalar>) -> (Scalar, Scalar) {
    let mn = least(Scalar { bits: INFINITY_BITS }, ds);
    let mx = greatest(Scalar { bits: 0xff80_0000 }, ds);
    if mn.finite() && mx.finite() && mn.less(mx) {
        (mn, mx)
    } else {
        (Scalar { bits: 0 }, Scalar { bits: ONE_BITS })
    }
}

/// The range that the accepted diameters of all samples span: from zero to one where
/// they span none.
pub fn global_diameter_range(samples: &Vec<&AnalysisResults>) -> (r: (Scalar, Scalar))
    ensures
        r == range_of(all_diameters(samples@.map_values(|s: &AnalysisResults| s@))),
{
    let ghost views = samples@.map_values(|s: &AnalysisResults| s@);
    let mut ds: Vec<Scalar> = Vec::new();
    let n: usize = samples.len();
    let mut i: usize = 0;
    while i < n
        invariant
            i <= n,
            n == samples@.len(),
            views == samples@.map_values(|s: &AnalysisResults| s@),
            ds@ == all_diameters(views.take(i as int)),
        decreases n - i,
    {
        let mut more = samples[i].diameters_valid();
        ds.append(&mut more);
        proof {
            lemma_take_step(views, i as int);
        }
        i += 1;
    }
    assert(views.take(n as int) =~= views);
    let mut mn = Scalar::from_bits(INFINITY_BITS);
    let mut mx = Scalar::from_bits(0xff80_0000);
    let total: usize = ds.len();
    let mut k: usize = 0;
    while k < total
        invariant
            k <= total,
            total == ds@.len(),
            mn == least(Scalar { bits: INFINITY_BITS }, ds@.take(k as int)),
            mx == greatest(Scalar { bits: 0xff80_0000 }, ds@.take(k as int)),
        decreases total - k,
    {
        proof {
            lemma_take_step(ds@, k as int);
        }
        let d = ds[k];
        if d.lt(mn) {
            mn = d;
        }
        if mx.lt(d) {
            mx = d;
        }
        k += 1;
    }
    assert(ds@.take(total as int) =~= ds@);
    if mn.is_finite() && mx.is_finite() && mn.lt(mx) {
        (mn, mx)
    } else {
        (Scalar::from_bits(0), Scalar::from_bits(ONE_BITS))
    }
}

proof fn lemma_extremes(ds: Seq<Scalar>, i: int)
    requires
        0 <= i < ds.len(),
        !ds[i].nan(),
    ensures
        least(Scalar { bits: INFINITY_BITS }, ds).at_most(ds[i]),
        ds[i].at_most(greatest(Scalar { bits: 0xff80_0000 }, ds)),
    decreases ds.len(),
{
    lemma_extremes_are_numbers(ds);
    lemma_extremes_are_numbers(ds.drop_last());
    if i < ds.len() - 1 {
        lemma_extremes(ds.drop_last(), i);
    }
}

proof fn lemma_extremes_are_numbers(ds: Seq<Scalar>)
    ensures
        !least(Scalar { bits: INFINITY_BITS }, ds).nan(),
        !greatest(Scalar { bits: 0xff80_0000 }, ds).nan(),
    decreases ds.len(),
{
    if ds.len() > 0 {
        lemma_extremes_are_numbers(ds.drop_last());
    }
}

/// A range ends above its start.
pub proof fn range_is_proper(ds: Seq<Scalar>)
    ensures
        range_of(ds).0.less(range_of(ds).1),
{
    lemma_rank_orders_values(Scalar { bits: 0 }, Scalar { bits: ONE_BITS });
}

/// A range holds every diameter where the diameters are finite and
/// not all equal.
pub proof fn range_holds_diameters(ds: Seq<Scalar>, i: int, j: int, k: int)
    requires
        0 <= i < ds.len(),
        0 <= j < ds.len(),
        0 <= k < ds.len(),
        forall|m: int| 0 <= m < ds.len() ==> (#[trigger] ds[m]).finite(),
        ds[i].less(ds[j]),
    ensures
        range_of(ds).0.at_most(ds[k]),
        ds[k].at_most(range_of(ds).1),
{
    lemma_extremes(ds, i);
    lemma_extremes(ds, j);
    lemma_extremes(ds, k);
    lemma_extremes_are_picked(ds);
}

proof fn lemma_extremes_are_picked(ds: Seq<Scalar>)
    requires
        forall|m: int| 0 <= m < ds.len() ==> (#[trigger] ds[m]).finite(),
    ensures
        ({
            let mn = least(Scalar { bits: INFINITY_BITS }, ds);
            mn.bits == INFINITY_BITS || mn.finite()
        }),
        ({
            let mx = greatest(Scalar { bits: 0xff80_0000 }, ds);
            mx.bits == 0xff80_0000 || mx.finite()
        }),
        ds.len() > 0 ==> least(Scalar { bits: INFINITY_BITS }, ds).finite(),
        ds.len() > 0 ==> greatest(Scalar { bits: 0xff80_0000 }, ds).finite(),
    decreases ds.len(),
{
    if ds.len() > 0 {
        let shorter = ds.drop_last();
        assert forall|m: int| 0 <= m < shorter.len() implies (#[trigger] shorter[m]).finite() by {
            assert(shorter[m] == ds[m]);
        }
        lemma_extremes_are_picked(shorter);
        assert(ds[ds.len() - 1].finite());
        let inf = Scalar { bits: INFINITY_BITS };
        let neg = Scalar { bits: 0xff80_0000 };
        lemma_rank_orders_values(ds.last(), inf);
        lemma_rank_orders_values(neg, ds.last());
    }
}

/// A diameter whose place among the bins of an axis is asked for.
#[derive(Clone, Copy, Debug)]
pub struct Slot {
    pub diameter: Scalar,
    pub min: Scalar,
    pub max: Scalar,
    pub n_bins: usize,
}

/// The diameter is neither below nor above the axis.
pub open spec fn on_axis(min: Scalar, max: Scalar, d: Scalar) -> bool {
    !d.less(min) && !max.less(d)
}

/// The bin of a diameter: the one that `slot` names, or the last.
pub open spec fn bin_of<F: Fn(Slot) -> usize>(slot: F, min: Scalar, max: Scalar, n_bins: usize, d: Scalar) -> int {
    let named = result_of(slot, Slot { diameter: d, min, max, n_bins });
    if named < n_bins {
        named as int
    } else {
        n_bins - 1
    }
}

/// How many of the diameters on the axis fall into bin `k`.
pub open spec fn tally<F: Fn(Slot) -> usize>(
    slot: F,
    min: Scalar,
    max: Scalar,
    n_bins: usize,
    ds: Seq<Scalar>,
    k: int,
) -> nat
    decreases ds.len(),
{
    if ds.len() == 0 {
        0
    } else {
        tally(slot, min, max, n_bins, ds.drop_last(), k) + if on_axis(min, max, ds.last()) && bin_of(
            slot,
            min,
            max,
            n_bins,
            ds.last(),
        ) == k {
            1nat
        } else {
            0nat
        }
    }
}

/// The counts of all bins; an axis that does not go up counts nothing.
pub open spec fn bins_of<F: Fn(Slot) -> usize>(
    slot: F,
    min: Scalar,
    max: Scalar,
    n_bins: usize,
    ds: Seq<Scalar>,
) -> Seq<u32> {
    Seq::new(
        n_bins as nat,
        |k: int|
            if max.at_most(min) {
                0u32
            } else {
                tally(slot, min, max, n_bins, ds, k) as u32
            },
    )
}

/// `slot` was asked about every diameter on the axis.
pub open spec fn slots_asked<F: Fn(Slot) -> usize>(
    slot: F,
    min: Scalar,
    max: Scalar,
    n_bins: usize,
    ds: Seq<Scalar>,
) -> bool {
    !max.at_most(min) && n_bins > 0 ==> forall|i: int|
        0 <= i < ds.len() && on_axis(min, max, #[trigger] ds[i]) ==> answered(
            slot,
            Slot { diameter: ds[i], min, max, n_bins },
        )
}

proof fn lemma_tally_bound<F: Fn(Slot) -> usize>(
    slot: F,
    min: Scalar,
    max: Scalar,
    n_bins: usize,
    ds: Seq<Scalar>,
    k: int,
)
    ensures
        tally(slot, min, max, n_bins, ds, k) <= ds.len(),
    decreases ds.len(),
{
    if ds.len() > 0 {
        lemma_tally_bound(slot, min, max, n_bins, ds.drop_last(), k);
    }
}

/// Counts the diameters into `n_bins` bins from `min` to `max`. `slot` names the bin of
/// a diameter; what lies off the axis is not counted.
pub fn bin_counts<F: Fn(Slot) -> usize>(
    diams: &Vec<Scalar>,
    min: Scalar,
    max: Scalar,
    n_bins: usize,
    slot: &F,
) -> (counts: Vec<u32>)
    requires
        computes(*slot),
        diams@.len() <= u32::MAX,
    ensures
        counts@ == bins_of(*slot, min, max, n_bins, diams@),
        slots_asked(*slot, min, max, n_bins, diams@),
        counts@.len() == n_bins,
        forall|k: int|
            #![trigger counts@[k]]
            0 <= k < n_bins && max.at_most(min) ==> counts@[k] == 0,
        n_bins > 0 && !max.at_most(min) ==> counts@[n_bins - 1] == diams@.filter(
            |d: Scalar|
                !d.less(min) && !max.less(d) && result_of(*slot, Slot { diameter: d, min, max, n_bins }) >= n_bins - 1,
        ).len(),
{
    let mut counts: Vec<u32> = Vec::new();
    let mut z: usize = 0;
    while z < n_bins
        invariant
            z <= n_bins,
            counts@.len() == z,
            forall|k: int| 0 <= k < z ==> (#[trigger] counts@[k]) == 0,
        decreases n_bins - z,
    {
        counts.push(0);
        z += 1;
    }
    if max.le(min) || n_bins == 0 {
        assert(counts@ =~= bins_of(*slot, min, max, n_bins, diams@));
        return counts;
    }
    let n: usize = diams.len();
    let mut i: usize = 0;
    while i < n
        invariant
            i <= n,
            n == diams@.len(),
            n <= u32::MAX,
            n_bins > 0,
            counts@.len() == n_bins,
            computes(*slot),
            !max.at_most(min),
            forall|k: int|
                0 <= k < n_bins ==> (#[trigger] counts@[k]) == tally(*slot, min, max, n_bins, diams@.take(i as int), k),
            forall|j: int|
                0 <= j < i && on_axis(min, max, #[trigger] diams@[j]) ==> answered(
                    *slot,
                    Slot { diameter: diams@[j], min, max, n_bins },
                ),
        decreases n - i,
    {
        proof {
            lemma_take_step(diams@, i as int);
        }
        let d = diams[i];
        if d.lt(min) || max.lt(d) {
        } else {
            let named: usize = ask(slot, Slot { diameter: d, min, max, n_bins });
            let at: usize = if named < n_bins {
                named
            } else {
                n_bins - 1
            };
            proof {
                lemma_tally_bound(*slot, min, max, n_bins, diams@.take(i as int), at as int);
            }
            counts[at] = counts[at] + 1;
        }
        i += 1;
    }
    proof {
        assert(diams@.take(n as int) =~= diams@);
        assert forall|k: int| 0 <= k < n_bins implies counts@[k] == bins_of(*slot, min, max, n_bins, diams@)[k] by {
            lemma_tally_bound(*slot, min, max, n_bins, diams@, k);
        }
        assert(counts@ =~= bins_of(*slot, min, max, n_bins, diams@));
        bins_count_what_is_named(*slot, min, max, n_bins, diams@, n_bins - 1);
    }
    counts
}

/// The sum of the first `n` counts.
pub open spec fn sum_of(counts: Seq<u32>, n: int) -> int
    decreases n,
{
    if n <= 0 {
        0
    } else {
        sum_of(counts, n - 1) + counts[n - 1]
    }
}

/// How many of the diameters lie on the axis.
pub open spec fn on_axis_count(min: Scalar, max: Scalar, ds: Seq<Scalar>) -> nat
    decreases ds.len(),
{
    if ds.len() == 0 {
        0
    } else {
        on_axis_count(min, max, ds.drop_last()) + if on_axis(min, max, ds.last()) {
            1nat
        } else {
            0nat
        }
    }
}

proof fn lemma_sum_grows(a: Seq<u32>, b: Seq<u32>, at: int, n: int)
    requires
        0 <= n <= a.len(),
        a.len() == b.len(),
        0 <= at < a.len(),
        forall|k: int| 0 <= k < a.len() && k != at ==> (#[trigger] a[k]) == b[k],
        b[at] == a[at] + 1,
    ensures
        sum_of(b, n) == sum_of(a, n) + if at < n {
            1int
        } else {
            0int
        },
    decreases n,
{
    if n > 0 {
        lemma_sum_grows(a, b, at, n - 1);
    }
}

proof fn lemma_sum_of_zeros(a: Seq<u32>, n: int)
    requires
        0 <= n <= a.len(),
        forall|k: int| 0 <= k < a.len() ==> (#[trigger] a[k]) == 0,
    ensures
        sum_of(a, n) == 0,
    decreases n,
{
    if n > 0 {
        lemma_sum_of_zeros(a, n - 1);
    }
}

/// Every diameter on the axis is counted in just one bin: the counts add up to the
/// number of diameters on the axis.
pub proof fn bins_count_each_once<F: Fn(Slot) -> usize>(
    slot: F,
    min: Scalar,
    max: Scalar,
    n_bins: usize,
    ds: Seq<Scalar>,
)
    requires
        n_bins > 0,
        ds.len() <= u32::MAX,
        !max.at_most(min),
    ensures
        sum_of(bins_of(slot, min, max, n_bins, ds), n_bins as int) == on_axis_count(min, max, ds),
    decreases ds.len(),
{
    let all = bins_of(slot, min, max, n_bins, ds);
    if ds.len() == 0 {
        lemma_sum_of_zeros(all, n_bins as int);
    } else {
        let shorter = ds.drop_last();
        let less = bins_of(slot, min, max, n_bins, shorter);
        bins_count_each_once(slot, min, max, n_bins, shorter);
        assert forall|k: int| 0 <= k < n_bins implies (#[trigger] all[k]) == less[k] + (if on_axis(min, max, ds.last())
            && bin_of(slot, min, max, n_bins, ds.last()) == k {
            1int
        } else {
            0int
        }) by {
            lemma_tally_bound(slot, min, max, n_bins, ds, k);
            lemma_tally_bound(slot, min, max, n_bins, shorter, k);
        }
        if on_axis(min, max, ds.last()) {
            lemma_sum_grows(less, all, bin_of(slot, min, max, n_bins, ds.last()), n_bins as int);
        } else {
            assert(all =~= less);
        }
    }
}

/// A bin before the last counts the diameters on the axis for which `slot` names it, and the
/// last bin those for which it names the last or none. An axis that does not go up counts
/// nothing.
pub proof fn bins_count_what_is_named<F: Fn(Slot) -> usize>(
    slot: F,
    min: Scalar,
    max: Scalar,
    n_bins: usize,
    ds: Seq<Scalar>,
    k: int,
)
    requires
        0 <= k < n_bins,
        ds.len() <= u32::MAX,
    ensures
        bins_of(slot, min, max, n_bins, ds).len() == n_bins,
        !max.at_most(min) && k < n_bins - 1 ==> bins_of(slot, min, max, n_bins, ds)[k] == ds.filter(
            |d: Scalar|
                !d.less(min) && !max.less(d) && result_of(slot, Slot { diameter: d, min, max, n_bins }) == k,
        ).len(),
        !max.at_most(min) && k == n_bins - 1 ==> bins_of(slot, min, max, n_bins, ds)[k] == ds.filter(
            |d: Scalar|
                !d.less(min) && !max.less(d) && result_of(slot, Slot { diameter: d, min, max, n_bins }) >= n_bins - 1,
        ).len(),
        max.at_most(min) ==> bins_of(slot, min, max, n_bins, ds)[k] == 0,
    decreases ds.len(),
{
    reveal(Seq::filter);
    lemma_tally_bound(slot, min, max, n_bins, ds, k);
    if ds.len() > 0 {
        lemma_tally_bound(slot, min, max, n_bins, ds.drop_last(), k);
        bins_count_what_is_named(slot, min, max, n_bins, ds.drop_last(), k);
    }
}

/// A count with what it is to be multiplied and divided by.
#[derive(Clone, Copy, Debug, PartialEq, Eq, Structural)]
pub struct Scaled {
    pub count: u32,
    pub factor: u32,
    pub divisor: usize,
}

/// The height of a bar as a fraction: the count itself, its average over the images
/// (one, where there are none), or its share in a hundred of all (zero of none).
pub open spec fn scaled(c: u32, total: usize, n_frames: usize, mode: HistAxisMode) -> Scaled {
    match mode {
        HistAxisMode::Counts => Scaled { count: c, factor: 1, divisor: 1 },
        HistAxisMode::AvgPerImage => Scaled {
            count: c,
            factor: 1,
            divisor: if n_frames == 0 {
                1
            } else {
                n_frames
            },
        },
        HistAxisMode::Percent => if total > 0 {
            Scaled { count: c, factor: 100, divisor: total }
        } else {
            Scaled { count: 0, factor: 1, divisor: 1 }
        },
    }
}

/// Scales a count for the axis.
pub fn scaled_value(c: u32, total: usize, n_frames: usize, mode: HistAxisMode) -> (r: Scaled)
    ensures
        r == scaled(c, total, n_frames, mode),
        r.divisor > 0,
        mode == HistAxisMode::Counts ==> r.count * r.factor == c * r.divisor,
        mode == HistAxisMode::AvgPerImage && n_frames > 0 ==> (r.count * r.factor) * n_frames == c * r.divisor,
        mode == HistAxisMode::AvgPerImage && n_frames == 0 ==> r.count * r.factor == c * r.divisor,
        mode == HistAxisMode::Percent && total > 0 ==> (r.count * r.factor) * total == (100 * c) * r.divisor,
        mode == HistAxisMode::Percent && total == 0 ==> r.count * r.factor == 0,
{
    match mode {
        HistAxisMode::Counts => Scaled { count: c, factor: 1, divisor: 1 },
        HistAxisMode::AvgPerImage => {
            if n_frames == 0 {
                Scaled { count: c, factor: 1, divisor: 1 }
            } else {
                Scaled { count: c, factor: 1, divisor: n_frames }
            }
        },
        HistAxisMode::Percent => {
            if total > 0 {
                Scaled { count: c, factor: 100, divisor: total }
            } else {
                Scaled { count: 0, factor: 1, divisor: 1 }
            }
        },
    }
}

/// The largest of zero and the first `n` scaled counts.
pub open spec fn tallest<E: Fn(Scaled) -> Scalar>(
    evaluate: E,
    counts: Seq<u32>,
    total: usize,
    n_frames: usize,
    mode: HistAxisMode,
    n: int,
) -> Scalar
    decreases n,
{
    if n <= 0 {
        Scalar { bits: 0 }
    } else {
        let m = tallest(evaluate, counts, total, n_frames, mode, n - 1);
        let v = result_of(evaluate, scaled(counts[n - 1], total, n_frames, mode));
        if m.less(v) {
            v
        } else {
            m
        }
    }
}

/// The tallest bar of one sample.
pub open spec fn sample_tallest<F: Fn(Slot) -> usize, E: Fn(Scaled) -> Scalar>(
    sample: ResultsView,
    min: Scalar,
    max: Scalar,
    mode: HistAxisMode,
    slot: F,
    evaluate: E,
) -> Scalar {
    let ds = diameters_in(sample.frames);
    tallest(
        evaluate,
        bins_of(slot, min, max, EXPORT_BINS, ds),
        ds.len() as usize,
        sample.frames.len() as usize,
        mode,
        EXPORT_BINS as int,
    )
}

/// The tallest bar of all samples, or zero.
pub open spec fn all_tallest<F: Fn(Slot) -> usize, E: Fn(Scaled) -> Scalar>(
    samples: Seq<ResultsView>,
    min: Scalar,
    max: Scalar,
    mode: HistAxisMode,
    slot: F,
    evaluate: E,
) -> Scalar
    decreases samples.len(),
{
    if samples.len() == 0 {
        Scalar { bits: 0 }
    } else {
        let m = all_tallest(samples.drop_last(), min, max, mode, slot, evaluate);
        let v = sample_tallest(samples.last(), min, max, mode, slot, evaluate);
        if m.less(v) {
            v
        } else {
            m
        }
    }
}

/// The number of bins of an exported histogram.
pub const EXPORT_BINS: usize = 30;

/// The bits of the number one hundred.
pub const HUNDRED_BITS: u32 = 0x42c8_0000;

/// The upper end of the vertical axis: a hundred for shares, else the tallest bar, or
/// one where there is no bar.
pub open spec fn y_ceiling(mode: HistAxisMode, highest: Scalar) -> Scalar {
    if mode == HistAxisMode::Percent {
        Scalar { bits: HUNDRED_BITS }
    } else if (Scalar { bits: 0 }).less(highest) {
        highest
    } else {
        Scalar { bits: ONE_BITS }
    }
}

/// The closures were asked about every diameter and every bin of the sample.
pub open spec fn sample_asked<F: Fn(Slot) -> usize, E: Fn(Scaled) -> Scalar>(
    sample: ResultsView,
    min: Scalar,
    max: Scalar,
    mode: HistAxisMode,
    slot: F,
    evaluate: E,
) -> bool {
    let ds = diameters_in(sample.frames);
    let counts = bins_of(slot, min, max, EXPORT_BINS, ds);
    &&& slots_asked(slot, min, max, EXPORT_BINS, ds)
    &&& forall|k: int|
        0 <= k < EXPORT_BINS ==> answered(
            evaluate,
            scaled(#[trigger] counts[k], ds.len() as usize, sample.frames.len() as usize, mode),
        )
}

/// No sample has more accepted diameters than a bin can count.
pub open spec fn countable(samples: Seq<ResultsView>) -> bool {
    forall|i: int| 0 <= i < samples.len() ==> diameters_in((#[trigger] samples[i]).frames).len() <= u32::MAX
}

/// The upper end of the vertical axis that all samples share. `slot` names the bin of a
/// diameter, `evaluate` divides a scaled count out.
pub fn global_y_max<F: Fn(Slot) -> usize, E: Fn(Scaled) -> Scalar>(
    samples: &Vec<&AnalysisResults>,
    min: Scalar,
    max: Scalar,
    mode: HistAxisMode,
    slot: &F,
    evaluate: &E,
) -> (r: Scalar)
    requires
        computes(*slot),
        computes(*evaluate),
        countable(samples@.map_values(|s: &AnalysisResults| s@)),
    ensures
        r == y_ceiling(
            mode,
            all_tallest(samples@.map_values(|s: &AnalysisResults| s@), min, max, mode, *slot, *evaluate),
        ),
        mode != HistAxisMode::Percent ==> forall|i: int|
            0 <= i < samples@.len() ==> sample_asked((#[trigger] samples@[i])@, min, max, mode, *slot, *evaluate),
{
    match mode {
        HistAxisMode::Percent => {
            return Scalar::from_bits(HUNDRED_BITS);
        },
        _ => {},
    }
    let ghost views = samples@.map_values(|s: &AnalysisResults| s@);
    let zero = Scalar::from_bits(0);
    let mut y_max = zero;
    let n: usize = samples.len();
    let mut i: usize = 0;
    while i < n
        invariant
            i <= n,
            n == samples@.len(),
            computes(*slot),
            computes(*evaluate),
            countable(views),
            zero == (Scalar { bits: 0 }),
            views == samples@.map_values(|s: &AnalysisResults| s@),
            y_max == all_tallest(views.take(i as int), min, max, mode, *slot, *evaluate),
            forall|k: int|
                0 <= k < i ==> sample_asked((#[trigger] samples@[k])@, min, max, mode, *slot, *evaluate),
        decreases n - i,
    {
        let diams = samples[i].diameters_valid();
        proof {
            assert(views[i as int] == samples@[i as int]@);
            assert(diams@.len() <= u32::MAX);
            lemma_take_step(views, i as int);
        }
        let counts = bin_counts(&diams, min, max, EXPORT_BINS, slot);
        let total: usize = diams.len();
        let frames: usize = samples[i].frames.len();
        let mut v = zero;
        let mut k: usize = 0;
        while k < EXPORT_BINS
            invariant
                k <= EXPORT_BINS,
                counts@.len() == EXPORT_BINS,
                computes(*evaluate),
                v == tallest(*evaluate, counts@, total, frames, mode, k as int),
                forall|j: int|
                    0 <= j < k ==> answered(*evaluate, scaled(#[trigger] counts@[j], total, frames, mode)),
            decreases EXPORT_BINS - k,
        {
            let x = ask(evaluate, scaled_value(counts[k], total, frames, mode));
            if v.lt(x) {
                v = x;
            }
            k += 1;
        }
        if y_max.lt(v) {
            y_max = v;
        }
        i += 1;
    }
    assert(views.take(n as int) =~= views);
    if zero.lt(y_max) {
        y_max
    } else {
        Scalar::from_bits(ONE_BITS)
    }
}

/// The vertical axis ends above zero.
pub proof fn axis_ends_above_zero(mode: HistAxisMode, highest: Scalar)
    ensures
        (Scalar { bits: 0 }).less(y_ceiling(mode, highest)),
{
    let zero = Scalar { bits: 0 };
    lemma_rank_orders_values(zero, Scalar { bits: HUNDRED_BITS });
    lemma_rank_orders_values(zero, Scalar { bits: ONE_BITS });
}

proof fn lemma_tallest_bounds<E: Fn(Scaled) -> Scalar>(
    evaluate: E,
    counts: Seq<u32>,
    total: usize,
    n_frames: usize,
    mode: HistAxisMode,
    n: int,
    k: int,
)
    ensures
        !tallest(evaluate, counts, total, n_frames, mode, n).nan(),
        0 <= k < n && !result_of(evaluate, scaled(counts[k], total, n_frames, mode)).nan() ==> result_of(
            evaluate,
            scaled(counts[k], total, n_frames, mode),
        ).at_most(tallest(evaluate, counts, total, n_frames, mode, n)),
    decreases n,
{
    if n > 0 {
        lemma_tallest_bounds(evaluate, counts, total, n_frames, mode, n - 1, k);
    }
}

proof fn lemma_all_tallest_bounds<F: Fn(Slot) -> usize, E: Fn(Scaled) -> Scalar>(
    samples: Seq<ResultsView>,
    min: Scalar,
    max: Scalar,
    mode: HistAxisMode,
    slot: F,
    evaluate: E,
    i: int,
)
    ensures
        !all_tallest(samples, min, max, mode, slot, evaluate).nan(),
        0 <= i < samples.len() ==> sample_tallest(samples[i], min, max, mode, slot, evaluate).at_most(
            all_tallest(samples, min, max, mode, slot, evaluate),
        ),
    decreases samples.len(),
{
    if samples.len() > 0 {
        let shorter = samples.drop_last();
        lemma_all_tallest_bounds(shorter, min, max, mode, slot, evaluate, i);
        let ds = diameters_in(samples.last().frames);
        lemma_tallest_bounds(
            evaluate,
            bins_of(slot, min, max, EXPORT_BINS, ds),
            ds.len() as usize,
            samples.last().frames.len() as usize,
            mode,
            EXPORT_BINS as int,
            0,
        );
        if i < shorter.len() && i >= 0 {
            assert(shorter[i] == samples[i]);
        }
    }
}

/// On the shared axis no bar of any sample ends above the axis, unless the axis shows
/// shares, which end at a hundred.
pub proof fn no_bar_exceeds_axis<F: Fn(Slot) -> usize, E: Fn(Scaled) -> Scalar>(
    samples: Seq<ResultsView>,
    min: Scalar,
    max: Scalar,
    mode: HistAxisMode,
    slot: F,
    evaluate: E,
    i: int,
    k: int,
)
    requires
        0 <= i < samples.len(),
        0 <= k < EXPORT_BINS,
        mode != HistAxisMode::Percent,
        ({
            let ds = diameters_in(samples[i].frames);
            let c = bins_of(slot, min, max, EXPORT_BINS, ds)[k];
            !result_of(evaluate, scaled(c, ds.len() as usize, samples[i].frames.len() as usize, mode)).nan()
        }),
    ensures
        ({
            let ds = diameters_in(samples[i].frames);
            let c = bins_of(slot, min, max, EXPORT_BINS, ds)[k];
            result_of(evaluate, scaled(c, ds.len() as usize, samples[i].frames.len() as usize, mode)).at_most(
                y_ceiling(mode, all_tallest(samples, min, max, mode, slot, evaluate)),
            )
        }),
{
    let ds = diameters_in(samples[i].frames);
    let counts = bins_of(slot, min, max, EXPORT_BINS, ds);
    lemma_tallest_bounds(
        evaluate,
        counts,
        ds.len() as usize,
        samples[i].frames.len() as usize,
        mode,
        EXPORT_BINS as int,
        k,
    );
    lemma_all_tallest_bounds(samples, min, max, mode, slot, evaluate, i);
    lemma_rank_orders_values(Scalar { bits: 0 }, Scalar { bits: ONE_BITS });
}

/// A bar stands for its count, for its average over the images, or for its share in a hundred
/// of all: the fraction that it is scaled to has that value.
pub proof fn bars_have_the_value_of_their_mode(c: u32, total: usize, n_frames: usize, mode: HistAxisMode)
    ensures
        ({
            let r = scaled(c, total, n_frames, mode);
            &&& r.divisor > 0
            &&& mode == HistAxisMode::Counts ==> r.count * r.factor == c * r.divisor
            &&& mode == HistAxisMode::AvgPerImage && n_frames > 0 ==> (r.count * r.factor) * n_frames == c * r.divisor
            &&& mode == HistAxisMode::AvgPerImage && n_frames == 0 ==> r.count * r.factor == c * r.divisor
            &&& mode == HistAxisMode::Percent && total > 0 ==> (r.count * r.factor) * total == (100 * c) * r.divisor
            &&& mode == HistAxisMode::Percent && total == 0 ==> r.count * r.factor == 0
        }),
{
    let r = scaled(c, total, n_frames, mode);
    assert(r.count * r.factor == (if r.factor == 100 {
        100 * c
    } else {
        r.count as int
    })) by (nonlinear_arith)
        requires
            r.factor == 1 || (r.factor == 100 && r.count == c),
    ;
}

/// The diameters of all samples are those of the accepted bubbles of all their frames, in order.
pub proof fn all_diameters_are_accepted(samples: Seq<ResultsView>)
    ensures
        all_diameters(samples) == samples.map_values(
            |s: ResultsView|
                s.frames.map_values(|f: FrameView| f.bubbles).flatten().filter(|b: BubbleView| b.is_valid).map_values(
                    |b: BubbleView| b.diameter_um,
                ),
        ).flatten(),
    decreases samples.len(),
{
    let of_one = |s: ResultsView|
        s.frames.map_values(|f: FrameView| f.bubbles).flatten().filter(|b: BubbleView| b.is_valid).map_values(
            |b: BubbleView| b.diameter_um,
        );
    let lists = samples.map_values(of_one);
    if samples.len() == 0 {
        assert(all_diameters(samples) =~= lists.flatten());
    } else {
        all_diameters_are_accepted(samples.drop_last());
        totals_pick_by_marks(samples.last().frames);
        assert(lists.drop_last() =~= samples.drop_last().map_values(of_one));
        assert(lists.last() == of_one(samples.last()));
        lists.lemma_flatten_and_flatten_alt_are_equivalent();
        lists.drop_last().lemma_flatten_and_flatten_alt_are_equivalent();
    }
}

proof fn lemma_extremes_are_given(ds: Seq<Scalar>)
    ensures
        ({
            let mn = least(Scalar { bits: INFINITY_BITS }, ds);
            mn.bits == INFINITY_BITS || ds.contains(mn)
        }),
        ({
            let mx = greatest(Scalar { bits: 0xff80_0000 }, ds);
            mx.bits == 0xff80_0000 || ds.contains(mx)
        }),
    decreases ds.len(),
{
    if ds.len() > 0 {
        let shorter = ds.drop_last();
        lemma_extremes_are_given(shorter);
        assert(ds.contains(ds[ds.len() - 1]));
        assert forall|x: Scalar| shorter.contains(x) implies #[trigger] ds.contains(x) by {
            assert(ds[shorter.index_of(x)] == x);
        }
    }
}

/// A range is either from zero to one, or it starts at a diameter, ends at a diameter and holds
/// every diameter between, what is not a number aside. It is from zero to one just where no
/// diameter is smaller than another or where one is infinite.
pub proof fn range_is_spanned(ds: Seq<Scalar>)
    ensures
        ({
            let (lo, hi) = range_of(ds);
            let spread_out = exists|i: int, j: int|
                0 <= i < ds.len() && 0 <= j < ds.len() && (#[trigger] ds[i]).less(#[trigger] ds[j]);
            let infinite = exists|k: int| 0 <= k < ds.len() && !(#[trigger] ds[k]).nan() && !ds[k].finite();
            &&& spread_out && !infinite ==> ds.contains(lo) && ds.contains(hi) && forall|k: int|
                0 <= k < ds.len() && !(#[trigger] ds[k]).nan() ==> lo.at_most(ds[k]) && ds[k].at_most(hi)
            &&& !spread_out || infinite ==> lo.bits == 0 && hi.bits == ONE_BITS
        }),
{
    let inf = Scalar { bits: INFINITY_BITS };
    let neg = Scalar { bits: 0xff80_0000 };
    let mn = least(inf, ds);
    let mx = greatest(neg, ds);
    lemma_extremes_are_numbers(ds);
    lemma_extremes_are_given(ds);
    let spread_out = exists|i: int, j: int|
        0 <= i < ds.len() && 0 <= j < ds.len() && (#[trigger] ds[i]).less(#[trigger] ds[j]);
    let infinite = exists|k: int| 0 <= k < ds.len() && !(#[trigger] ds[k]).nan() && !ds[k].finite();
    assert forall|k: int| 0 <= k < ds.len() && !(#[trigger] ds[k]).nan() implies mn.at_most(ds[k]) && ds[k].at_most(mx) by {
        lemma_extremes(ds, k);
    }
    if infinite {
        let k = choose|k: int| 0 <= k < ds.len() && !(#[trigger] ds[k]).nan() && !ds[k].finite();
        assert(ds[k].bits == INFINITY_BITS || ds[k].bits == 0xff80_0000);
        lemma_rank_orders_values(mx, inf);
        lemma_rank_orders_values(neg, mn);
        lemma_rank_orders_values(mn, neg);
        lemma_rank_orders_values(inf, mx);
        assert(!mn.finite() || !mx.finite());
    } else if spread_out {
        let (i, j) = choose|i: int, j: int|
            0 <= i < ds.len() && 0 <= j < ds.len() && (#[trigger] ds[i]).less(#[trigger] ds[j]);
        assert(ds[i].finite() && ds[j].finite());
        lemma_rank_orders_values(ds[i], inf);
        lemma_rank_orders_values(inf, ds[i]);
        lemma_rank_orders_values(neg, ds[j]);
        lemma_rank_orders_values(ds[j], neg);
        assert(ds.contains(mn) && ds.contains(mx));
        assert(mn.finite() && mx.finite());
        assert(mn.less(mx));
    } else if mn.finite() && mx.finite() && mn.less(mx) {
        let i = ds.index_of(mn);
        let j = ds.index_of(mx);
        assert(ds[i].less(ds[j]));
    }
}

proof fn lemma_tallest_is_given<E: Fn(Scaled) -> Scalar>(
    evaluate: E,
    counts: Seq<u32>,
    total: usize,
    n_frames: usize,
    mode: HistAxisMode,
    n: int,
)
    ensures
        ({
            let v = tallest(evaluate, counts, total, n_frames, mode, n);
            v.bits == 0 || exists|k: int|
                0 <= k < n && result_of(evaluate, scaled(#[trigger] counts[k], total, n_frames, mode)) == v
        }),
    decreases n,
{
    if n > 0 {
        lemma_tallest_is_given(evaluate, counts, total, n_frames, mode, n - 1);
        let m = tallest(evaluate, counts, total, n_frames, mode, n - 1);
        let v = result_of(evaluate, scaled(counts[n - 1], total, n_frames, mode));
        if m.less(v) {
            assert(result_of(evaluate, scaled(counts[n - 1], total, n_frames, mode)) == v);
        } else if m.bits != 0 {
            let k = choose|k: int|
                0 <= k < n - 1 && result_of(evaluate, scaled(#[trigger] counts[k], total, n_frames, mode)) == m;
            assert(result_of(evaluate, scaled(counts[k], total, n_frames, mode)) == m);
        }
    }
}

/// `v` is the height of a bar of one of the samples.
pub open spec fn is_bar_of<F: Fn(Slot) -> usize, E: Fn(Scaled) -> Scalar>(
    sample: ResultsView,
    min: Scalar,
    max: Scalar,
    mode: HistAxisMode,
    slot: F,
    evaluate: E,
    v: Scalar,
) -> bool {
    let ds = diameters_in(sample.frames);
    let counts = bins_of(slot, min, max, EXPORT_BINS, ds);
    exists|k: int|
        0 <= k < EXPORT_BINS && result_of(
            evaluate,
            scaled(#[trigger] counts[k], ds.len() as usize, sample.frames.len() as usize, mode),
        ) == v
}

/// The shared axis ends at the top of a bar of some sample, unless it shows shares, which end
/// at a hundred, or there is no bar above zero, where it ends at one.
pub proof fn axis_ends_at_a_bar<F: Fn(Slot) -> usize, E: Fn(Scaled) -> Scalar>(
    samples: Seq<ResultsView>,
    min: Scalar,
    max: Scalar,
    mode: HistAxisMode,
    slot: F,
    evaluate: E,
)
    ensures
        ({
            let end = y_ceiling(mode, all_tallest(samples, min, max, mode, slot, evaluate));
            &&& mode == HistAxisMode::Percent ==> end.bits == HUNDRED_BITS
            &&& mode != HistAxisMode::Percent ==> end.bits == ONE_BITS || exists|i: int|
                0 <= i < samples.len() && is_bar_of(#[trigger] samples[i], min, max, mode, slot, evaluate, end)
        }),
    decreases samples.len(),
{
    if samples.len() > 0 {
        let shorter = samples.drop_last();
        axis_ends_at_a_bar(shorter, min, max, mode, slot, evaluate);
        let ds = diameters_in(samples.last().frames);
        lemma_tallest_is_given(
            evaluate,
            bins_of(slot, min, max, EXPORT_BINS, ds),
            ds.len() as usize,
            samples.last().frames.len() as usize,
            mode,
            EXPORT_BINS as int,
        );
        let end = y_ceiling(mode, all_tallest(samples, min, max, mode, slot, evaluate));
        let before = y_ceiling(mode, all_tallest(shorter, min, max, mode, slot, evaluate));
        let v = sample_tallest(samples.last(), min, max, mode, slot, evaluate);
        let m = all_tallest(shorter, min, max, mode, slot, evaluate);
        if mode != HistAxisMode::Percent && end.bits != ONE_BITS {
            if m.less(v) {
                assert(v.bits != 0);
                assert(is_bar_of(samples[samples.len() - 1], min, max, mode, slot, evaluate, end));
            } else {
                assert(end == before);
                let i = choose|i: int|
                    0 <= i < shorter.len() && is_bar_of(#[trigger] shorter[i], min, max, mode, slot, evaluate, end);
                assert(samples[i] == shorter[i]);
            }
        }
    }
}

/// The vertical axis ends at a hundred for shares, else at the highest bar where that is above
/// zero, and at one where none is.
pub proof fn axis_ends_at_the_highest(mode: HistAxisMode, highest: Scalar)
    ensures
        mode == HistAxisMode::Percent ==> y_ceiling(mode, highest).bits == 0x42c8_0000,
        mode != HistAxisMode::Percent && (Scalar { bits: 0 }).less(highest) ==> y_ceiling(mode, highest) == highest,
        mode != HistAxisMode::Percent && !(Scalar { bits: 0 }).less(highest) ==> y_ceiling(mode, highest).bits
            == 0x3f80_0000,
{
}

} // verus!
