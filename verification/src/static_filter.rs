//! Rejects detections that stay in one place over many frames.
use crate::calc::answered;
use crate::calc::ask;
use crate::calc::computes;
use crate::calc::result_of;
use crate::scalar::Scalar;
use crate::types::accepted_in;
use crate::types::all_counts_agree;
use crate::types::counts_agree;
use crate::types::counts_pick_by_marks;
use crate::types::lemma_take_step;
use crate::types::lemma_valid_count_bound;
use crate::types::static_count;
use crate::types::static_in;
use crate::types::valid_count;
use crate::types::AnalysisResults;
use crate::types::BubbleView;
use crate::types::FrameResult;
use crate::types::FrameView;
use crate::types::ResultsView;
use std::collections::HashSet;
use vstd::prelude::*;
use vstd::set_lib::lemma_len_subset;
use vstd::std_specs::hash::*;

verus! {

/// The settings of the filter.
#[derive(Clone, Copy, Debug)]
pub struct StaticFilterConfig {
    pub min_frame_frac: Scalar,
    pub tol_px: Scalar,
    pub diameter_tol_frac: Scalar,
}

impl StaticFilterConfig {
    /// Four tenths of the frames, six pixels, half the diameter.
    pub open spec fn initial() -> StaticFilterConfig {
        StaticFilterConfig {
            min_frame_frac: Scalar { bits: 0x3ecc_cccd },
            tol_px: Scalar { bits: 0x40c0_0000 },
            diameter_tol_frac: Scalar { bits: 0x3f00_0000 },
        }
    }
}

impl Default for StaticFilterConfig {
    fn default() -> (r: StaticFilterConfig)
        ensures
            r == StaticFilterConfig::initial(),
            r.min_frame_frac.bits == 0x3ecc_cccd,
            r.tol_px.bits == 0x40c0_0000,
            r.diameter_tol_frac.bits == 0x3f00_0000,
    {
        StaticFilterConfig {
            min_frame_frac: Scalar { bits: 0x3ecc_cccd },
            tol_px: Scalar { bits: 0x40c0_0000 },
            diameter_tol_frac: Scalar { bits: 0x3f00_0000 },
        }
    }
}

/// What the filter did.
pub struct FilterSummary {
    pub n_rejected: usize,
    pub n_clusters: usize,
}

/// The limits that a configuration sets for a given number of frames: how many frames
/// make a detection static, the square of the tolerated distance, and the tolerated
/// relative difference of diameters.
#[derive(Clone, Copy, Debug)]
pub struct StaticLimits {
    pub threshold: usize,
    pub tol_sq: Scalar,
    pub diameter_tol_frac: Scalar,
}

/// The place and the size of a detection.
#[derive(Clone, Copy, Debug)]
pub struct Spot {
    pub x: Scalar,
    pub y: Scalar,
    pub diameter: Scalar,
}

/// How two detections compare: the square of the distance between their centres, and
/// the difference of their diameters relative to that of the first.
#[derive(Clone, Copy, Debug)]
pub struct Closeness {
    pub distance_sq: Scalar,
    pub diameter_diff: Scalar,
}

/// A currently accepted detection, with where to find it.
#[derive(Clone, Copy, Debug)]
pub struct Item {
    pub frame: usize,
    pub bubble: usize,
    pub spot: Spot,
}

/// The place and the size of a bubble.
pub open spec fn spot_of(b: BubbleView) -> Spot {
    Spot { x: b.centroid_x, y: b.centroid_y, diameter: b.diameter_um }
}

/// The centres of `a` and `b` lie within the tolerance of each other.
pub open spec fn near<F: Fn((Spot, Spot)) -> Closeness>(compare: F, lim: StaticLimits, a: Spot, b: Spot) -> bool {
    result_of(compare, (a, b)).distance_sq.at_most(lim.tol_sq)
}

/// `b` counts as another sighting of `a`: it is near, and its diameter does not differ
/// too much where the filter looks at diameters.
pub open spec fn sighting<F: Fn((Spot, Spot)) -> Closeness>(compare: F, lim: StaticLimits, a: Spot, b: Spot) -> bool {
    let zero = Scalar { bits: 0 };
    &&& near(compare, lim, a, b)
    &&& !(zero.less(lim.diameter_tol_frac) && zero.less(a.diameter) && lim.diameter_tol_frac.less(
        result_of(compare, (a, b)).diameter_diff,
    ))
}

/// Some accepted detection of frame `g` is a sighting of `a`.
pub open spec fn seen_in<F: Fn((Spot, Spot)) -> Closeness>(
    compare: F,
    lim: StaticLimits,
    frames: Seq<FrameView>,
    a: Spot,
    g: int,
) -> bool {
    exists|c: int|
        0 <= c < frames[g].bubbles.len() && (#[trigger] frames[g].bubbles[c]).is_valid && sighting(
            compare,
            lim,
            a,
            spot_of(frames[g].bubbles[c]),
        )
}

/// The frames in which `a` is seen.
pub open spec fn frames_seen<F: Fn((Spot, Spot)) -> Closeness>(
    compare: F,
    lim: StaticLimits,
    frames: Seq<FrameView>,
    a: Spot,
) -> Set<usize> {
    Set::new(|g: usize| g < frames.len() && seen_in(compare, lim, frames, a, g as int))
}

/// The detection at frame `f`, bubble `b` is accepted and is seen in enough frames.
pub open spec fn persistent<F: Fn((Spot, Spot)) -> Closeness>(
    compare: F,
    lim: StaticLimits,
    frames: Seq<FrameView>,
    f: int,
    b: int,
) -> bool {
    &&& frames[f].bubbles[b].is_valid
    &&& frames_seen(compare, lim, frames, spot_of(frames[f].bubbles[b])).len() >= lim.threshold
}

/// The accepted detections of frame `f`.
pub open spec fn frame_items(bubbles: Seq<BubbleView>, f: int) -> Seq<Item>
    decreases bubbles.len(),
{
    if bubbles.len() == 0 {
        Seq::empty()
    } else if bubbles.last().is_valid {
        frame_items(bubbles.drop_last(), f).push(
            Item { frame: f as usize, bubble: (bubbles.len() - 1) as usize, spot: spot_of(bubbles.last()) },
        )
    } else {
        frame_items(bubbles.drop_last(), f)
    }
}

/// The accepted detections, frame by frame.
pub open spec fn items_of(frames: Seq<FrameView>) -> Seq<Item>
    decreases frames.len(),
{
    if frames.len() == 0 {
        Seq::empty()
    } else {
        items_of(frames.drop_last()) + frame_items(frames.last().bubbles, frames.len() - 1)
    }
}

/// Of the first `n` bubbles of frame `f`, how many accepted ones `pick` selects.
pub open spec fn picked(bubbles: Seq<BubbleView>, f: int, n: int, pick: spec_fn(int, int) -> bool) -> nat
    decreases n,
{
    if n <= 0 {
        0
    } else {
        picked(bubbles, f, n - 1, pick) + if bubbles[n - 1].is_valid && pick(f, n - 1) {
            1nat
        } else {
            0nat
        }
    }
}

/// How many accepted bubbles of the first `n` frames `pick` selects.
pub open spec fn picked_in(frames: Seq<FrameView>, n: int, pick: spec_fn(int, int) -> bool) -> nat
    decreases n,
{
    if n <= 0 {
        0
    } else {
        picked_in(frames, n - 1, pick) + picked(
            frames[n - 1].bubbles,
            n - 1,
            frames[n - 1].bubbles.len() as int,
            pick,
        )
    }
}

/// A bubble turned from accepted to static.
pub open spec fn made_static(b: BubbleView) -> BubbleView {
    BubbleView { is_valid: false, is_static: true, ..b }
}

/// Frame `f` with the accepted bubbles that `pick` selects made static, and counted so.
pub open spec fn frame_filtered(frame: FrameView, f: int, pick: spec_fn(int, int) -> bool) -> FrameView {
    let k = picked(frame.bubbles, f, frame.bubbles.len() as int, pick);
    FrameView {
        image_path: frame.image_path,
        num_valid: if frame.num_valid >= k {
            (frame.num_valid - k) as usize
        } else {
            0
        },
        num_rejected: (frame.num_rejected + k) as usize,
        bubbles: Seq::new(
            frame.bubbles.len(),
            |b: int|
                if frame.bubbles[b].is_valid && pick(f, b) {
                    made_static(frame.bubbles[b])
                } else {
                    frame.bubbles[b]
                },
        ),
    }
}

/// The frames with the accepted bubbles that `pick` selects made static.
pub open spec fn filtered(frames: Seq<FrameView>, pick: spec_fn(int, int) -> bool) -> Seq<FrameView> {
    Seq::new(frames.len(), |f: int| frame_filtered(frames[f], f, pick))
}

/// Which of the accepted detections are persistent.
pub open spec fn hits<F: Fn((Spot, Spot)) -> Closeness>(
    compare: F,
    lim: StaticLimits,
    frames: Seq<FrameView>,
) -> Seq<bool> {
    let items = items_of(frames);
    Seq::new(
        items.len(),
        |k: int| persistent(compare, lim, frames, items[k].frame as int, items[k].bubble as int),
    )
}

/// The items among the first `n` that start a cluster: those that are hit while no
/// earlier start of a cluster is near them.
pub open spec fn starts<F: Fn((Spot, Spot)) -> Closeness>(
    compare: F,
    lim: StaticLimits,
    items: Seq<Item>,
    hit: Seq<bool>,
    n: int,
) -> Seq<int>
    decreases n,
{
    if n <= 0 {
        Seq::empty()
    } else {
        let before = starts(compare, lim, items, hit, n - 1);
        if hit[n - 1] && !covered(compare, lim, items, before, n - 1) {
            before.push(n - 1)
        } else {
            before
        }
    }
}

/// One of the cluster starts is near item `i`.
pub open spec fn covered<F: Fn((Spot, Spot)) -> Closeness>(
    compare: F,
    lim: StaticLimits,
    items: Seq<Item>,
    cluster_starts: Seq<int>,
    i: int,
) -> bool {
    exists|t: int|
        0 <= t < cluster_starts.len() && near(compare, lim, items[#[trigger] cluster_starts[t]].spot, items[i].spot)
}

/// The order in which the accepted detections are taken.
pub open spec fn earlier(a: Item, b: Item) -> bool {
    a.frame < b.frame || (a.frame == b.frame && a.bubble < b.bubble)
}

/// `item` is the accepted detection that it says it is.
pub open spec fn stands_for(frames: Seq<FrameView>, item: Item) -> bool {
    &&& item.frame < frames.len()
    &&& item.bubble < frames[item.frame as int].bubbles.len()
    &&& frames[item.frame as int].bubbles[item.bubble as int].is_valid
    &&& item.spot == spot_of(frames[item.frame as int].bubbles[item.bubble as int])
}

/// Some item stands for the bubble at `f`, `b`.
pub open spec fn listed(items: Seq<Item>, f: int, b: int) -> bool {
    exists|k: int| 0 <= k < items.len() && (#[trigger] items[k]).frame == f && items[k].bubble == b
}

/// The frames can be indexed by machine integers.
pub open spec fn indexable(frames: Seq<FrameView>) -> bool {
    &&& frames.len() <= usize::MAX
    &&& forall|f: int| 0 <= f < frames.len() ==> (#[trigger] frames[f]).bubbles.len() <= usize::MAX
}

proof fn lemma_frame_items(bubbles: Seq<BubbleView>, f: int)
    requires
        0 <= f <= usize::MAX,
        bubbles.len() <= usize::MAX,
    ensures
        forall|k: int|
            0 <= k < frame_items(bubbles, f).len() ==> {
                let item = #[trigger] frame_items(bubbles, f)[k];
                item.frame == f && item.bubble < bubbles.len() && bubbles[item.bubble as int].is_valid && item.spot
                    == spot_of(bubbles[item.bubble as int])
            },
        forall|i: int, j: int|
            0 <= i < j < frame_items(bubbles, f).len() ==> (#[trigger] frame_items(bubbles, f)[i]).bubble < (
            #[trigger] frame_items(bubbles, f)[j]).bubble,
        forall|b: int|
            0 <= b < bubbles.len() && (#[trigger] bubbles[b]).is_valid ==> listed(frame_items(bubbles, f), f, b),
    decreases bubbles.len(),
{
    if bubbles.len() > 0 {
        let shorter = bubbles.drop_last();
        lemma_frame_items(shorter, f);
        let inner = frame_items(shorter, f);
        let all = frame_items(bubbles, f);
        assert forall|b: int| 0 <= b < bubbles.len() && (#[trigger] bubbles[b]).is_valid implies listed(all, f, b) by {
            if b < shorter.len() {
                assert(shorter[b] == bubbles[b]);
                let k = choose|k: int| 0 <= k < inner.len() && (#[trigger] inner[k]).frame == f && inner[k].bubble == b;
                assert(all[k] == inner[k]);
            } else {
                assert(all[inner.len() as int].bubble == b);
            }
        }
    }
}

proof fn lemma_items(frames: Seq<FrameView>)
    requires
        indexable(frames),
    ensures
        forall|k: int| 0 <= k < items_of(frames).len() ==> stands_for(frames, #[trigger] items_of(frames)[k]),
        forall|i: int, j: int|
            0 <= i < j < items_of(frames).len() ==> earlier(
                #[trigger] items_of(frames)[i],
                #[trigger] items_of(frames)[j],
            ),
        forall|f: int, b: int|
            0 <= f < frames.len() && 0 <= b < frames[f].bubbles.len() && (#[trigger] frames[f].bubbles[b]).is_valid
                ==> listed(items_of(frames), f, b),
    decreases frames.len(),
{
    if frames.len() > 0 {
        let shorter = frames.drop_last();
        let n = frames.len() - 1;
        assert forall|f: int| 0 <= f < shorter.len() implies (#[trigger] shorter[f]).bubbles.len() <= usize::MAX by {
            assert(shorter[f] == frames[f]);
        }
        lemma_items(shorter);
        lemma_frame_items(frames.last().bubbles, n);
        let inner = items_of(shorter);
        let tail = frame_items(frames.last().bubbles, n);
        let all = items_of(frames);
        assert(all == inner + tail);
        assert forall|k: int| 0 <= k < all.len() implies stands_for(frames, #[trigger] all[k]) by {
            if k < inner.len() {
                assert(all[k] == inner[k]);
                assert(stands_for(shorter, inner[k]));
            } else {
                assert(all[k] == tail[k - inner.len()]);
            }
        }
        assert forall|i: int, j: int| 0 <= i < j < all.len() implies earlier(#[trigger] all[i], #[trigger] all[j]) by {
            if j < inner.len() {
                assert(all[i] == inner[i] && all[j] == inner[j]);
            } else if i < inner.len() {
                assert(stands_for(shorter, inner[i]));
                assert(all[i] == inner[i] && all[j] == tail[j - inner.len()]);
            } else {
                assert(all[i] == tail[i - inner.len()] && all[j] == tail[j - inner.len()]);
            }
        }
        assert forall|f: int, b: int|
            0 <= f < frames.len() && 0 <= b < frames[f].bubbles.len() && (
            #[trigger] frames[f].bubbles[b]).is_valid implies listed(all, f, b) by {
            if f < n {
                assert(shorter[f] == frames[f]);
                assert(shorter[f].bubbles[b].is_valid);
                let k = choose|k: int| 0 <= k < inner.len() && (#[trigger] inner[k]).frame == f && inner[k].bubble == b;
                assert(all[k] == inner[k]);
            } else {
                assert(frames.last().bubbles[b].is_valid);
                let k = choose|k: int| 0 <= k < tail.len() && (#[trigger] tail[k]).frame == f && tail[k].bubble == b;
                assert(all[inner.len() + k] == tail[k]);
            }
        }
    }
}

proof fn lemma_picked_congruent(
    bubbles: Seq<BubbleView>,
    f: int,
    n: int,
    p: spec_fn(int, int) -> bool,
    q: spec_fn(int, int) -> bool,
)
    requires
        0 <= n <= bubbles.len(),
        forall|b: int| 0 <= b < n && (#[trigger] bubbles[b]).is_valid ==> p(f, b) == q(f, b),
    ensures
        picked(bubbles, f, n, p) == picked(bubbles, f, n, q),
    decreases n,
{
    if n > 0 {
        lemma_picked_congruent(bubbles, f, n - 1, p, q);
        assert(bubbles[n - 1].is_valid ==> p(f, n - 1) == q(f, n - 1));
    }
}

proof fn lemma_picked_step(
    bubbles: Seq<BubbleView>,
    f: int,
    n: int,
    at: int,
    p: spec_fn(int, int) -> bool,
    q: spec_fn(int, int) -> bool,
)
    requires
        0 <= at < n <= bubbles.len(),
        bubbles[at].is_valid,
        !p(f, at),
        q(f, at),
        forall|b: int| 0 <= b < n && b != at && (#[trigger] bubbles[b]).is_valid ==> p(f, b) == q(f, b),
    ensures
        picked(bubbles, f, n, q) == picked(bubbles, f, n, p) + 1,
    decreases n,
{
    if at == n - 1 {
        lemma_picked_congruent(bubbles, f, n - 1, p, q);
    } else {
        lemma_picked_step(bubbles, f, n - 1, at, p, q);
        assert(bubbles[n - 1].is_valid ==> p(f, n - 1) == q(f, n - 1));
    }
}

proof fn lemma_picked_bound(bubbles: Seq<BubbleView>, f: int, n: int, p: spec_fn(int, int) -> bool)
    requires
        0 <= n <= bubbles.len(),
    ensures
        picked(bubbles, f, n, p) <= valid_count(bubbles.take(n)),
    decreases n,
{
    if n > 0 {
        lemma_picked_bound(bubbles, f, n - 1, p);
        lemma_take_step(bubbles, n - 1);
    }
}

proof fn lemma_picked_in_congruent(
    frames: Seq<FrameView>,
    n: int,
    p: spec_fn(int, int) -> bool,
    q: spec_fn(int, int) -> bool,
)
    requires
        0 <= n <= frames.len(),
        forall|f: int, b: int|
            0 <= f < n && 0 <= b < frames[f].bubbles.len() && (#[trigger] frames[f].bubbles[b]).is_valid ==> p(f, b)
                == q(f, b),
    ensures
        picked_in(frames, n, p) == picked_in(frames, n, q),
    decreases n,
{
    if n > 0 {
        lemma_picked_in_congruent(frames, n - 1, p, q);
        let last = frames[n - 1].bubbles;
        assert forall|b: int| 0 <= b < last.len() && (#[trigger] last[b]).is_valid implies p(n - 1, b) == q(n - 1, b) by {
            assert(frames[n - 1].bubbles[b].is_valid);
        }
        lemma_picked_congruent(last, n - 1, last.len() as int, p, q);
    }
}

proof fn lemma_picked_in_step(
    frames: Seq<FrameView>,
    n: int,
    at_f: int,
    at_b: int,
    p: spec_fn(int, int) -> bool,
    q: spec_fn(int, int) -> bool,
)
    requires
        0 <= at_f < n <= frames.len(),
        0 <= at_b < frames[at_f].bubbles.len(),
        frames[at_f].bubbles[at_b].is_valid,
        !p(at_f, at_b),
        q(at_f, at_b),
        forall|f: int, b: int|
            0 <= f < n && 0 <= b < frames[f].bubbles.len() && !(f == at_f && b == at_b) && (
            #[trigger] frames[f].bubbles[b]).is_valid ==> p(f, b) == q(f, b),
    ensures
        picked_in(frames, n, q) == picked_in(frames, n, p) + 1,
    decreases n,
{
    let last = frames[n - 1].bubbles;
    assert forall|b: int|
        0 <= b < last.len() && !(n - 1 == at_f && b == at_b) && (#[trigger] last[b]).is_valid implies p(n - 1, b) == q(
        n - 1,
        b,
    ) by {
        assert(frames[n - 1].bubbles[b].is_valid);
    }
    if at_f == n - 1 {
        lemma_picked_in_congruent(frames, n - 1, p, q);
        lemma_picked_step(last, n - 1, last.len() as int, at_b, p, q);
    } else {
        lemma_picked_in_step(frames, n - 1, at_f, at_b, p, q);
        lemma_picked_congruent(last, n - 1, last.len() as int, p, q);
    }
}

/// The frames of those among the first `n` items that are sightings of `a`.
spec fn seen_among<F: Fn((Spot, Spot)) -> Closeness>(
    compare: F,
    lim: StaticLimits,
    items: Seq<Item>,
    a: Spot,
    n: int,
) -> Set<usize>
    decreases n,
{
    if n <= 0 {
        Set::empty()
    } else if sighting(compare, lim, a, items[n - 1].spot) {
        seen_among(compare, lim, items, a, n - 1).insert(items[n - 1].frame)
    } else {
        seen_among(compare, lim, items, a, n - 1)
    }
}

proof fn lemma_seen_among<F: Fn((Spot, Spot)) -> Closeness>(
    compare: F,
    lim: StaticLimits,
    items: Seq<Item>,
    a: Spot,
    n: int,
    g: usize,
)
    requires
        0 <= n <= items.len(),
    ensures
        seen_among(compare, lim, items, a, n).contains(g) <==> exists|j: int|
            0 <= j < n && (#[trigger] items[j]).frame == g && sighting(compare, lim, a, items[j].spot),
    decreases n,
{
    if n > 0 {
        lemma_seen_among(compare, lim, items, a, n - 1, g);
        let smaller = seen_among(compare, lim, items, a, n - 1);
        if smaller.contains(g) {
            let j = choose|j: int|
                0 <= j < n - 1 && (#[trigger] items[j]).frame == g && sighting(compare, lim, a, items[j].spot);
            assert(0 <= j < n && items[j].frame == g);
        }
        if sighting(compare, lim, a, items[n - 1].spot) && items[n - 1].frame == g {
            assert(0 <= n - 1 < n && items[n - 1].frame == g);
        }
    }
}

proof fn lemma_seen_is_frames_seen<F: Fn((Spot, Spot)) -> Closeness>(
    compare: F,
    lim: StaticLimits,
    frames: Seq<FrameView>,
    a: Spot,
)
    requires
        indexable(frames),
    ensures
        seen_among(compare, lim, items_of(frames), a, items_of(frames).len() as int) == frames_seen(
            compare,
            lim,
            frames,
            a,
        ),
{
    let items = items_of(frames);
    lemma_items(frames);
    assert forall|g: usize| seen_among(compare, lim, items, a, items.len() as int).contains(g) == frames_seen(
        compare,
        lim,
        frames,
        a,
    ).contains(g) by {
        lemma_seen_among(compare, lim, items, a, items.len() as int, g);
        if seen_among(compare, lim, items, a, items.len() as int).contains(g) {
            let j = choose|j: int|
                0 <= j < items.len() && (#[trigger] items[j]).frame == g && sighting(compare, lim, a, items[j].spot);
            assert(stands_for(frames, items[j]));
            assert(frames[g as int].bubbles[items[j].bubble as int].is_valid);
        }
        if frames_seen(compare, lim, frames, a).contains(g) {
            let c = choose|c: int|
                0 <= c < frames[g as int].bubbles.len() && (#[trigger] frames[g as int].bubbles[c]).is_valid && sighting(
                    compare,
                    lim,
                    a,
                    spot_of(frames[g as int].bubbles[c]),
                );
            assert(listed(items, g as int, c));
            let k = choose|k: int| 0 <= k < items.len() && (#[trigger] items[k]).frame == g && items[k].bubble == c;
            assert(stands_for(frames, items[k]));
        }
    }
    assert(seen_among(compare, lim, items, a, items.len() as int) =~= frames_seen(compare, lim, frames, a));
}

/// Collects the accepted detections.
fn collect_items(results: &AnalysisResults) -> (items: Vec<Item>)
    ensures
        items@ == items_of(results@.frames),
{
    let mut items: Vec<Item> = Vec::new();
    let n: usize = results.frames.len();
    let mut f: usize = 0;
    while f < n
        invariant
            f <= n,
            n == results.frames@.len(),
            items@ == items_of(results@.frames.take(f as int)),
        decreases n - f,
    {
        let frame = &results.frames[f];
        let m: usize = frame.bubbles.len();
        let ghost before = items@;
        let mut b: usize = 0;
        while b < m
            invariant
                b <= m,
                m == frame.bubbles@.len(),
                items@ == before + frame_items(frame@.bubbles.take(b as int), f as int),
            decreases m - b,
        {
            proof {
                lemma_take_step(frame@.bubbles, b as int);
            }
            let bubble = &frame.bubbles[b];
            if bubble.is_valid {
                items.push(
                    Item {
                        frame: f,
                        bubble: b,
                        spot: Spot { x: bubble.centroid_x, y: bubble.centroid_y, diameter: bubble.diameter_um },
                    },
                );
            }
            b += 1;
        }
        proof {
            assert(frame@.bubbles.take(m as int) =~= frame@.bubbles);
            lemma_take_step(results@.frames, f as int);
        }
        f += 1;
    }
    assert(results@.frames.take(n as int) =~= results@.frames);
    items
}

/// Counts the frames in which `a` is seen.
fn count_frames_seen<F: Fn((Spot, Spot)) -> Closeness>(
    compare: &F,
    lim: &StaticLimits,
    items: &Vec<Item>,
    a: Spot,
) -> (r: usize)
    requires
        computes(*compare),
    ensures
        r == seen_among(*compare, *lim, items@, a, items@.len() as int).len(),
        forall|j: int| 0 <= j < items@.len() ==> answered(*compare, (a, (#[trigger] items@[j]).spot)),
{
    broadcast use group_hash_axioms;

    let mut seen: HashSet<usize> = HashSet::new();
    let n: usize = items.len();
    let zero = Scalar::from_bits(0);
    let mut j: usize = 0;
    while j < n
        invariant
            j <= n,
            n == items@.len(),
            zero == (Scalar { bits: 0 }),
            computes(*compare),
            seen@ == seen_among(*compare, *lim, items@, a, j as int),
            forall|i: int| 0 <= i < j ==> answered(*compare, (a, (#[trigger] items@[i]).spot)),
        decreases n - j,
    {
        let c = ask(compare, (a, items[j].spot));
        if c.distance_sq.le(lim.tol_sq) {
            if zero.lt(lim.diameter_tol_frac) && zero.lt(a.diameter) && lim.diameter_tol_frac.lt(c.diameter_diff) {
            } else {
                seen.insert(items[j].frame);
            }
        }
        j += 1;
    }
    seen.len()
}

/// Tells which accepted detections are seen in enough frames.
fn find_persistent<F: Fn((Spot, Spot)) -> Closeness>(
    compare: &F,
    lim: &StaticLimits,
    results: &AnalysisResults,
    items: &Vec<Item>,
) -> (rejected: Vec<bool>)
    requires
        computes(*compare),
        items@ == items_of(results@.frames),
        indexable(results@.frames),
    ensures
        rejected@ == hits(*compare, *lim, results@.frames),
        forall|i: int, j: int|
            0 <= i < items@.len() && 0 <= j < items@.len() ==> answered(
                *compare,
                ((#[trigger] items@[i]).spot, (#[trigger] items@[j]).spot),
            ),
{
    let mut rejected: Vec<bool> = Vec::new();
    let n: usize = items.len();
    proof {
        lemma_items(results@.frames);
    }
    let ghost frames = results@.frames;
    let mut i: usize = 0;
    while i < n
        invariant
            i <= n,
            n == items@.len(),
            computes(*compare),
            frames == results@.frames,
            items@ == items_of(frames),
            indexable(frames),
            forall|k: int| 0 <= k < items@.len() ==> stands_for(frames, #[trigger] items@[k]),
            rejected@ == hits(*compare, *lim, frames).take(i as int),
            forall|k: int, j: int|
                0 <= k < i && 0 <= j < items@.len() ==> answered(
                    *compare,
                    ((#[trigger] items@[k]).spot, (#[trigger] items@[j]).spot),
                ),
        decreases n - i,
    {
        let seen: usize = count_frames_seen(compare, lim, items, items[i].spot);
        proof {
            lemma_seen_is_frames_seen(*compare, *lim, frames, items@[i as int].spot);
            assert(stands_for(frames, items@[i as int]));
        }
        rejected.push(seen >= lim.threshold);
        proof {
            lemma_take_step(hits(*compare, *lim, frames), i as int);
            assert(rejected@ =~= hits(*compare, *lim, frames).take(i + 1));
        }
        i += 1;
    }
    assert(hits(*compare, *lim, frames).take(n as int) =~= hits(*compare, *lim, frames));
    rejected
}

/// Counts clusters: each rejected detection that no earlier cluster covers starts one.
fn count_clusters<F: Fn((Spot, Spot)) -> Closeness>(
    compare: &F,
    lim: &StaticLimits,
    items: &Vec<Item>,
    rejected: &Vec<bool>,
) -> (clusters: usize)
    requires
        computes(*compare),
        rejected@.len() == items@.len(),
    ensures
        clusters == starts(*compare, *lim, items@, rejected@, items@.len() as int).len(),
        clusters <= items@.len(),
{
    let n: usize = items.len();
    let mut seen: Vec<bool> = Vec::new();
    let mut s: usize = 0;
    while s < n
        invariant
            s <= n,
            seen@.len() == s,
            forall|j: int| 0 <= j < s ==> !(#[trigger] seen@[j]),
        decreases n - s,
    {
        seen.push(false);
        s += 1;
    }
    let mut clusters: usize = 0;
    let mut i: usize = 0;
    while i < n
        invariant
            i <= n,
            n == items@.len(),
            n == rejected@.len(),
            n == seen@.len(),
            clusters <= i,
            computes(*compare),
            clusters == starts(*compare, *lim, items@, rejected@, i as int).len(),
            forall|j: int|
                0 <= j < n ==> (#[trigger] seen@[j] <==> rejected@[j] && covered(
                    *compare,
                    *lim,
                    items@,
                    starts(*compare, *lim, items@, rejected@, i as int),
                    j,
                )),
        decreases n - i,
    {
        let ghost before = starts(*compare, *lim, items@, rejected@, i as int);
        let ghost after = starts(*compare, *lim, items@, rejected@, i + 1);
        if rejected[i] && !seen[i] {
            assert(after == before.push(i as int));
            let ghost seen_before = seen@;
            let mut j: usize = 0;
            while j < n
                invariant
                    j <= n,
                    i < n,
                    n == items@.len(),
                    n == rejected@.len(),
                    n == seen@.len(),
                    n == seen_before.len(),
                    computes(*compare),
                    forall|k: int|
                        j <= k < n ==> #[trigger] seen@[k] == seen_before[k],
                    forall|k: int|
                        0 <= k < j ==> #[trigger] seen@[k] == (seen_before[k] || (rejected@[k] && near(
                            *compare,
                            *lim,
                            items@[i as int].spot,
                            items@[k].spot,
                        ))),
                decreases n - j,
            {
                if rejected[j] {
                    let c = ask(compare, (items[i].spot, items[j].spot));
                    if c.distance_sq.le(lim.tol_sq) {
                        seen[j] = true;
                    }
                }
                j += 1;
            }
            assert forall|k: int| 0 <= k < n implies (#[trigger] seen@[k] <==> rejected@[k] && covered(
                *compare,
                *lim,
                items@,
                after,
                k,
            )) by {
                let known = seen_before[k];
                if covered(*compare, *lim, items@, before, k) {
                    let t = choose|t: int|
                        0 <= t < before.len() && near(*compare, *lim, items@[#[trigger] before[t]].spot, items@[k].spot);
                    assert(after[t] == before[t]);
                }
                if near(*compare, *lim, items@[i as int].spot, items@[k].spot) {
                    assert(after[before.len() as int] == i);
                }
                if covered(*compare, *lim, items@, after, k) {
                    let t = choose|t: int|
                        0 <= t < after.len() && near(*compare, *lim, items@[#[trigger] after[t]].spot, items@[k].spot);
                    if t < before.len() {
                        assert(before[t] == after[t]);
                    }
                }
            }
            clusters += 1;
        } else {
            assert(after == before);
        }
        i += 1;
    }
    clusters
}

/// The limits that a configuration sets for `n` frames: `limits` gives how many frames make a
/// detection static and the square of the tolerated distance.
pub open spec fn limits_of<L: Fn((StaticFilterConfig, usize)) -> (usize, Scalar)>(
    limits: L,
    cfg: StaticFilterConfig,
    n: int,
) -> StaticLimits {
    let (threshold, tol_sq) = result_of(limits, (cfg, n as usize));
    StaticLimits { threshold, tol_sq, diameter_tol_frac: cfg.diameter_tol_frac }
}

/// Rejects every accepted detection that is seen in as many frames as the configuration
/// asks for.
///
/// `limits` gives, for a configuration and a number of frames, how many frames make a
/// detection static and the square of the tolerated distance. `compare` gives the squared
/// distance and the relative difference of diameters of two detections. A rejected detection
/// becomes static and no longer valid, and its frame's counts follow. Clusters are counted
/// greedily over the rejected detections.
pub fn apply<L: Fn((StaticFilterConfig, usize)) -> (usize, Scalar), F: Fn((Spot, Spot)) -> Closeness>(
    results: &mut AnalysisResults,
    cfg: &StaticFilterConfig,
    limits: L,
    compare: F,
) -> (summary: FilterSummary)
    requires
        computes(limits),
        computes(compare),
        forall|f: int|
            0 <= f < old(results)@.frames.len() ==> (#[trigger] old(results)@.frames[f]).num_rejected + valid_count(
                old(results)@.frames[f].bubbles,
            ) <= usize::MAX,
    ensures
        ({
            let frames = old(results)@.frames;
            let lim = limits_of(limits, *cfg, frames.len() as int);
            let pick = |f: int, b: int| persistent(compare, lim, frames, f, b);
            let items = items_of(frames);
            &&& final(results)@ == (ResultsView { frames: filtered(frames, pick), ..old(results)@ })
            &&& summary.n_rejected == picked_in(frames, frames.len() as int, pick)
            &&& summary.n_clusters == starts(
                compare,
                lim,
                items,
                hits(compare, lim, frames),
                items.len() as int,
            ).len()
            &&& answered(limits, (*cfg, frames.len() as usize))
            &&& forall|i: int, j: int|
                0 <= i < items.len() && 0 <= j < items.len() ==> answered(
                    compare,
                    ((#[trigger] items[i]).spot, (#[trigger] items[j]).spot),
                )
            &&& forall|f: int, b: int, g: int, c: int|
                0 <= f < frames.len() && 0 <= b < frames[f].bubbles.len() && (#[trigger] frames[f].bubbles[b]).is_valid
                    && 0 <= g < frames.len() && 0 <= c < frames[g].bubbles.len() && (
                #[trigger] frames[g].bubbles[c]).is_valid ==> answered(
                    compare,
                    (
                        Spot {
                            x: frames[f].bubbles[b].centroid_x,
                            y: frames[f].bubbles[b].centroid_y,
                            diameter: frames[f].bubbles[b].diameter_um,
                        },
                        Spot {
                            x: frames[g].bubbles[c].centroid_x,
                            y: frames[g].bubbles[c].centroid_y,
                            diameter: frames[g].bubbles[c].diameter_um,
                        },
                    ),
                )
        }),
{
    let n: usize = results.frames.len();
    let ghost frames = results@.frames;
    proof {
        assert forall|f: int| 0 <= f < frames.len() implies (#[trigger] frames[f]).bubbles.len() <= usize::MAX by {
            assert(frames[f].bubbles.len() == results.frames@[f].bubbles.len());
        }
    }
    assert(results@.frames.len() == n);
    let (threshold, tol_sq) = ask(&limits, (*cfg, n));
    let lim = StaticLimits { threshold, tol_sq, diameter_tol_frac: cfg.diameter_tol_frac };
    let summary = reject_persistent(results, &lim, compare);
    proof {
        lemma_places_compared(compare, frames);
    }
    summary
}

/// Rejects every accepted detection that is seen in at least `lim.threshold` frames.
fn reject_persistent<F: Fn((Spot, Spot)) -> Closeness>(
    results: &mut AnalysisResults,
    lim: &StaticLimits,
    compare: F,
) -> (summary: FilterSummary)
    requires
        computes(compare),
        forall|f: int|
            0 <= f < old(results)@.frames.len() ==> (#[trigger] old(results)@.frames[f]).num_rejected + valid_count(
                old(results)@.frames[f].bubbles,
            ) <= usize::MAX,
    ensures
        final(results)@ == (ResultsView {
            frames: filtered(
                old(results)@.frames,
                |f: int, b: int| persistent(compare, *lim, old(results)@.frames, f, b),
            ),
            ..old(results)@
        }),
        summary.n_rejected == picked_in(
            old(results)@.frames,
            old(results)@.frames.len() as int,
            |f: int, b: int| persistent(compare, *lim, old(results)@.frames, f, b),
        ),
        summary.n_clusters == starts(
            compare,
            *lim,
            items_of(old(results)@.frames),
            hits(compare, *lim, old(results)@.frames),
            items_of(old(results)@.frames).len() as int,
        ).len(),
        forall|i: int, j: int|
            0 <= i < items_of(old(results)@.frames).len() && 0 <= j < items_of(old(results)@.frames).len() ==> answered(
                compare,
                (
                    (#[trigger] items_of(old(results)@.frames)[i]).spot,
                    (#[trigger] items_of(old(results)@.frames)[j]).spot,
                ),
            ),
{
    let ghost frames = results@.frames;
    proof {
        assert(frames.len() == results.frames.len());
        assert forall|f: int| 0 <= f < frames.len() implies (#[trigger] frames[f]).bubbles.len() <= usize::MAX by {
            assert(frames[f].bubbles.len() == results.frames@[f].bubbles.len());
        }
    }
    let items = collect_items(results);
    let rejected = find_persistent(&compare, lim, results, &items);
    let n_clusters: usize = count_clusters(&compare, lim, &items, &rejected);
    let n: usize = items.len();
    let mut n_rejected: usize = 0;
    let mut idx: usize = 0;
    let ghost marked = |upto: int|
        |f: int, b: int|
            exists|k: int|
                0 <= k < upto && (#[trigger] items@[k]).frame == f && items@[k].bubble == b && rejected@[k];
    proof {
        lemma_items(frames);
        assert(results@.frames =~= filtered(frames, marked(0))) by {
            lemma_nothing_filtered(frames, marked(0));
        }
        lemma_nothing_picked(frames, frames.len() as int, marked(0));
    }
    while idx < n
        invariant
            idx <= n,
            n == items@.len(),
            n == rejected@.len(),
            n_rejected <= idx,
            indexable(frames),
            items@ == items_of(frames),
            results@.frames == filtered(frames, marked(idx as int)),
            results.sample_name == old(results).sample_name,
            results.parameters == old(results).parameters,
            n_rejected == picked_in(frames, frames.len() as int, marked(idx as int)),
            forall|k: int| 0 <= k < items@.len() ==> stands_for(frames, #[trigger] items@[k]),
            forall|i: int, j: int| 0 <= i < j < items@.len() ==> earlier(#[trigger] items@[i], #[trigger] items@[j]),
            forall|f: int|
                0 <= f < frames.len() ==> (#[trigger] frames[f]).num_rejected + valid_count(frames[f].bubbles)
                    <= usize::MAX,
            marked == (|upto: int|
                |f: int, b: int|
                    exists|k: int|
                        0 <= k < upto && (#[trigger] items@[k]).frame == f && items@[k].bubble == b && rejected@[k]),
        decreases n - idx,
    {
        let ghost p = marked(idx as int);
        let ghost q = marked(idx + 1);
        let item = items[idx];
        let ghost fi = item.frame as int;
        let ghost bi = item.bubble as int;
        assert(stands_for(frames, items@[idx as int]));
        if rejected[idx] {
            proof {
                assert(!p(fi, bi)) by {
                    if p(fi, bi) {
                        let k = choose|k: int|
                            0 <= k < idx && (#[trigger] items@[k]).frame == fi && items@[k].bubble == bi && rejected@[k];
                        assert(earlier(items@[k], items@[idx as int]));
                    }
                }
                assert(q(fi, bi)) by {
                    assert(0 <= idx < idx + 1 && items@[idx as int].frame == fi);
                }
                lemma_marked_agrees(items@, rejected@, idx as int, p, q);
                lemma_picked_step(frames[fi].bubbles, fi, frames[fi].bubbles.len() as int, bi, p, q);
                lemma_picked_bound(frames[fi].bubbles, fi, frames[fi].bubbles.len() as int, q);
                assert(frames[fi].bubbles.take(frames[fi].bubbles.len() as int) =~= frames[fi].bubbles);
                lemma_picked_in_step(frames, frames.len() as int, fi, bi, p, q);
            }
            let ghost now = results@.frames;
            assert(now[fi] == frame_filtered(frames[fi], fi, p));
            assert(now.len() == frames.len());
            assert(now == results.frames@.map_values(|f: FrameResult| f@));
            assert(now[fi] == results.frames@[fi]@);
            assert(now[fi].bubbles.len() == results.frames@[fi].bubbles@.len());
            let frame = &mut results.frames[item.frame];
            let bubble = &mut frame.bubbles[item.bubble];
            bubble.is_valid = false;
            bubble.is_static = true;
            frame.num_valid = frame.num_valid.saturating_sub(1);
            frame.num_rejected += 1;
            n_rejected += 1;
            proof {
                assert(results@.frames[fi].bubbles =~= now[fi].bubbles.update(bi, made_static(now[fi].bubbles[bi])));
                lemma_filtered_step(frames, fi, bi, p, q, now, results@.frames);
            }
        } else {
            proof {
                assert forall|f: int, b: int| #[trigger] p(f, b) == q(f, b) by {
                    if q(f, b) {
                        let k = choose|k: int|
                            0 <= k < idx + 1 && (#[trigger] items@[k]).frame == f && items@[k].bubble == b && rejected@[k];
                        assert(0 <= k < idx && items@[k].frame == f);
                    }
                    if p(f, b) {
                        let k = choose|k: int|
                            0 <= k < idx && (#[trigger] items@[k]).frame == f && items@[k].bubble == b && rejected@[k];
                        assert(0 <= k < idx + 1 && items@[k].frame == f);
                    }
                }
                assert(p =~= q);
            }
        }
        idx += 1;
    }
    proof {
        let pick = |f: int, b: int| persistent(compare, *lim, frames, f, b);
        let m = marked(n as int);
        assert forall|f: int, b: int|
            0 <= f < frames.len() && 0 <= b < frames[f].bubbles.len() && (
            #[trigger] frames[f].bubbles[b]).is_valid implies m(f, b) == pick(f, b) by {
            assert(listed(items@, f, b));
            let k = choose|k: int| 0 <= k < items@.len() && (#[trigger] items@[k]).frame == f && items@[k].bubble == b;
            assert(rejected@[k] == pick(f, b));
            if m(f, b) {
                let l = choose|l: int|
                    0 <= l < n && (#[trigger] items@[l]).frame == f && items@[l].bubble == b && rejected@[l];
                if l < k {
                    assert(earlier(items@[l], items@[k]));
                } else if k < l {
                    assert(earlier(items@[k], items@[l]));
                }
            }
        }
        lemma_filtered_congruent(frames, m, pick);
        lemma_picked_in_congruent(frames, frames.len() as int, m, pick);
    }
    FilterSummary { n_rejected, n_clusters }
}

proof fn lemma_nothing_picked_in_frame(bubbles: Seq<BubbleView>, f: int, n: int, p: spec_fn(int, int) -> bool)
    requires
        0 <= n <= bubbles.len(),
        forall|b: int| !(#[trigger] p(f, b)),
    ensures
        picked(bubbles, f, n, p) == 0,
    decreases n,
{
    if n > 0 {
        lemma_nothing_picked_in_frame(bubbles, f, n - 1, p);
    }
}

proof fn lemma_nothing_picked(frames: Seq<FrameView>, n: int, p: spec_fn(int, int) -> bool)
    requires
        0 <= n <= frames.len(),
        forall|f: int, b: int| !(#[trigger] p(f, b)),
    ensures
        picked_in(frames, n, p) == 0,
    decreases n,
{
    if n > 0 {
        lemma_nothing_picked(frames, n - 1, p);
        lemma_nothing_picked_in_frame(frames[n - 1].bubbles, n - 1, frames[n - 1].bubbles.len() as int, p);
    }
}

proof fn lemma_nothing_filtered(frames: Seq<FrameView>, p: spec_fn(int, int) -> bool)
    requires
        forall|f: int, b: int| !(#[trigger] p(f, b)),
    ensures
        filtered(frames, p) == frames,
{
    assert forall|f: int| 0 <= f < frames.len() implies filtered(frames, p)[f] == frames[f] by {
        lemma_nothing_picked_in_frame(frames[f].bubbles, f, frames[f].bubbles.len() as int, p);
        assert(filtered(frames, p)[f].bubbles =~= frames[f].bubbles);
    }
    assert(filtered(frames, p) =~= frames);
}

proof fn lemma_filtered_congruent(
    frames: Seq<FrameView>,
    p: spec_fn(int, int) -> bool,
    q: spec_fn(int, int) -> bool,
)
    requires
        forall|f: int, b: int|
            0 <= f < frames.len() && 0 <= b < frames[f].bubbles.len() && (#[trigger] frames[f].bubbles[b]).is_valid
                ==> p(f, b) == q(f, b),
    ensures
        filtered(frames, p) == filtered(frames, q),
{
    assert forall|f: int| 0 <= f < frames.len() implies filtered(frames, p)[f] == filtered(frames, q)[f] by {
        let bubbles = frames[f].bubbles;
        assert forall|b: int| 0 <= b < bubbles.len() && (#[trigger] bubbles[b]).is_valid implies p(f, b) == q(f, b) by {
            assert(frames[f].bubbles[b].is_valid);
        }
        lemma_picked_congruent(bubbles, f, bubbles.len() as int, p, q);
        assert(filtered(frames, p)[f].bubbles =~= filtered(frames, q)[f].bubbles);
    }
    assert(filtered(frames, p) =~= filtered(frames, q));
}

/// One item more in what is marked changes nothing but that item.
proof fn lemma_marked_agrees(
    items: Seq<Item>,
    rejected: Seq<bool>,
    idx: int,
    p: spec_fn(int, int) -> bool,
    q: spec_fn(int, int) -> bool,
)
    requires
        0 <= idx < items.len(),
        forall|f: int, b: int| #[trigger]
            p(f, b) == exists|k: int|
                0 <= k < idx && (#[trigger] items[k]).frame == f && items[k].bubble == b && rejected[k],
        forall|f: int, b: int| #[trigger]
            q(f, b) == exists|k: int|
                0 <= k < idx + 1 && (#[trigger] items[k]).frame == f && items[k].bubble == b && rejected[k],
    ensures
        forall|f: int, b: int|
            !(f == items[idx].frame && b == items[idx].bubble) ==> #[trigger] p(f, b) == q(f, b),
{
    assert forall|f: int, b: int| !(f == items[idx].frame && b == items[idx].bubble) implies #[trigger] p(f, b) == q(
        f,
        b,
    ) by {
        if q(f, b) {
            let k = choose|k: int|
                0 <= k < idx + 1 && (#[trigger] items[k]).frame == f && items[k].bubble == b && rejected[k];
            assert(0 <= k < idx && items[k].frame == f);
        }
        if p(f, b) {
            let k = choose|k: int|
                0 <= k < idx && (#[trigger] items[k]).frame == f && items[k].bubble == b && rejected[k];
            assert(0 <= k < idx + 1 && items[k].frame == f);
        }
    }
}

/// Making one bubble static turns the frames filtered by `p` into those filtered by `q`.
proof fn lemma_filtered_step(
    frames: Seq<FrameView>,
    fi: int,
    bi: int,
    p: spec_fn(int, int) -> bool,
    q: spec_fn(int, int) -> bool,
    before: Seq<FrameView>,
    after: Seq<FrameView>,
)
    requires
        0 <= fi < frames.len(),
        0 <= bi < frames[fi].bubbles.len(),
        frames[fi].bubbles[bi].is_valid,
        !p(fi, bi),
        q(fi, bi),
        forall|f: int, b: int| !(f == fi && b == bi) ==> #[trigger] p(f, b) == q(f, b),
        picked(frames[fi].bubbles, fi, frames[fi].bubbles.len() as int, q) == picked(
            frames[fi].bubbles,
            fi,
            frames[fi].bubbles.len() as int,
            p,
        ) + 1,
        frames[fi].num_rejected + picked(frames[fi].bubbles, fi, frames[fi].bubbles.len() as int, q) <= usize::MAX,
        before == filtered(frames, p),
        after.len() == before.len(),
        forall|f: int| 0 <= f < frames.len() && f != fi ==> #[trigger] after[f] == before[f],
        after[fi].image_path == before[fi].image_path,
        after[fi].num_valid == (if before[fi].num_valid >= 1 {
            before[fi].num_valid - 1
        } else {
            0
        }),
        after[fi].num_rejected == before[fi].num_rejected + 1,
        after[fi].bubbles == before[fi].bubbles.update(bi, made_static(before[fi].bubbles[bi])),
    ensures
        after == filtered(frames, q),
{
    assert forall|f: int| 0 <= f < frames.len() implies after[f] == filtered(frames, q)[f] by {
        let bubbles = frames[f].bubbles;
        if f == fi {
            assert(after[f].bubbles =~= filtered(frames, q)[f].bubbles);
        } else {
            lemma_picked_congruent(bubbles, f, bubbles.len() as int, p, q);
            assert(filtered(frames, p)[f].bubbles =~= filtered(frames, q)[f].bubbles);
        }
    }
    assert(after =~= filtered(frames, q));
}

proof fn lemma_frame_filtered_counts(frame: FrameView, f: int, n: int, p: spec_fn(int, int) -> bool)
    requires
        0 <= n <= frame.bubbles.len(),
    ensures
        valid_count(frame_filtered(frame, f, p).bubbles.take(n)) + picked(frame.bubbles, f, n, p) == valid_count(
            frame.bubbles.take(n),
        ),
        (forall|b: int| 0 <= b < frame.bubbles.len() && (#[trigger] frame.bubbles[b]).is_valid ==> !frame.bubbles[b].is_static)
            ==> static_count(frame_filtered(frame, f, p).bubbles.take(n)) == static_count(frame.bubbles.take(n))
            + picked(frame.bubbles, f, n, p),
    decreases n,
{
    let after = frame_filtered(frame, f, p).bubbles;
    if n > 0 {
        lemma_frame_filtered_counts(frame, f, n - 1, p);
        lemma_take_step(frame.bubbles, n - 1);
        lemma_take_step(after, n - 1);
        assert(frame.bubbles[n - 1] == frame.bubbles.take(n).last());
    } else {
        assert(after.take(0) =~= Seq::empty());
        assert(frame.bubbles.take(0) =~= Seq::empty());
    }
}

/// No accepted bubble is static.
pub open spec fn accepted_not_static(frames: Seq<FrameView>) -> bool {
    forall|f: int, b: int|
        0 <= f < frames.len() && 0 <= b < frames[f].bubbles.len() && (#[trigger] frames[f].bubbles[b]).is_valid
            ==> !frames[f].bubbles[b].is_static
}

proof fn lemma_filtered_totals(frames: Seq<FrameView>, n: int, p: spec_fn(int, int) -> bool)
    requires
        0 <= n <= frames.len(),
    ensures
        accepted_in(filtered(frames, p).take(n)) + picked_in(frames, n, p) == accepted_in(frames.take(n)),
        accepted_not_static(frames) ==> static_in(filtered(frames, p).take(n)) == static_in(frames.take(n)) + picked_in(
            frames,
            n,
            p,
        ),
    decreases n,
{
    if n > 0 {
        lemma_filtered_totals(frames, n - 1, p);
        lemma_take_step(frames, n - 1);
        lemma_take_step(filtered(frames, p), n - 1);
        let frame = frames[n - 1];
        let m = frame.bubbles.len() as int;
        lemma_frame_filtered_counts(frame, n - 1, m, p);
        assert(frame.bubbles.take(m) =~= frame.bubbles);
        let after = frame_filtered(frame, n - 1, p).bubbles;
        assert(after.take(m) =~= after);
        if accepted_not_static(frames) {
            assert forall|b: int| 0 <= b < frame.bubbles.len() && (
            #[trigger] frame.bubbles[b]).is_valid implies !frame.bubbles[b].is_static by {
                assert(frames[n - 1].bubbles[b].is_valid);
            }
        }
    } else {
        assert(filtered(frames, p).take(0) =~= Seq::empty());
        assert(frames.take(0) =~= Seq::empty());
    }
}

/// What the filter rejects leaves the accepted bubbles, and no bubble is lost. Where no
/// accepted bubble was static, it joins the static ones, and none of those left is static.
pub proof fn filter_moves_rejected(frames: Seq<FrameView>, p: spec_fn(int, int) -> bool)
    ensures
        accepted_in(filtered(frames, p)) + picked_in(frames, frames.len() as int, p) == accepted_in(frames),
        accepted_not_static(frames) ==> static_in(filtered(frames, p)) == static_in(frames) + picked_in(
            frames,
            frames.len() as int,
            p,
        ),
        accepted_not_static(frames) ==> accepted_not_static(filtered(frames, p)),
        forall|f: int|
            0 <= f < frames.len() ==> (#[trigger] filtered(frames, p)[f]).bubbles.len() == frames[f].bubbles.len(),
{
    let n = frames.len() as int;
    lemma_filtered_totals(frames, n, p);
    assert(frames.take(n) =~= frames);
    assert(filtered(frames, p).take(n) =~= filtered(frames, p));
    let after = filtered(frames, p);
    if accepted_not_static(frames) {
        assert forall|f: int, b: int|
            0 <= f < after.len() && 0 <= b < after[f].bubbles.len() && (
            #[trigger] after[f].bubbles[b]).is_valid implies !after[f].bubbles[b].is_static by {
            assert(frames[f].bubbles[b].is_valid);
        }
    }
}

/// The filter keeps the counts of every frame those of its bubbles.
pub proof fn filter_keeps_counts(frames: Seq<FrameView>, p: spec_fn(int, int) -> bool)
    requires
        all_counts_agree(frames),
        indexable(frames),
    ensures
        all_counts_agree(filtered(frames, p)),
{
    assert forall|f: int| 0 <= f < frames.len() implies counts_agree(#[trigger] filtered(frames, p)[f]) by {
        let frame = frames[f];
        assert(counts_agree(frame));
        let m = frame.bubbles.len() as int;
        lemma_frame_filtered_counts(frame, f, m, p);
        assert(frame.bubbles.take(m) =~= frame.bubbles);
        let after = frame_filtered(frame, f, p).bubbles;
        assert(after.take(m) =~= after);
        lemma_valid_count_bound(frame.bubbles);
    }
}

/// The number of marks set among the first `n`.
pub open spec fn marks_set(hit: Seq<bool>, n: int) -> nat
    decreases n,
{
    if n <= 0 {
        0
    } else {
        marks_set(hit, n - 1) + if hit[n - 1] {
            1nat
        } else {
            0nat
        }
    }
}

proof fn lemma_starts_bound<F: Fn((Spot, Spot)) -> Closeness>(
    compare: F,
    lim: StaticLimits,
    items: Seq<Item>,
    hit: Seq<bool>,
    n: int,
)
    ensures
        starts(compare, lim, items, hit, n).len() <= marks_set(hit, n),
        marks_set(hit, n) > 0 ==> starts(compare, lim, items, hit, n).len() > 0,
    decreases n,
{
    if n > 0 {
        lemma_starts_bound(compare, lim, items, hit, n - 1);
    }
}

/// The items of a frame that `p` selects are the accepted bubbles that it selects.
proof fn lemma_frame_marks(bubbles: Seq<BubbleView>, f: int, p: spec_fn(int, int) -> bool, hit: Seq<bool>)
    requires
        0 <= f <= usize::MAX,
        bubbles.len() <= usize::MAX,
        hit.len() == frame_items(bubbles, f).len(),
        forall|k: int|
            0 <= k < hit.len() ==> (#[trigger] hit[k]) == p(
                frame_items(bubbles, f)[k].frame as int,
                frame_items(bubbles, f)[k].bubble as int,
            ),
    ensures
        marks_set(hit, hit.len() as int) == picked(bubbles, f, bubbles.len() as int, p),
    decreases bubbles.len(),
{
    if bubbles.len() > 0 {
        let shorter = bubbles.drop_last();
        let m = shorter.len() as int;
        let less = frame_items(shorter, f);
        let part = hit.take(less.len() as int);
        assert forall|k: int| 0 <= k < part.len() implies (#[trigger] part[k]) == p(
            less[k].frame as int,
            less[k].bubble as int,
        ) by {
            assert(part[k] == hit[k]);
            assert(frame_items(bubbles, f)[k] == less[k]);
        }
        lemma_frame_marks(shorter, f, p, part);
        lemma_marks_prefix(part, hit, part.len() as int);
        lemma_picked_prefix(shorter, bubbles, f, m, p);
        if bubbles.last().is_valid {
            assert(hit[less.len() as int] == p(f, m));
        }
    }
}

proof fn lemma_marks_prefix(a: Seq<bool>, b: Seq<bool>, n: int)
    requires
        0 <= n <= a.len() <= b.len(),
        a == b.take(a.len() as int),
    ensures
        marks_set(a, n) == marks_set(b, n),
    decreases n,
{
    if n > 0 {
        lemma_marks_prefix(a, b, n - 1);
        assert(a[n - 1] == b[n - 1]);
    }
}

proof fn lemma_picked_prefix(a: Seq<BubbleView>, b: Seq<BubbleView>, f: int, n: int, p: spec_fn(int, int) -> bool)
    requires
        0 <= n <= a.len() <= b.len(),
        a == b.take(a.len() as int),
    ensures
        picked(a, f, n, p) == picked(b, f, n, p),
    decreases n,
{
    if n > 0 {
        lemma_picked_prefix(a, b, f, n - 1, p);
        assert(a[n - 1] == b[n - 1]);
    }
}

proof fn lemma_marks_split(a: Seq<bool>, b: Seq<bool>, n: int)
    requires
        0 <= n <= b.len(),
    ensures
        marks_set(a + b, a.len() + n) == marks_set(a, a.len() as int) + marks_set(b, n),
    decreases n,
{
    if n > 0 {
        lemma_marks_split(a, b, n - 1);
        assert((a + b)[a.len() + n - 1] == b[n - 1]);
    } else {
        assert(a =~= (a + b).take(a.len() as int));
        lemma_marks_prefix(a, a + b, a.len() as int);
    }
}

proof fn lemma_all_marks(frames: Seq<FrameView>, p: spec_fn(int, int) -> bool, hit: Seq<bool>)
    requires
        indexable(frames),
        hit.len() == items_of(frames).len(),
        forall|k: int|
            0 <= k < hit.len() ==> (#[trigger] hit[k]) == p(
                items_of(frames)[k].frame as int,
                items_of(frames)[k].bubble as int,
            ),
    ensures
        marks_set(hit, hit.len() as int) == picked_in(frames, frames.len() as int, p),
    decreases frames.len(),
{
    if frames.len() > 0 {
        let shorter = frames.drop_last();
        let n = shorter.len() as int;
        assert forall|f: int| 0 <= f < shorter.len() implies (#[trigger] shorter[f]).bubbles.len() <= usize::MAX by {
            assert(shorter[f] == frames[f]);
        }
        assert(frames[n].bubbles.len() <= usize::MAX);
        let inner = items_of(shorter);
        let tail = frame_items(frames.last().bubbles, n);
        let part = hit.take(inner.len() as int);
        let rest = hit.skip(inner.len() as int);
        assert forall|k: int| 0 <= k < part.len() implies (#[trigger] part[k]) == p(
            inner[k].frame as int,
            inner[k].bubble as int,
        ) by {
            assert(part[k] == hit[k]);
            assert(items_of(frames)[k] == inner[k]);
        }
        assert forall|k: int| 0 <= k < rest.len() implies (#[trigger] rest[k]) == p(
            tail[k].frame as int,
            tail[k].bubble as int,
        ) by {
            assert(rest[k] == hit[inner.len() + k]);
            assert(items_of(frames)[inner.len() + k] == tail[k]);
        }
        lemma_all_marks(shorter, p, part);
        lemma_frame_marks(frames.last().bubbles, n, p, rest);
        assert(part + rest =~= hit);
        lemma_marks_split(part, rest, rest.len() as int);
        lemma_picked_in_prefix(shorter, frames, n, p);
    }
}

proof fn lemma_picked_in_prefix(a: Seq<FrameView>, b: Seq<FrameView>, n: int, p: spec_fn(int, int) -> bool)
    requires
        0 <= n <= a.len() <= b.len(),
        a == b.take(a.len() as int),
    ensures
        picked_in(a, n, p) == picked_in(b, n, p),
    decreases n,
{
    if n > 0 {
        lemma_picked_in_prefix(a, b, n - 1, p);
        assert(a[n - 1] == b[n - 1]);
    }
}

/// There are no more clusters than rejected detections, and there is one just where
/// something is rejected.
pub proof fn clusters_hold_rejected<F: Fn((Spot, Spot)) -> Closeness>(
    compare: F,
    lim: StaticLimits,
    frames: Seq<FrameView>,
)
    requires
        indexable(frames),
    ensures
        ({
            let pick = |f: int, b: int| persistent(compare, lim, frames, f, b);
            let rejected = picked_in(frames, frames.len() as int, pick);
            let items = items_of(frames);
            let clusters = starts(compare, lim, items, hits(compare, lim, frames), items.len() as int).len();
            clusters <= rejected && (rejected > 0 <==> clusters > 0)
        }),
{
    let pick = |f: int, b: int| persistent(compare, lim, frames, f, b);
    let items = items_of(frames);
    let hit = hits(compare, lim, frames);
    lemma_starts_bound(compare, lim, items, hit, items.len() as int);
    lemma_all_marks(frames, pick, hit);
}

proof fn lemma_starts_hit<F: Fn((Spot, Spot)) -> Closeness>(
    compare: F,
    lim: StaticLimits,
    items: Seq<Item>,
    hit: Seq<bool>,
    n: int,
)
    ensures
        forall|t: int|
            0 <= t < starts(compare, lim, items, hit, n).len() ==> 0 <= #[trigger] starts(compare, lim, items, hit, n)[t]
                < n && hit[starts(compare, lim, items, hit, n)[t]],
    decreases n,
{
    if n > 0 {
        lemma_starts_hit(compare, lim, items, hit, n - 1);
        let before = starts(compare, lim, items, hit, n - 1);
        let now = starts(compare, lim, items, hit, n);
        assert forall|t: int| 0 <= t < now.len() implies 0 <= #[trigger] now[t] < n && hit[now[t]] by {
            if t < before.len() {
                assert(now[t] == before[t]);
            }
        }
    }
}

proof fn lemma_one_start<F: Fn((Spot, Spot)) -> Closeness>(
    compare: F,
    lim: StaticLimits,
    items: Seq<Item>,
    hit: Seq<bool>,
    n: int,
)
    requires
        n <= hit.len() == items.len(),
        forall|i: int, j: int|
            0 <= i < j < items.len() && hit[i] && hit[j] ==> near(
                compare,
                lim,
                (#[trigger] items[i]).spot,
                (#[trigger] items[j]).spot,
            ),
    ensures
        starts(compare, lim, items, hit, n).len() == (if marks_set(hit, n) > 0 {
            1nat
        } else {
            0nat
        }),
    decreases n,
{
    if n > 0 {
        lemma_one_start(compare, lim, items, hit, n - 1);
        let before = starts(compare, lim, items, hit, n - 1);
        lemma_starts_hit(compare, lim, items, hit, n - 1);
        if hit[n - 1] && before.len() > 0 {
            assert(near(compare, lim, items[before[0]].spot, items[n - 1].spot));
        }
    }
}

proof fn lemma_all_start<F: Fn((Spot, Spot)) -> Closeness>(
    compare: F,
    lim: StaticLimits,
    items: Seq<Item>,
    hit: Seq<bool>,
    n: int,
)
    requires
        n <= hit.len() == items.len(),
        forall|i: int, j: int|
            0 <= i < j < items.len() && hit[i] && hit[j] ==> !near(
                compare,
                lim,
                (#[trigger] items[i]).spot,
                (#[trigger] items[j]).spot,
            ),
    ensures
        starts(compare, lim, items, hit, n).len() == marks_set(hit, n),
    decreases n,
{
    if n > 0 {
        lemma_all_start(compare, lim, items, hit, n - 1);
        let before = starts(compare, lim, items, hit, n - 1);
        lemma_starts_hit(compare, lim, items, hit, n - 1);
        if hit[n - 1] && covered(compare, lim, items, before, n - 1) {
            let t = choose|t: int|
                0 <= t < before.len() && near(compare, lim, items[#[trigger] before[t]].spot, items[n - 1].spot);
            assert(!near(compare, lim, items[before[t]].spot, items[n - 1].spot));
        }
    }
}

/// Rejected detections that all lie near each other make one cluster; where each lies away
/// from those before it, there are as many clusters as rejected detections.
pub proof fn clusters_follow_nearness<F: Fn((Spot, Spot)) -> Closeness>(
    compare: F,
    lim: StaticLimits,
    frames: Seq<FrameView>,
)
    requires
        indexable(frames),
    ensures
        ({
            let pick = |f: int, b: int| persistent(compare, lim, frames, f, b);
            let rejected = picked_in(frames, frames.len() as int, pick);
            let items = items_of(frames);
            let hit = hits(compare, lim, frames);
            let clusters = starts(compare, lim, items, hit, items.len() as int).len();
            &&& rejected > 0 && (forall|i: int, j: int|
                0 <= i < j < items.len() && hit[i] && hit[j] ==> near(
                    compare,
                    lim,
                    (#[trigger] items[i]).spot,
                    (#[trigger] items[j]).spot,
                )) ==> clusters == 1
            &&& (forall|i: int, j: int|
                0 <= i < j < items.len() && hit[i] && hit[j] ==> !near(
                    compare,
                    lim,
                    (#[trigger] items[i]).spot,
                    (#[trigger] items[j]).spot,
                )) ==> clusters == rejected
        }),
{
    let pick = |f: int, b: int| persistent(compare, lim, frames, f, b);
    let items = items_of(frames);
    let hit = hits(compare, lim, frames);
    lemma_all_marks(frames, pick, hit);
    if forall|i: int, j: int|
        0 <= i < j < items.len() && hit[i] && hit[j] ==> near(
            compare,
            lim,
            (#[trigger] items[i]).spot,
            (#[trigger] items[j]).spot,
        ) {
        lemma_one_start(compare, lim, items, hit, items.len() as int);
    }
    if forall|i: int, j: int|
        0 <= i < j < items.len() && hit[i] && hit[j] ==> !near(
            compare,
            lim,
            (#[trigger] items[i]).spot,
            (#[trigger] items[j]).spot,
        ) {
        lemma_all_start(compare, lim, items, hit, items.len() as int);
    }
}

proof fn lemma_seen_finite<F: Fn((Spot, Spot)) -> Closeness>(
    compare: F,
    lim: StaticLimits,
    items: Seq<Item>,
    a: Spot,
    n: int,
)
    ensures
        seen_among(compare, lim, items, a, n).finite(),
    decreases n,
{
    if n > 0 {
        lemma_seen_finite(compare, lim, items, a, n - 1);
    }
}

proof fn lemma_nothing_left<F: Fn((Spot, Spot)) -> Closeness>(
    compare: F,
    lim: StaticLimits,
    frames: Seq<FrameView>,
)
    requires
        indexable(frames),
    ensures
        ({
            let once = filtered(frames, |f: int, b: int| persistent(compare, lim, frames, f, b));
            let again = |f: int, b: int| persistent(compare, lim, once, f, b);
            &&& picked_in(once, once.len() as int, again) == 0
            &&& filtered(once, again) == once
        }),
{
    let pick = |f: int, b: int| persistent(compare, lim, frames, f, b);
    let once = filtered(frames, pick);
    let again = |f: int, b: int| persistent(compare, lim, once, f, b);
    let never = |f: int, b: int| false;
    assert forall|f: int, b: int|
        0 <= f < once.len() && 0 <= b < once[f].bubbles.len() && (
        #[trigger] once[f].bubbles[b]).is_valid implies again(f, b) == never(f, b) by {
        assert(frames[f].bubbles[b].is_valid);
        assert(!pick(f, b));
        let a = spot_of(frames[f].bubbles[b]);
        assert(spot_of(once[f].bubbles[b]) == a);
        let then = frames_seen(compare, lim, frames, a);
        let now = frames_seen(compare, lim, once, a);
        lemma_seen_is_frames_seen(compare, lim, frames, a);
        lemma_seen_finite(compare, lim, items_of(frames), a, items_of(frames).len() as int);
        assert forall|g: usize| now.contains(g) implies then.contains(g) by {
            let c = choose|c: int|
                0 <= c < once[g as int].bubbles.len() && (#[trigger] once[g as int].bubbles[c]).is_valid && sighting(
                    compare,
                    lim,
                    a,
                    spot_of(once[g as int].bubbles[c]),
                );
            assert(frames[g as int].bubbles[c].is_valid);
            assert(spot_of(frames[g as int].bubbles[c]) == spot_of(once[g as int].bubbles[c]));
        }
        assert(now.subset_of(then));
        lemma_len_subset(now, then);
    }
    lemma_picked_in_congruent(once, once.len() as int, again, never);
    lemma_filtered_congruent(once, again, never);
    lemma_nothing_picked(once, once.len() as int, never);
    lemma_nothing_filtered(once, never);
}

/// Filtering what was filtered with the same settings rejects nothing more: no detection, no
/// cluster, and the frames stay as they are. It can be done wherever the first time could.
pub proof fn filter_is_idempotent<
    L: Fn((StaticFilterConfig, usize)) -> (usize, Scalar),
    F: Fn((Spot, Spot)) -> Closeness,
>(limits: L, cfg: StaticFilterConfig, compare: F, frames: Seq<FrameView>)
    requires
        indexable(frames),
    ensures
        ({
            let lim = limits_of(limits, cfg, frames.len() as int);
            let once = filtered(frames, |f: int, b: int| persistent(compare, lim, frames, f, b));
            let lim_again = limits_of(limits, cfg, once.len() as int);
            let again = |f: int, b: int| persistent(compare, lim_again, once, f, b);
            let items = items_of(once);
            &&& picked_in(once, once.len() as int, again) == 0
            &&& starts(compare, lim_again, items, hits(compare, lim_again, once), items.len() as int).len() == 0
            &&& filtered(once, again) == once
            &&& forall|f: int|
                0 <= f < frames.len() && frames[f].num_rejected + valid_count(frames[f].bubbles) <= usize::MAX ==> (
                #[trigger] once[f]).num_rejected + valid_count(once[f].bubbles) <= usize::MAX
        }),
{
    let lim = limits_of(limits, cfg, frames.len() as int);
    let pick = |f: int, b: int| persistent(compare, lim, frames, f, b);
    let once = filtered(frames, pick);
    lemma_nothing_left(compare, lim, frames);
    assert forall|f: int| 0 <= f < once.len() implies (#[trigger] once[f]).bubbles.len() <= usize::MAX by {
        assert(frames[f].bubbles.len() <= usize::MAX);
    }
    clusters_hold_rejected(compare, lim, once);
    assert forall|f: int|
        0 <= f < frames.len() && frames[f].num_rejected + valid_count(frames[f].bubbles) <= usize::MAX implies (
    #[trigger] once[f]).num_rejected + valid_count(once[f].bubbles) <= usize::MAX by {
        let m = frames[f].bubbles.len() as int;
        lemma_frame_filtered_counts(frames[f], f, m, pick);
        assert(frames[f].bubbles.take(m) =~= frames[f].bubbles);
        assert(once[f].bubbles.take(m) =~= once[f].bubbles);
    }
}

proof fn lemma_threshold<F: Fn((Spot, Spot)) -> Closeness>(
    compare: F,
    low: StaticLimits,
    high: StaticLimits,
    frames: Seq<FrameView>,
    f: int,
    b: int,
)
    requires
        low.tol_sq == high.tol_sq,
        low.diameter_tol_frac == high.diameter_tol_frac,
        low.threshold <= high.threshold,
    ensures
        persistent(compare, high, frames, f, b) ==> persistent(compare, low, frames, f, b),
{
    let a = spot_of(frames[f].bubbles[b]);
    assert forall|g: usize| frames_seen(compare, high, frames, a).contains(g) == frames_seen(
        compare,
        low,
        frames,
        a,
    ).contains(g) by {
        if frames_seen(compare, high, frames, a).contains(g) {
            let c = choose|c: int|
                0 <= c < frames[g as int].bubbles.len() && (#[trigger] frames[g as int].bubbles[c]).is_valid && sighting(
                    compare,
                    high,
                    a,
                    spot_of(frames[g as int].bubbles[c]),
                );
            assert(sighting(compare, low, a, spot_of(frames[g as int].bubbles[c])));
        }
        if frames_seen(compare, low, frames, a).contains(g) {
            let c = choose|c: int|
                0 <= c < frames[g as int].bubbles.len() && (#[trigger] frames[g as int].bubbles[c]).is_valid && sighting(
                    compare,
                    low,
                    a,
                    spot_of(frames[g as int].bubbles[c]),
                );
            assert(sighting(compare, high, a, spot_of(frames[g as int].bubbles[c])));
        }
    }
    assert(frames_seen(compare, high, frames, a) =~= frames_seen(compare, low, frames, a));
}

proof fn lemma_picked_less(
    bubbles: Seq<BubbleView>,
    f: int,
    n: int,
    p: spec_fn(int, int) -> bool,
    q: spec_fn(int, int) -> bool,
)
    requires
        0 <= n <= bubbles.len(),
        forall|b: int| p(f, b) ==> #[trigger] q(f, b),
    ensures
        picked(bubbles, f, n, p) <= picked(bubbles, f, n, q),
    decreases n,
{
    if n > 0 {
        lemma_picked_less(bubbles, f, n - 1, p, q);
        assert(p(f, n - 1) ==> q(f, n - 1));
    }
}

proof fn lemma_picked_in_less(
    frames: Seq<FrameView>,
    n: int,
    p: spec_fn(int, int) -> bool,
    q: spec_fn(int, int) -> bool,
)
    requires
        0 <= n <= frames.len(),
        forall|f: int, b: int| p(f, b) ==> #[trigger] q(f, b),
    ensures
        picked_in(frames, n, p) <= picked_in(frames, n, q),
    decreases n,
{
    if n > 0 {
        lemma_picked_in_less(frames, n - 1, p, q);
        lemma_picked_less(frames[n - 1].bubbles, n - 1, frames[n - 1].bubbles.len() as int, p, q);
    }
}

/// A higher threshold rejects nothing that a lower one does not, and so no more.
pub proof fn higher_threshold_rejects_less<F: Fn((Spot, Spot)) -> Closeness>(
    compare: F,
    low: StaticLimits,
    high: StaticLimits,
    frames: Seq<FrameView>,
)
    requires
        low.tol_sq == high.tol_sq,
        low.diameter_tol_frac == high.diameter_tol_frac,
        low.threshold <= high.threshold,
    ensures
        forall|f: int, b: int| #[trigger]
            persistent(compare, high, frames, f, b) ==> persistent(compare, low, frames, f, b),
        picked_in(frames, frames.len() as int, |f: int, b: int| persistent(compare, high, frames, f, b)) <= picked_in(
            frames,
            frames.len() as int,
            |f: int, b: int| persistent(compare, low, frames, f, b),
        ),
{
    let more = |f: int, b: int| persistent(compare, low, frames, f, b);
    let less = |f: int, b: int| persistent(compare, high, frames, f, b);
    assert forall|f: int, b: int| #[trigger]
        persistent(compare, high, frames, f, b) implies persistent(compare, low, frames, f, b) by {
        lemma_threshold(compare, low, high, frames, f, b);
    }
    assert forall|f: int, b: int| less(f, b) implies #[trigger] more(f, b) by {
        assert(persistent(compare, high, frames, f, b));
    }
    lemma_picked_in_less(frames, frames.len() as int, less, more);
}

/// `limits` asks for no fewer frames where the configuration asks for a larger part of them,
/// and takes the tolerated distance from the configuration's tolerance alone.
pub open spec fn follows_fraction<L: Fn((StaticFilterConfig, usize)) -> (usize, Scalar)>(limits: L) -> bool {
    forall|a: StaticFilterConfig, b: StaticFilterConfig, n: usize|
        #![trigger result_of(limits, (a, n)), result_of(limits, (b, n))]
        a.min_frame_frac.at_most(b.min_frame_frac) && a.tol_px == b.tol_px ==> result_of(limits, (a, n)).0
            <= result_of(limits, (b, n)).0 && result_of(limits, (a, n)).1 == result_of(limits, (b, n)).1
}

/// Asking for a larger part of the frames rejects nothing that asking for a smaller part does
/// not, and so no more.
pub proof fn larger_fraction_rejects_less<
    L: Fn((StaticFilterConfig, usize)) -> (usize, Scalar),
    F: Fn((Spot, Spot)) -> Closeness,
>(limits: L, compare: F, low: StaticFilterConfig, high: StaticFilterConfig, frames: Seq<FrameView>)
    requires
        follows_fraction(limits),
        low.min_frame_frac.at_most(high.min_frame_frac),
        low.tol_px == high.tol_px,
        low.diameter_tol_frac == high.diameter_tol_frac,
    ensures
        ({
            let n = frames.len() as int;
            let few = limits_of(limits, low, n);
            let many = limits_of(limits, high, n);
            let more = |f: int, b: int| persistent(compare, few, frames, f, b);
            let less = |f: int, b: int| persistent(compare, many, frames, f, b);
            &&& forall|f: int, b: int|
                0 <= f < n && 0 <= b < frames[f].bubbles.len() && !frames[f].bubbles[b].is_static && (
                #[trigger] filtered(frames, less)[f].bubbles[b]).is_static ==> filtered(frames, more)[f].bubbles[b].is_static
            &&& picked_in(frames, n, less) <= picked_in(frames, n, more)
        }),
{
    let n = frames.len() as int;
    let few = limits_of(limits, low, n);
    let many = limits_of(limits, high, n);
    assert(result_of(limits, (low, n as usize)).0 <= result_of(limits, (high, n as usize)).0);
    higher_threshold_rejects_less(compare, few, many, frames);
}

/// An accepted detection becomes static just where enough frames hold an accepted detection
/// whose centre lies within the tolerance of its own centre and whose diameter does not differ
/// too much from its own. Nothing else about any bubble or path changes.
pub proof fn filter_rejects_what_stays_in_place<
    L: Fn((StaticFilterConfig, usize)) -> (usize, Scalar),
    F: Fn((Spot, Spot)) -> Closeness,
>(limits: L, cfg: StaticFilterConfig, compare: F, frames: Seq<FrameView>, f: int, b: int)
    requires
        0 <= f < frames.len() <= usize::MAX,
        0 <= b < frames[f].bubbles.len(),
    ensures
        ({
            let lim = limits_of(limits, cfg, frames.len() as int);
            let after = filtered(frames, |f: int, b: int| persistent(compare, lim, frames, f, b));
            let zero = Scalar { bits: 0 };
            let (threshold, tol_sq) = result_of(limits, (cfg, frames.len() as usize));
            let tol = cfg.diameter_tol_frac;
            let old_one = frames[f].bubbles[b];
            let new_one = after[f].bubbles[b];
            let place = Spot { x: old_one.centroid_x, y: old_one.centroid_y, diameter: old_one.diameter_um };
            let seen = Set::new(
                |g: usize|
                    g < frames.len() && exists|c: int|
                        0 <= c < frames[g as int].bubbles.len() && (#[trigger] frames[g as int].bubbles[c]).is_valid && {
                            let other = frames[g as int].bubbles[c];
                            let q = result_of(
                                compare,
                                (
                                    place,
                                    Spot { x: other.centroid_x, y: other.centroid_y, diameter: other.diameter_um },
                                ),
                            );
                            &&& q.distance_sq.at_most(tol_sq)
                            &&& zero.less(tol) && zero.less(old_one.diameter_um) ==> !tol.less(q.diameter_diff)
                        },
            );
            let rejected = old_one.is_valid && seen.len() >= threshold;
            &&& after.len() == frames.len()
            &&& after[f].bubbles.len() == frames[f].bubbles.len()
            &&& after[f].image_path == frames[f].image_path
            &&& new_one.is_valid == (old_one.is_valid && !rejected)
            &&& new_one.is_static == (old_one.is_static || rejected)
            &&& new_one.frame_name == old_one.frame_name
            &&& new_one.bubble_id == old_one.bubble_id
            &&& new_one.diameter_um == old_one.diameter_um
            &&& new_one.volume_um3 == old_one.volume_um3
            &&& new_one.area_px == old_one.area_px
            &&& new_one.centroid_x == old_one.centroid_x
            &&& new_one.centroid_y == old_one.centroid_y
        }),
{
    let lim = limits_of(limits, cfg, frames.len() as int);
    let zero = Scalar { bits: 0 };
    let (threshold, tol_sq) = result_of(limits, (cfg, frames.len() as usize));
    let tol = cfg.diameter_tol_frac;
    let old_one = frames[f].bubbles[b];
    let place = Spot { x: old_one.centroid_x, y: old_one.centroid_y, diameter: old_one.diameter_um };
    let seen = Set::new(
        |g: usize|
            g < frames.len() && exists|c: int|
                0 <= c < frames[g as int].bubbles.len() && (#[trigger] frames[g as int].bubbles[c]).is_valid && {
                    let other = frames[g as int].bubbles[c];
                    let q = result_of(
                        compare,
                        (place, Spot { x: other.centroid_x, y: other.centroid_y, diameter: other.diameter_um }),
                    );
                    &&& q.distance_sq.at_most(tol_sq)
                    &&& zero.less(tol) && zero.less(old_one.diameter_um) ==> !tol.less(q.diameter_diff)
                },
    );
    assert(seen =~= frames_seen(compare, lim, frames, place));
}

/// What a frame loses in accepted bubbles it gains in its count of rejected ones, and its count
/// of accepted ones goes down by as much, though not below zero.
pub proof fn filter_moves_counts(frames: Seq<FrameView>, p: spec_fn(int, int) -> bool, f: int)
    requires
        0 <= f < frames.len(),
        frames[f].num_rejected + valid_count(frames[f].bubbles) <= usize::MAX,
    ensures
        ({
            let old_one = frames[f];
            let new_one = filtered(frames, p)[f];
            let lost = old_one.bubbles.filter(|b: BubbleView| b.is_valid).len() - new_one.bubbles.filter(
                |b: BubbleView| b.is_valid,
            ).len();
            &&& lost >= 0
            &&& new_one.num_rejected == old_one.num_rejected + lost
            &&& new_one.num_valid == (if old_one.num_valid >= lost {
                old_one.num_valid - lost
            } else {
                0
            })
        }),
{
    let frame = frames[f];
    let m = frame.bubbles.len() as int;
    lemma_frame_filtered_counts(frame, f, m, p);
    let after = frame_filtered(frame, f, p).bubbles;
    assert(frame.bubbles.take(m) =~= frame.bubbles);
    assert(after.take(m) =~= after);
    counts_pick_by_marks(frame.bubbles);
    counts_pick_by_marks(after);
}

proof fn lemma_starts_apart<F: Fn((Spot, Spot)) -> Closeness>(
    compare: F,
    lim: StaticLimits,
    items: Seq<Item>,
    hit: Seq<bool>,
    n: int,
)
    ensures
        ({
            let at = starts(compare, lim, items, hit, n);
            forall|s: int, t: int|
                0 <= s < t < at.len() ==> #[trigger] at[s] < #[trigger] at[t] && !near(
                    compare,
                    lim,
                    items[at[s]].spot,
                    items[at[t]].spot,
                )
        }),
    decreases n,
{
    if n > 0 {
        lemma_starts_apart(compare, lim, items, hit, n - 1);
        lemma_starts_hit(compare, lim, items, hit, n - 1);
        let at = starts(compare, lim, items, hit, n);
        let before = starts(compare, lim, items, hit, n - 1);
        assert forall|s: int, t: int| 0 <= s < t < at.len() implies #[trigger] at[s] < #[trigger] at[t] && !near(
            compare,
            lim,
            items[at[s]].spot,
            items[at[t]].spot,
        ) by {
            assert(at[s] == before[s]);
            if t < before.len() {
                assert(at[t] == before[t]);
            }
        }
    }
}

proof fn lemma_starts_cover<F: Fn((Spot, Spot)) -> Closeness>(
    compare: F,
    lim: StaticLimits,
    items: Seq<Item>,
    hit: Seq<bool>,
    n: int,
    i: int,
)
    requires
        0 <= i < n,
        hit[i],
    ensures
        ({
            let at = starts(compare, lim, items, hit, n);
            at.contains(i) || exists|t: int|
                0 <= t < at.len() && #[trigger] at[t] < i && near(compare, lim, items[at[t]].spot, items[i].spot)
        }),
    decreases n,
{
    let at = starts(compare, lim, items, hit, n);
    let before = starts(compare, lim, items, hit, n - 1);
    lemma_starts_hit(compare, lim, items, hit, n - 1);
    if i < n - 1 {
        lemma_starts_cover(compare, lim, items, hit, n - 1, i);
        if before.contains(i) {
            assert(at[before.index_of(i)] == i);
        } else {
            let t = choose|t: int|
                0 <= t < before.len() && #[trigger] before[t] < i && near(
                    compare,
                    lim,
                    items[before[t]].spot,
                    items[i].spot,
                );
            assert(at[t] == before[t]);
        }
    } else if covered(compare, lim, items, before, i) {
        let t = choose|t: int|
            0 <= t < before.len() && near(compare, lim, items[#[trigger] before[t]].spot, items[i].spot);
        assert(at[t] == before[t]);
    } else {
        assert(at[at.len() - 1] == i);
    }
}

/// Whether two items are near is told by the centres of their bubbles.
proof fn lemma_near_places<F: Fn((Spot, Spot)) -> Closeness>(
    compare: F,
    lim: StaticLimits,
    frames: Seq<FrameView>,
    i: int,
    j: int,
)
    requires
        indexable(frames),
        0 <= i < items_of(frames).len(),
        0 <= j < items_of(frames).len(),
    ensures
        ({
            let a = items_of(frames)[i];
            let b = items_of(frames)[j];
            let p = frames[a.frame as int].bubbles[a.bubble as int];
            let q = frames[b.frame as int].bubbles[b.bubble as int];
            &&& a.frame < frames.len()
            &&& a.bubble < frames[a.frame as int].bubbles.len()
            &&& p.is_valid
            &&& near(compare, lim, a.spot, b.spot) == result_of(
                compare,
                (
                    Spot { x: p.centroid_x, y: p.centroid_y, diameter: p.diameter_um },
                    Spot { x: q.centroid_x, y: q.centroid_y, diameter: q.diameter_um },
                ),
            ).distance_sq.at_most(lim.tol_sq)
            &&& i < j ==> a.frame < b.frame || (a.frame == b.frame && a.bubble < b.bubble)
        }),
{
    lemma_items(frames);
    assert(stands_for(frames, items_of(frames)[i]));
    assert(stands_for(frames, items_of(frames)[j]));
    if i < j {
        assert(earlier(items_of(frames)[i], items_of(frames)[j]));
    }
}

/// There is a cluster for each of some rejected detections, which lie away from each other:
/// the centre of none is within the tolerance of the centre of an earlier one. Every other
/// rejected detection lies within the tolerance of an earlier one of these.
pub proof fn clusters_gather_rejected<
    L: Fn((StaticFilterConfig, usize)) -> (usize, Scalar),
    F: Fn((Spot, Spot)) -> Closeness,
>(limits: L, cfg: StaticFilterConfig, compare: F, frames: Seq<FrameView>) -> (at: Seq<(int, int)>)
    requires
        indexable(frames),
    ensures
        ({
            let lim = limits_of(limits, cfg, frames.len() as int);
            let items = items_of(frames);
            at.len() == starts(compare, lim, items, hits(compare, lim, frames), items.len() as int).len()
        }),
        forall|t: int|
            #![trigger at[t]]
            0 <= t < at.len() ==> {
                let lim = limits_of(limits, cfg, frames.len() as int);
                let after = filtered(frames, |f: int, b: int| persistent(compare, lim, frames, f, b));
                &&& 0 <= at[t].0 < frames.len()
                &&& 0 <= at[t].1 < frames[at[t].0].bubbles.len()
                &&& frames[at[t].0].bubbles[at[t].1].is_valid
                &&& !after[at[t].0].bubbles[at[t].1].is_valid
            },
        forall|s: int, t: int|
            #![trigger at[s], at[t]]
            0 <= s < t < at.len() ==> {
                let p = frames[at[s].0].bubbles[at[s].1];
                let q = frames[at[t].0].bubbles[at[t].1];
                &&& at[s].0 < at[t].0 || (at[s].0 == at[t].0 && at[s].1 < at[t].1)
                &&& !result_of(
                    compare,
                    (
                        Spot { x: p.centroid_x, y: p.centroid_y, diameter: p.diameter_um },
                        Spot { x: q.centroid_x, y: q.centroid_y, diameter: q.diameter_um },
                    ),
                ).distance_sq.at_most(result_of(limits, (cfg, frames.len() as usize)).1)
            },
        forall|g: int, c: int|
            0 <= g < frames.len() && 0 <= c < frames[g].bubbles.len() && (#[trigger] frames[g].bubbles[c]).is_valid && ({
                let lim = limits_of(limits, cfg, frames.len() as int);
                let after = filtered(frames, |f: int, b: int| persistent(compare, lim, frames, f, b));
                !after[g].bubbles[c].is_valid
            }) && !at.contains((g, c)) ==> exists|t: int|
                0 <= t < at.len() && ((#[trigger] at[t]).0 < g || (at[t].0 == g && at[t].1 < c)) && ({
                    let p = frames[at[t].0].bubbles[at[t].1];
                    let q = frames[g].bubbles[c];
                    result_of(
                        compare,
                        (
                            Spot { x: p.centroid_x, y: p.centroid_y, diameter: p.diameter_um },
                            Spot { x: q.centroid_x, y: q.centroid_y, diameter: q.diameter_um },
                        ),
                    ).distance_sq.at_most(result_of(limits, (cfg, frames.len() as usize)).1)
                }),
{
    let lim = limits_of(limits, cfg, frames.len() as int);
    let after = filtered(frames, |f: int, b: int| persistent(compare, lim, frames, f, b));
    let items = items_of(frames);
    let hit = hits(compare, lim, frames);
    let n = items.len() as int;
    let firsts = starts(compare, lim, items, hit, n);
    let at = Seq::new(firsts.len(), |t: int| (items[firsts[t]].frame as int, items[firsts[t]].bubble as int));
    lemma_starts_hit(compare, lim, items, hit, n);
    lemma_starts_apart(compare, lim, items, hit, n);
    assert forall|t: int| #![trigger at[t]] 0 <= t < at.len() implies 0 <= at[t].0 < frames.len() && 0 <= at[t].1
        < frames[at[t].0].bubbles.len() && frames[at[t].0].bubbles[at[t].1].is_valid
        && !after[at[t].0].bubbles[at[t].1].is_valid by {
        assert(0 <= firsts[t] < n && hit[firsts[t]]);
        lemma_near_places(compare, lim, frames, firsts[t], firsts[t]);
    }
    assert forall|s: int, t: int| #![trigger at[s], at[t]] 0 <= s < t < at.len() implies ({
        let p = frames[at[s].0].bubbles[at[s].1];
        let q = frames[at[t].0].bubbles[at[t].1];
        &&& at[s].0 < at[t].0 || (at[s].0 == at[t].0 && at[s].1 < at[t].1)
        &&& !result_of(
            compare,
            (
                Spot { x: p.centroid_x, y: p.centroid_y, diameter: p.diameter_um },
                Spot { x: q.centroid_x, y: q.centroid_y, diameter: q.diameter_um },
            ),
        ).distance_sq.at_most(lim.tol_sq)
    }) by {
        assert(0 <= firsts[s] < firsts[t] < n);
        lemma_near_places(compare, lim, frames, firsts[s], firsts[t]);
    }
    assert forall|g: int, c: int|
        0 <= g < frames.len() && 0 <= c < frames[g].bubbles.len() && (#[trigger] frames[g].bubbles[c]).is_valid
            && !after[g].bubbles[c].is_valid && !at.contains((g, c)) implies exists|t: int|
        0 <= t < at.len() && ((#[trigger] at[t]).0 < g || (at[t].0 == g && at[t].1 < c)) && ({
            let p = frames[at[t].0].bubbles[at[t].1];
            let q = frames[g].bubbles[c];
            result_of(
                compare,
                (
                    Spot { x: p.centroid_x, y: p.centroid_y, diameter: p.diameter_um },
                    Spot { x: q.centroid_x, y: q.centroid_y, diameter: q.diameter_um },
                ),
            ).distance_sq.at_most(lim.tol_sq)
        }) by {
        assert(listed(items, g, c)) by {
            lemma_items(frames);
        }
        let i = choose|k: int| 0 <= k < items.len() && (#[trigger] items[k]).frame == g && items[k].bubble == c;
        assert(hit[i]);
        lemma_starts_cover(compare, lim, items, hit, n, i);
        if firsts.contains(i) {
            let t = firsts.index_of(i);
            assert(at[t] == (g, c));
        } else {
            let t = choose|t: int|
                0 <= t < firsts.len() && #[trigger] firsts[t] < i && near(
                    compare,
                    lim,
                    items[firsts[t]].spot,
                    items[i].spot,
                );
            assert(0 <= firsts[t] < n);
            lemma_near_places(compare, lim, frames, firsts[t], i);
            assert(at[t] == (items[firsts[t]].frame as int, items[firsts[t]].bubble as int));
        }
    }
    at
}

/// Every two accepted detections are compared where each item is compared with each, by their
/// own centres and diameters.
proof fn lemma_places_compared<F: Fn((Spot, Spot)) -> Closeness>(compare: F, frames: Seq<FrameView>)
    requires
        indexable(frames),
        forall|i: int, j: int|
            0 <= i < items_of(frames).len() && 0 <= j < items_of(frames).len() ==> answered(
                compare,
                ((#[trigger] items_of(frames)[i]).spot, (#[trigger] items_of(frames)[j]).spot),
            ),
    ensures
        forall|f: int, b: int, g: int, c: int|
            0 <= f < frames.len() && 0 <= b < frames[f].bubbles.len() && (#[trigger] frames[f].bubbles[b]).is_valid && 0
                <= g < frames.len() && 0 <= c < frames[g].bubbles.len() && (#[trigger] frames[g].bubbles[c]).is_valid
                ==> answered(
                compare,
                (
                    Spot {
                        x: frames[f].bubbles[b].centroid_x,
                        y: frames[f].bubbles[b].centroid_y,
                        diameter: frames[f].bubbles[b].diameter_um,
                    },
                    Spot {
                        x: frames[g].bubbles[c].centroid_x,
                        y: frames[g].bubbles[c].centroid_y,
                        diameter: frames[g].bubbles[c].diameter_um,
                    },
                ),
            ),
{
    let items = items_of(frames);
    lemma_items(frames);
    assert forall|f: int, b: int, g: int, c: int|
        0 <= f < frames.len() && 0 <= b < frames[f].bubbles.len() && (#[trigger] frames[f].bubbles[b]).is_valid && 0 <= g
            < frames.len() && 0 <= c < frames[g].bubbles.len() && (
        #[trigger] frames[g].bubbles[c]).is_valid implies answered(
        compare,
        (
            Spot {
                x: frames[f].bubbles[b].centroid_x,
                y: frames[f].bubbles[b].centroid_y,
                diameter: frames[f].bubbles[b].diameter_um,
            },
            Spot {
                x: frames[g].bubbles[c].centroid_x,
                y: frames[g].bubbles[c].centroid_y,
                diameter: frames[g].bubbles[c].diameter_um,
            },
        ),
    ) by {
        assert(listed(items, f, b) && listed(items, g, c));
        let i = choose|k: int| 0 <= k < items.len() && (#[trigger] items[k]).frame == f && items[k].bubble == b;
        let j = choose|k: int| 0 <= k < items.len() && (#[trigger] items[k]).frame == g && items[k].bubble == c;
        assert(stands_for(frames, items[i]) && stands_for(frames, items[j]));
    }
}

} // verus!
