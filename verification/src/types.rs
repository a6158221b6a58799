//! Detections, frames and the results of one sample.
use crate::scalar::Scalar;
use vstd::prelude::*;

verus! {

/// One detected bubble.
#[derive(Clone, Debug)]
pub struct BubbleData {
    pub frame_name: String,
    pub bubble_id: usize,
    pub diameter_um: Scalar,
    pub volume_um3: Scalar,
    pub area_px: Scalar,
    pub centroid_x: Scalar,
    pub centroid_y: Scalar,
    pub is_valid: bool,
    pub is_static: bool,
}

/// The detections on one image.
#[derive(Clone, Debug)]
pub struct FrameResult {
    pub image_path: String,
    pub num_valid: usize,
    pub num_rejected: usize,
    pub bubbles: Vec<BubbleData>,
}

/// The physical parameters of an analysis.
#[derive(Clone, Copy, Debug)]
pub struct AnalysisParameters {
    pub scale_um_per_pixel: Scalar,
    pub sample_volume_per_frame_ul: Scalar,
    pub min_diameter_um: Scalar,
    pub max_diameter_um: Scalar,
    pub bin_size_um: Scalar,
}

/// The frames of one sample, with the parameters they were analysed under.
#[derive(Clone, Debug)]
pub struct AnalysisResults {
    pub sample_name: String,
    pub parameters: AnalysisParameters,
    pub frames: Vec<FrameResult>,
}

/// A bubble with its name as a sequence of characters.
pub struct BubbleView {
    pub frame_name: Seq<char>,
    pub bubble_id: usize,
    pub diameter_um: Scalar,
    pub volume_um3: Scalar,
    pub area_px: Scalar,
    pub centroid_x: Scalar,
    pub centroid_y: Scalar,
    pub is_valid: bool,
    pub is_static: bool,
}

/// A frame with its bubbles as a sequence.
pub struct FrameView {
    pub image_path: Seq<char>,
    pub num_valid: usize,
    pub num_rejected: usize,
    pub bubbles: Seq<BubbleView>,
}

/// A sample with its frames as a sequence.
pub struct ResultsView {
    pub sample_name: Seq<char>,
    pub parameters: AnalysisParameters,
    pub frames: Seq<FrameView>,
}

impl View for BubbleData {
    type V = BubbleView;

    open spec fn view(&self) -> BubbleView {
        BubbleView {
            frame_name: self.frame_name@,
            bubble_id: self.bubble_id,
            diameter_um: self.diameter_um,
            volume_um3: self.volume_um3,
            area_px: self.area_px,
            centroid_x: self.centroid_x,
            centroid_y: self.centroid_y,
            is_valid: self.is_valid,
            is_static: self.is_static,
        }
    }
}

impl View for FrameResult {
    type V = FrameView;

    open spec fn view(&self) -> FrameView {
        FrameView {
            image_path: self.image_path@,
            num_valid: self.num_valid,
            num_rejected: self.num_rejected,
            bubbles: self.bubbles@.map_values(|b: BubbleData| b@),
        }
    }
}

impl View for AnalysisResults {
    type V = ResultsView;

    open spec fn view(&self) -> ResultsView {
        ResultsView {
            sample_name: self.sample_name@,
            parameters: self.parameters,
            frames: self.frames@.map_values(|f: FrameResult| f@),
        }
    }
}

/// How many of the bubbles are accepted.
pub open spec fn valid_count(bubbles: Seq<BubbleView>) -> nat
    decreases bubbles.len(),
{
    if bubbles.len() == 0 {
        0
    } else {
        valid_count(bubbles.drop_last()) + if bubbles.last().is_valid {
            1nat
        } else {
            0nat
        }
    }
}

/// How many of the bubbles are marked static.
pub open spec fn static_count(bubbles: Seq<BubbleView>) -> nat
    decreases bubbles.len(),
{
    if bubbles.len() == 0 {
        0
    } else {
        static_count(bubbles.drop_last()) + if bubbles.last().is_static {
            1nat
        } else {
            0nat
        }
    }
}

/// The diameters of the accepted bubbles, in order.
pub open spec fn valid_diameters(bubbles: Seq<BubbleView>) -> Seq<Scalar>
    decreases bubbles.len(),
{
    if bubbles.len() == 0 {
        Seq::empty()
    } else if bubbles.last().is_valid {
        valid_diameters(bubbles.drop_last()).push(bubbles.last().diameter_um)
    } else {
        valid_diameters(bubbles.drop_last())
    }
}

/// How many accepted bubbles the frames hold.
pub open spec fn accepted_in(frames: Seq<FrameView>) -> nat
    decreases frames.len(),
{
    if frames.len() == 0 {
        0
    } else {
        accepted_in(frames.drop_last()) + valid_count(frames.last().bubbles)
    }
}

/// How many bubbles of the frames are marked static.
pub open spec fn static_in(frames: Seq<FrameView>) -> nat
    decreases frames.len(),
{
    if frames.len() == 0 {
        0
    } else {
        static_in(frames.drop_last()) + static_count(frames.last().bubbles)
    }
}

/// The sum of the frames' own counts of rejected bubbles.
pub open spec fn rejected_in(frames: Seq<FrameView>) -> nat
    decreases frames.len(),
{
    if frames.len() == 0 {
        0
    } else {
        rejected_in(frames.drop_last()) + frames.last().num_rejected as nat
    }
}

/// How many bubbles the frames hold in all.
pub open spec fn bubbles_in(frames: Seq<FrameView>) -> nat
    decreases frames.len(),
{
    if frames.len() == 0 {
        0
    } else {
        bubbles_in(frames.drop_last()) + frames.last().bubbles.len()
    }
}

/// The diameters of the accepted bubbles of all frames, in order.
pub open spec fn diameters_in(frames: Seq<FrameView>) -> Seq<Scalar>
    decreases frames.len(),
{
    if frames.len() == 0 {
        Seq::empty()
    } else {
        diameters_in(frames.drop_last()) + valid_diameters(frames.last().bubbles)
    }
}

/// The frame's counts are those of its bubbles.
pub open spec fn counts_agree(frame: FrameView) -> bool {
    &&& frame.num_valid == valid_count(frame.bubbles)
    &&& frame.num_rejected == frame.bubbles.len() - valid_count(frame.bubbles)
}

/// The counts of every frame are those of its bubbles.
pub open spec fn all_counts_agree(frames: Seq<FrameView>) -> bool {
    forall|f: int| 0 <= f < frames.len() ==> counts_agree(#[trigger] frames[f])
}

impl AnalysisParameters {
    /// The startup parameters: 0.0825 um per pixel, 0.00089 uL per frame, diameters
    /// from 0.5 to 20 um in bins of 0.165 um.
    pub open spec fn initial() -> AnalysisParameters {
        AnalysisParameters {
            scale_um_per_pixel: Scalar { bits: 0x3da8_f5c3 },
            sample_volume_per_frame_ul: Scalar { bits: 0x3a69_4ee4 },
            min_diameter_um: Scalar { bits: 0x3f00_0000 },
            max_diameter_um: Scalar { bits: 0x41a0_0000 },
            bin_size_um: Scalar { bits: 0x3e28_f5c3 },
        }
    }
}

impl Default for AnalysisParameters {
    fn default() -> (r: AnalysisParameters)
        ensures
            r == AnalysisParameters::initial(),
            r.scale_um_per_pixel.bits == 0x3da8_f5c3,
            r.sample_volume_per_frame_ul.bits == 0x3a69_4ee4,
            r.min_diameter_um.bits == 0x3f00_0000,
            r.max_diameter_um.bits == 0x41a0_0000,
            r.bin_size_um.bits == 0x3e28_f5c3,
    {
        AnalysisParameters {
            scale_um_per_pixel: Scalar { bits: 0x3da8_f5c3 },
            sample_volume_per_frame_ul: Scalar { bits: 0x3a69_4ee4 },
            min_diameter_um: Scalar { bits: 0x3f00_0000 },
            max_diameter_um: Scalar { bits: 0x41a0_0000 },
            bin_size_um: Scalar { bits: 0x3e28_f5c3 },
        }
    }
}

/// There are no more accepted bubbles than bubbles.
pub proof fn lemma_valid_count_bound(bubbles: Seq<BubbleView>)
    ensures
        valid_count(bubbles) <= bubbles.len(),
    decreases bubbles.len(),
{
    if bubbles.len() > 0 {
        lemma_valid_count_bound(bubbles.drop_last());
    }
}

/// One element more in a prefix.
pub proof fn lemma_take_step<A>(s: Seq<A>, i: int)
    requires
        0 <= i < s.len(),
    ensures
        s.take(i + 1).drop_last() == s.take(i),
        s.take(i + 1).last() == s[i],
        s.take(i + 1).len() == i + 1,
{
    assert(s.take(i + 1).drop_last() =~= s.take(i));
}

/// A prefix of frames holds no more than all of them.
pub proof fn lemma_accepted_monotone(frames: Seq<FrameView>, i: int)
    requires
        0 <= i <= frames.len(),
    ensures
        accepted_in(frames.take(i)) <= accepted_in(frames),
        rejected_in(frames.take(i)) <= rejected_in(frames),
        static_in(frames.take(i)) <= static_in(frames),
        bubbles_in(frames.take(i)) <= bubbles_in(frames),
    decreases frames.len() - i,
{
    if i == frames.len() {
        assert(frames.take(i) =~= frames);
    } else {
        lemma_take_step(frames, i);
        lemma_accepted_monotone(frames, i + 1);
    }
}

/// A prefix of bubbles holds no more accepted or static ones than all of them.
pub proof fn lemma_count_monotone(bubbles: Seq<BubbleView>, i: int)
    requires
        0 <= i <= bubbles.len(),
    ensures
        valid_count(bubbles.take(i)) <= valid_count(bubbles),
        static_count(bubbles.take(i)) <= static_count(bubbles),
    decreases bubbles.len() - i,
{
    if i == bubbles.len() {
        assert(bubbles.take(i) =~= bubbles);
    } else {
        lemma_take_step(bubbles, i);
        lemma_count_monotone(bubbles, i + 1);
    }
}

impl FrameResult {
    /// How many of the frame's bubbles are accepted.
    pub fn count_valid(&self) -> (r: usize)
        ensures
            r == valid_count(self@.bubbles),
    {
        let n: usize = self.bubbles.len();
        let mut count: usize = 0;
        let mut i: usize = 0;
        while i < n
            invariant
                i <= n,
                n == self.bubbles@.len(),
                count <= i,
                count == valid_count(self@.bubbles.take(i as int)),
            decreases n - i,
        {
            proof {
                lemma_take_step(self@.bubbles, i as int);
            }
            if self.bubbles[i].is_valid {
                count += 1;
            }
            i += 1;
        }
        assert(self@.bubbles.take(n as int) =~= self@.bubbles);
        count
    }

    /// How many of the frame's bubbles are marked static.
    pub fn count_static(&self) -> (r: usize)
        ensures
            r == static_count(self@.bubbles),
    {
        let n: usize = self.bubbles.len();
        let mut count: usize = 0;
        let mut i: usize = 0;
        while i < n
            invariant
                i <= n,
                n == self.bubbles@.len(),
                count <= i,
                count == static_count(self@.bubbles.take(i as int)),
            decreases n - i,
        {
            proof {
                lemma_take_step(self@.bubbles, i as int);
            }
            if self.bubbles[i].is_static {
                count += 1;
            }
            i += 1;
        }
        assert(self@.bubbles.take(n as int) =~= self@.bubbles);
        count
    }

    /// Sets the frame's counts to those of its bubbles.
    pub fn recount(&mut self)
        ensures
            final(self)@ == (FrameView {
                num_valid: valid_count(old(self)@.bubbles) as usize,
                num_rejected: (old(self)@.bubbles.len() - valid_count(old(self)@.bubbles)) as usize,
                ..old(self)@
            }),
            counts_agree(final(self)@),
    {
        proof {
            lemma_valid_count_bound(self@.bubbles);
        }
        let valid: usize = self.count_valid();
        self.num_valid = valid;
        self.num_rejected = self.bubbles.len() - valid;
    }
}

impl AnalysisResults {
    /// How many accepted bubbles there are.
    pub fn total_bubbles(&self) -> (r: usize)
        requires
            accepted_in(self@.frames) <= usize::MAX,
        ensures
            r == accepted_in(self@.frames),
            r == diameters_in(self@.frames).len(),
    {
        proof {
            diameters_count_accepted(self@.frames);
        }
        let n: usize = self.frames.len();
        let mut total: usize = 0;
        let mut i: usize = 0;
        while i < n
            invariant
                i <= n,
                n == self.frames@.len(),
                accepted_in(self@.frames) <= usize::MAX,
                total == accepted_in(self@.frames.take(i as int)),
            decreases n - i,
        {
            proof {
                lemma_take_step(self@.frames, i as int);
                lemma_accepted_monotone(self@.frames, i + 1);
            }
            total += self.frames[i].count_valid();
            i += 1;
        }
        assert(self@.frames.take(n as int) =~= self@.frames);
        total
    }

    /// The sum of the frames' counts of rejected bubbles.
    pub fn total_rejected(&self) -> (r: usize)
        requires
            rejected_in(self@.frames) <= usize::MAX,
        ensures
            r == rejected_in(self@.frames),
    {
        let n: usize = self.frames.len();
        let mut total: usize = 0;
        let mut i: usize = 0;
        while i < n
            invariant
                i <= n,
                n == self.frames@.len(),
                rejected_in(self@.frames) <= usize::MAX,
                total == rejected_in(self@.frames.take(i as int)),
            decreases n - i,
        {
            proof {
                lemma_take_step(self@.frames, i as int);
                lemma_accepted_monotone(self@.frames, i + 1);
            }
            total += self.frames[i].num_rejected;
            i += 1;
        }
        assert(self@.frames.take(n as int) =~= self@.frames);
        total
    }

    /// How many bubbles are marked static.
    pub fn total_static(&self) -> (r: usize)
        requires
            static_in(self@.frames) <= usize::MAX,
        ensures
            r == static_in(self@.frames),
    {
        let n: usize = self.frames.len();
        let mut total: usize = 0;
        let mut i: usize = 0;
        while i < n
            invariant
                i <= n,
                n == self.frames@.len(),
                static_in(self@.frames) <= usize::MAX,
                total == static_in(self@.frames.take(i as int)),
            decreases n - i,
        {
            proof {
                lemma_take_step(self@.frames, i as int);
                lemma_accepted_monotone(self@.frames, i + 1);
            }
            total += self.frames[i].count_static();
            i += 1;
        }
        assert(self@.frames.take(n as int) =~= self@.frames);
        total
    }

    /// The diameters of the accepted bubbles, frame by frame.
    pub fn diameters_valid(&self) -> (r: Vec<Scalar>)
        ensures
            r@ == diameters_in(self@.frames),
    {
        let n: usize = self.frames.len();
        let mut out: Vec<Scalar> = Vec::new();
        let mut i: usize = 0;
        while i < n
            invariant
                i <= n,
                n == self.frames@.len(),
                out@ == diameters_in(self@.frames.take(i as int)),
            decreases n - i,
        {
            let frame = &self.frames[i];
            let m: usize = frame.bubbles.len();
            let ghost before = out@;
            let mut j: usize = 0;
            while j < m
                invariant
                    j <= m,
                    m == frame.bubbles@.len(),
                    out@ == before + valid_diameters(frame@.bubbles.take(j as int)),
                decreases m - j,
            {
                proof {
                    lemma_take_step(frame@.bubbles, j as int);
                }
                if frame.bubbles[j].is_valid {
                    out.push(frame.bubbles[j].diameter_um);
                }
                j += 1;
            }
            proof {
                assert(frame@.bubbles.take(m as int) =~= frame@.bubbles);
                lemma_take_step(self@.frames, i as int);
            }
            i += 1;
        }
        assert(self@.frames.take(n as int) =~= self@.frames);
        out
    }
}

/// Where the counts of the frames are those of their bubbles, the totals of accepted and
/// rejected bubbles add up to all bubbles.
pub proof fn totals_cover_all_bubbles(frames: Seq<FrameView>)
    requires
        all_counts_agree(frames),
    ensures
        accepted_in(frames) + rejected_in(frames) == bubbles_in(frames),
    decreases frames.len(),
{
    if frames.len() > 0 {
        let shorter = frames.drop_last();
        assert forall|f: int| 0 <= f < shorter.len() implies counts_agree(#[trigger] shorter[f]) by {
            assert(shorter[f] == frames[f]);
        }
        totals_cover_all_bubbles(shorter);
        assert(counts_agree(frames[frames.len() - 1]));
        lemma_valid_count_bound(frames.last().bubbles);
    }
}

/// There are as many accepted diameters as accepted bubbles.
pub proof fn diameters_count_accepted(frames: Seq<FrameView>)
    ensures
        diameters_in(frames).len() == accepted_in(frames),
    decreases frames.len(),
{
    if frames.len() > 0 {
        diameters_count_accepted(frames.drop_last());
        lemma_diameters_count(frames.last().bubbles);
    }
}

proof fn lemma_diameters_count(bubbles: Seq<BubbleView>)
    ensures
        valid_diameters(bubbles).len() == valid_count(bubbles),
    decreases bubbles.len(),
{
    if bubbles.len() > 0 {
        lemma_diameters_count(bubbles.drop_last());
    }
}

/// The counts and the diameters of some bubbles are those of the bubbles picked by their own
/// marks, in order.
pub proof fn counts_pick_by_marks(bubbles: Seq<BubbleView>)
    ensures
        valid_count(bubbles) == bubbles.filter(|b: BubbleView| b.is_valid).len(),
        static_count(bubbles) == bubbles.filter(|b: BubbleView| b.is_static).len(),
        valid_diameters(bubbles) == bubbles.filter(|b: BubbleView| b.is_valid).map_values(
            |b: BubbleView| b.diameter_um,
        ),
    decreases bubbles.len(),
{
    reveal(Seq::filter);
    let valid = |b: BubbleView| b.is_valid;
    let diameter = |b: BubbleView| b.diameter_um;
    if bubbles.len() > 0 {
        counts_pick_by_marks(bubbles.drop_last());
        let before = bubbles.drop_last().filter(valid);
        if bubbles.last().is_valid {
            assert(before.push(bubbles.last()).map_values(diameter) =~= before.map_values(diameter).push(
                bubbles.last().diameter_um,
            ));
        }
    }
    assert(valid_diameters(bubbles) =~= bubbles.filter(valid).map_values(diameter));
}

/// All bubbles of the frames, one frame after the other, are those of the frames before the
/// last with those of the last behind them.
pub proof fn lemma_bubbles_of_last(frames: Seq<FrameView>)
    requires
        frames.len() > 0,
    ensures
        frames.map_values(|f: FrameView| f.bubbles).flatten() == frames.drop_last().map_values(
            |f: FrameView| f.bubbles,
        ).flatten() + frames.last().bubbles,
{
    let held = |f: FrameView| f.bubbles;
    let lists = frames.map_values(held);
    let before = frames.drop_last().map_values(held);
    assert(lists.drop_last() =~= before);
    assert(lists.last() == frames.last().bubbles);
    lists.lemma_flatten_and_flatten_alt_are_equivalent();
    before.lemma_flatten_and_flatten_alt_are_equivalent();
}

/// The totals of a sample are taken over the bubbles of all its frames, one frame after the
/// other, each bubble picked by its own marks.
pub proof fn totals_pick_by_marks(frames: Seq<FrameView>)
    ensures
        ({
            let all = frames.map_values(|f: FrameView| f.bubbles).flatten();
            &&& bubbles_in(frames) == all.len()
            &&& accepted_in(frames) == all.filter(|b: BubbleView| b.is_valid).len()
            &&& static_in(frames) == all.filter(|b: BubbleView| b.is_static).len()
            &&& diameters_in(frames) == all.filter(|b: BubbleView| b.is_valid).map_values(
                |b: BubbleView| b.diameter_um,
            )
        }),
        rejected_in(frames) == frames.fold_left(0int, |sum: int, f: FrameView| sum + f.num_rejected),
    decreases frames.len(),
{
    let held = |f: FrameView| f.bubbles;
    let valid = |b: BubbleView| b.is_valid;
    let fixed = |b: BubbleView| b.is_static;
    let diameter = |b: BubbleView| b.diameter_um;
    let all = frames.map_values(held).flatten();
    if frames.len() == 0 {
        reveal(Seq::filter);
        assert(all =~= Seq::empty());
        assert(diameters_in(frames) =~= all.filter(valid).map_values(diameter));
    } else {
        totals_pick_by_marks(frames.drop_last());
        lemma_bubbles_of_last(frames);
        let before = frames.drop_last().map_values(held).flatten();
        let last = frames.last().bubbles;
        counts_pick_by_marks(last);
        Seq::filter_distributes_over_add(before, last, valid);
        Seq::filter_distributes_over_add(before, last, fixed);
        assert((before.filter(valid) + last.filter(valid)).map_values(diameter) =~= before.filter(valid).map_values(
            diameter,
        ) + last.filter(valid).map_values(diameter));
    }
}

/// Bubbles, frames and samples are spoken of by what their own fields hold, bubble by bubble and
/// frame by frame.
pub proof fn fields_are_spoken_of(b: BubbleData, f: FrameResult, r: AnalysisResults)
    ensures
        b@.frame_name == b.frame_name@,
        b@.bubble_id == b.bubble_id,
        b@.diameter_um == b.diameter_um,
        b@.volume_um3 == b.volume_um3,
        b@.area_px == b.area_px,
        b@.centroid_x == b.centroid_x,
        b@.centroid_y == b.centroid_y,
        b@.is_valid == b.is_valid,
        b@.is_static == b.is_static,
        f@.image_path == f.image_path@,
        f@.num_valid == f.num_valid,
        f@.num_rejected == f.num_rejected,
        f@.bubbles.len() == f.bubbles@.len(),
        forall|i: int| 0 <= i < f.bubbles@.len() ==> #[trigger] f@.bubbles[i] == f.bubbles@[i]@,
        r@.sample_name == r.sample_name@,
        r@.parameters == r.parameters,
        r@.frames.len() == r.frames@.len(),
        forall|i: int| 0 <= i < r.frames@.len() ==> #[trigger] r@.frames[i] == r.frames@[i]@,
{
}

} // verus!
