//! What goes into the exported tables, summaries, overlays and histograms.
use crate::calc::answered;
use crate::calc::ask;
use crate::calc::computes;
use crate::calc::result_of;
use crate::histogram::bin_counts;
use crate::histogram::bins_of;
use crate::histogram::scaled;
use crate::histogram::scaled_value;
use crate::histogram::slots_asked;
use crate::histogram::spread;
use crate::histogram::spread_halves_diameters;
use crate::histogram::spread_of;
use crate::histogram::HistAxisMode;
use crate::histogram::Scaled;
use crate::histogram::Slot;
use crate::histogram::Spread;
use crate::histogram::EXPORT_BINS;
use crate::picture::filled;
use crate::picture::Area;
use crate::picture::Color;
use crate::picture::Picture;
use crate::picture::HIST_H;
use crate::picture::HIST_W;
use crate::scalar::Scalar;
use crate::statistics::deviation_takes_each_number_once;
use crate::statistics::mean;
use crate::statistics::mean_of;
use crate::statistics::mean_takes_each_number_once;
use crate::statistics::standard_deviation;
use crate::statistics::std_answered;
use crate::statistics::std_of;
use crate::statistics::Arithmetic;
use crate::types::accepted_in;
use crate::types::diameters_in;
use crate::types::lemma_bubbles_of_last;
use crate::types::lemma_take_step;
use crate::types::rejected_in;
use crate::types::static_count;
use crate::types::static_in;
use crate::types::totals_pick_by_marks;
use crate::types::valid_count;
use crate::types::valid_diameters;
use crate::types::AnalysisResults;
use crate::types::BubbleView;
use crate::types::FrameResult;
use crate::types::FrameView;
use crate::types::ResultsView;
use vstd::prelude::*;
use vstd::string::StringExecFns;

verus! {

/// What to export, and what to draw on overlays.
#[derive(Clone, Copy, Debug, PartialEq, Eq, Structural)]
pub struct ExportOpts {
    pub csv: bool,
    pub png: bool,
    pub hist: bool,
    pub show_bubbles: bool,
    pub show_rejected: bool,
    pub show_static: bool,
}

/// A row of the table of accepted bubbles.
#[derive(Debug)]
pub struct BubbleRow {
    pub frame: String,
    pub bubble_id: usize,
    pub diameter_um: Scalar,
    pub volume_um3: Scalar,
    pub centroid_x_px: Scalar,
    pub centroid_y_px: Scalar,
}

/// A row of the table of static bubbles.
#[derive(Debug)]
pub struct StaticRow {
    pub frame: String,
    pub bubble_id: usize,
    pub diameter_um: Scalar,
    pub centroid_x_px: Scalar,
    pub centroid_y_px: Scalar,
}

impl BubbleRow {
    /// The row shows the bubble.
    pub open spec fn shows(&self, b: BubbleView) -> bool {
        &&& self.frame@ == b.frame_name
        &&& self.bubble_id == b.bubble_id
        &&& self.diameter_um == b.diameter_um
        &&& self.volume_um3 == b.volume_um3
        &&& self.centroid_x_px == b.centroid_x
        &&& self.centroid_y_px == b.centroid_y
    }
}

impl StaticRow {
    /// The row shows the bubble.
    pub open spec fn shows(&self, b: BubbleView) -> bool {
        &&& self.frame@ == b.frame_name
        &&& self.bubble_id == b.bubble_id
        &&& self.diameter_um == b.diameter_um
        &&& self.centroid_x_px == b.centroid_x
        &&& self.centroid_y_px == b.centroid_y
    }
}

/// All bubbles, frame by frame.
pub open spec fn bubbles_of_frames(frames: Seq<FrameView>) -> Seq<BubbleView>
    decreases frames.len(),
{
    if frames.len() == 0 {
        Seq::empty()
    } else {
        bubbles_of_frames(frames.drop_last()) + frames.last().bubbles
    }
}

/// The accepted ones among some bubbles, in order.
pub open spec fn accepted_only(bubbles: Seq<BubbleView>) -> Seq<BubbleView>
    decreases bubbles.len(),
{
    if bubbles.len() == 0 {
        Seq::empty()
    } else if bubbles.last().is_valid {
        accepted_only(bubbles.drop_last()).push(bubbles.last())
    } else {
        accepted_only(bubbles.drop_last())
    }
}

/// The static ones among some bubbles, in order.
pub open spec fn static_only(bubbles: Seq<BubbleView>) -> Seq<BubbleView>
    decreases bubbles.len(),
{
    if bubbles.len() == 0 {
        Seq::empty()
    } else if bubbles.last().is_static {
        static_only(bubbles.drop_last()).push(bubbles.last())
    } else {
        static_only(bubbles.drop_last())
    }
}

/// Row by row, `rows` shows `bubbles`.
pub open spec fn rows_show(rows: Seq<BubbleRow>, bubbles: Seq<BubbleView>) -> bool {
    &&& rows.len() == bubbles.len()
    &&& forall|i: int| 0 <= i < rows.len() ==> (#[trigger] rows[i]).shows(bubbles[i])
}

/// Row by row, `rows` shows `bubbles`.
pub open spec fn static_rows_show(rows: Seq<StaticRow>, bubbles: Seq<BubbleView>) -> bool {
    &&& rows.len() == bubbles.len()
    &&& forall|i: int| 0 <= i < rows.len() ==> (#[trigger] rows[i]).shows(bubbles[i])
}

/// One bubble more among those of the frames before `f`.
proof fn lemma_next_bubble(frames: Seq<FrameView>, f: int, b: int)
    requires
        0 <= f < frames.len(),
        0 <= b < frames[f].bubbles.len(),
    ensures
        ({
            let seen = bubbles_of_frames(frames.take(f)) + frames[f].bubbles.take(b);
            let more = bubbles_of_frames(frames.take(f)) + frames[f].bubbles.take(b + 1);
            &&& more.drop_last() == seen
            &&& more.last() == frames[f].bubbles[b]
            &&& more.len() == seen.len() + 1
        }),
{
    let seen = bubbles_of_frames(frames.take(f)) + frames[f].bubbles.take(b);
    let more = bubbles_of_frames(frames.take(f)) + frames[f].bubbles.take(b + 1);
    assert(more.drop_last() =~= seen);
}

/// All bubbles of the frames before `f` and of frame `f`.
proof fn lemma_next_frame(frames: Seq<FrameView>, f: int)
    requires
        0 <= f < frames.len(),
    ensures
        bubbles_of_frames(frames.take(f)) + frames[f].bubbles.take(frames[f].bubbles.len() as int) == bubbles_of_frames(
            frames.take(f + 1),
        ),
        bubbles_of_frames(frames.take(f)) + frames[f].bubbles.take(0) == bubbles_of_frames(frames.take(f)),
{
    lemma_take_step(frames, f);
    assert(frames[f].bubbles.take(frames[f].bubbles.len() as int) =~= frames[f].bubbles);
    assert(bubbles_of_frames(frames.take(f)) + frames[f].bubbles.take(0) =~= bubbles_of_frames(frames.take(f)));
}

/// The table of accepted bubbles.
pub fn accepted_rows(results: &AnalysisResults) -> (rows: Vec<BubbleRow>)
    ensures
        rows_show(rows@, accepted_only(bubbles_of_frames(results@.frames))),
        ({
            let all = results@.frames.map_values(|f: FrameView| f.bubbles).flatten().filter(
                |b: BubbleView| b.is_valid,
            );
            &&& rows@.len() == all.len()
            &&& forall|i: int| #![trigger rows@[i]] 0 <= i < all.len() ==> {
                &&& rows@[i].frame@ == all[i].frame_name
                &&& rows@[i].bubble_id == all[i].bubble_id
                &&& rows@[i].diameter_um == all[i].diameter_um
                &&& rows@[i].volume_um3 == all[i].volume_um3
                &&& rows@[i].centroid_x_px == all[i].centroid_x
                &&& rows@[i].centroid_y_px == all[i].centroid_y
            }
        }),
{
    let ghost frames = results@.frames;
    let mut rows: Vec<BubbleRow> = Vec::new();
    let n: usize = results.frames.len();
    let mut f: usize = 0;
    while f < n
        invariant
            f <= n,
            n == results.frames@.len(),
            frames == results@.frames,
            rows_show(rows@, accepted_only(bubbles_of_frames(frames.take(f as int)))),
        decreases n - f,
    {
        let frame = &results.frames[f];
        assert(frame@ == frames[f as int]);
        let m: usize = frame.bubbles.len();
        let mut b: usize = 0;
        proof {
            lemma_next_frame(frames, f as int);
        }
        while b < m
            invariant
                f < n,
                n == frames.len(),
                b <= m,
                m == frame.bubbles@.len(),
                frame@ == frames[f as int],
                rows_show(
                    rows@,
                    accepted_only(bubbles_of_frames(frames.take(f as int)) + frame@.bubbles.take(b as int)),
                ),
            decreases m - b,
        {
            proof {
                lemma_next_bubble(frames, f as int, b as int);
            }
            let bubble = &frame.bubbles[b];
            assert(bubble@ == frame@.bubbles[b as int]);
            if bubble.is_valid {
                rows.push(
                    BubbleRow {
                        frame: bubble.frame_name.clone(),
                        bubble_id: bubble.bubble_id,
                        diameter_um: bubble.diameter_um,
                        volume_um3: bubble.volume_um3,
                        centroid_x_px: bubble.centroid_x,
                        centroid_y_px: bubble.centroid_y,
                    },
                );
            }
            b += 1;
        }
        f += 1;
    }
    assert(frames.take(n as int) =~= frames);
    proof {
        rows_hold_accepted_bubbles(rows@, frames);
    }
    rows
}

/// The table of static bubbles.
pub fn static_rows(results: &AnalysisResults) -> (rows: Vec<StaticRow>)
    ensures
        static_rows_show(rows@, static_only(bubbles_of_frames(results@.frames))),
        ({
            let all = results@.frames.map_values(|f: FrameView| f.bubbles).flatten().filter(
                |b: BubbleView| b.is_static,
            );
            &&& rows@.len() == all.len()
            &&& forall|i: int| #![trigger rows@[i]] 0 <= i < all.len() ==> {
                &&& rows@[i].frame@ == all[i].frame_name
                &&& rows@[i].bubble_id == all[i].bubble_id
                &&& rows@[i].diameter_um == all[i].diameter_um
                &&& rows@[i].centroid_x_px == all[i].centroid_x
                &&& rows@[i].centroid_y_px == all[i].centroid_y
            }
        }),
{
    let ghost frames = results@.frames;
    let mut rows: Vec<StaticRow> = Vec::new();
    let n: usize = results.frames.len();
    let mut f: usize = 0;
    while f < n
        invariant
            f <= n,
            n == results.frames@.len(),
            frames == results@.frames,
            static_rows_show(rows@, static_only(bubbles_of_frames(frames.take(f as int)))),
        decreases n - f,
    {
        let frame = &results.frames[f];
        assert(frame@ == frames[f as int]);
        let m: usize = frame.bubbles.len();
        let mut b: usize = 0;
        proof {
            lemma_next_frame(frames, f as int);
        }
        while b < m
            invariant
                f < n,
                n == frames.len(),
                b <= m,
                m == frame.bubbles@.len(),
                frame@ == frames[f as int],
                static_rows_show(
                    rows@,
                    static_only(bubbles_of_frames(frames.take(f as int)) + frame@.bubbles.take(b as int)),
                ),
            decreases m - b,
        {
            proof {
                lemma_next_bubble(frames, f as int, b as int);
            }
            let bubble = &frame.bubbles[b];
            assert(bubble@ == frame@.bubbles[b as int]);
            if bubble.is_static {
                rows.push(
                    StaticRow {
                        frame: bubble.frame_name.clone(),
                        bubble_id: bubble.bubble_id,
                        diameter_um: bubble.diameter_um,
                        centroid_x_px: bubble.centroid_x,
                        centroid_y_px: bubble.centroid_y,
                    },
                );
            }
            b += 1;
        }
        f += 1;
    }
    assert(frames.take(n as int) =~= frames);
    proof {
        rows_hold_static_bubbles(rows@, frames);
    }
    rows
}

/// The diameters of some bubbles.
pub open spec fn diameters_of(bubbles: Seq<BubbleView>) -> Seq<Scalar> {
    bubbles.map_values(|b: BubbleView| b.diameter_um)
}

proof fn lemma_only_splits(a: Seq<BubbleView>, b: Seq<BubbleView>)
    ensures
        accepted_only(a + b) == accepted_only(a) + accepted_only(b),
        static_only(a + b) == static_only(a) + static_only(b),
    decreases b.len(),
{
    if b.len() == 0 {
        assert(a + b =~= a);
        assert(accepted_only(a) + accepted_only(b) =~= accepted_only(a));
        assert(static_only(a) + static_only(b) =~= static_only(a));
    } else {
        lemma_only_splits(a, b.drop_last());
        assert((a + b).drop_last() =~= a + b.drop_last());
        assert(accepted_only(a + b) =~= accepted_only(a) + accepted_only(b));
        assert(static_only(a + b) =~= static_only(a) + static_only(b));
    }
}

proof fn lemma_only_counts(bubbles: Seq<BubbleView>)
    ensures
        accepted_only(bubbles).len() == valid_count(bubbles),
        static_only(bubbles).len() == static_count(bubbles),
        diameters_of(accepted_only(bubbles)) == valid_diameters(bubbles),
    decreases bubbles.len(),
{
    if bubbles.len() > 0 {
        lemma_only_counts(bubbles.drop_last());
    }
    assert(diameters_of(accepted_only(bubbles)) =~= valid_diameters(bubbles));
}

/// The tables have a row for each bubble that the totals count, and the table of
/// accepted bubbles shows just the diameters that the statistics are made of.
pub proof fn tables_agree_with_totals(frames: Seq<FrameView>)
    ensures
        accepted_only(bubbles_of_frames(frames)).len() == accepted_in(frames),
        static_only(bubbles_of_frames(frames)).len() == static_in(frames),
        diameters_of(accepted_only(bubbles_of_frames(frames))) == diameters_in(frames),
    decreases frames.len(),
{
    if frames.len() > 0 {
        let shorter = frames.drop_last();
        tables_agree_with_totals(shorter);
        lemma_only_splits(bubbles_of_frames(shorter), frames.last().bubbles);
        lemma_only_counts(frames.last().bubbles);
    }
    assert(diameters_of(accepted_only(bubbles_of_frames(frames))) =~= diameters_in(frames));
}

/// The statistics of a sample.
#[derive(Debug)]
pub struct Summary {
    pub sample: String,
    pub n_frames: usize,
    pub n_bubbles_accepted: usize,
    pub n_bubbles_rejected: usize,
    pub n_static_rejected: usize,
    pub mean_diameter_um: Scalar,
    pub median_diameter_um: Scalar,
    pub std_diameter_um: Scalar,
    pub min_diameter_um: Scalar,
    pub max_diameter_um: Scalar,
    pub concentration_per_ul: Scalar,
    pub total_sample_volume_ul: Scalar,
}

/// The volume imaged for a sample: that of one frame times the number of frames.
pub open spec fn volume_of<C: Fn(Arithmetic) -> Scalar>(r: ResultsView, calc: C) -> Scalar {
    result_of(calc, Arithmetic::Times(r.parameters.sample_volume_per_frame_ul, r.frames.len() as usize))
}

/// The summary tells of this sample: the mean, the standard deviation and the spread of the
/// accepted diameters, which are zero without an accepted bubble, and the accepted bubbles
/// for each unit of the volume imaged, which are zero without a volume.
pub open spec fn summarizes<C: Fn(Arithmetic) -> Scalar>(s: Summary, r: ResultsView, calc: C) -> bool {
    let zero = Scalar { bits: 0 };
    let ds = diameters_in(r.frames);
    let of = if ds.len() == 0 {
        Spread { min: zero, median: zero, max: zero }
    } else {
        spread_of(ds)
    };
    let volume = volume_of(r, calc);
    &&& s.sample@ == r.sample_name
    &&& s.n_frames == r.frames.len()
    &&& s.n_bubbles_accepted == accepted_in(r.frames)
    &&& s.n_bubbles_rejected == rejected_in(r.frames)
    &&& s.n_static_rejected == static_in(r.frames)
    &&& s.mean_diameter_um == if ds.len() == 0 {
        zero
    } else {
        mean_of(calc, ds)
    }
    &&& s.std_diameter_um == if ds.len() == 0 {
        zero
    } else {
        std_of(calc, ds)
    }
    &&& s.median_diameter_um == of.median
    &&& s.min_diameter_um == of.min
    &&& s.max_diameter_um == of.max
    &&& s.concentration_per_ul == if zero.less(volume) {
        result_of(calc, Arithmetic::Per(accepted_in(r.frames) as usize, volume))
    } else {
        zero
    }
    &&& s.total_sample_volume_ul == volume
}

/// `calc` was asked for every step of the summary.
pub open spec fn summary_answered<C: Fn(Arithmetic) -> Scalar>(r: ResultsView, calc: C) -> bool {
    let ds = diameters_in(r.frames);
    let volume = volume_of(r, calc);
    &&& ds.len() > 0 ==> std_answered(calc, ds)
    &&& answered(calc, Arithmetic::Times(r.parameters.sample_volume_per_frame_ul, r.frames.len() as usize))
    &&& (Scalar { bits: 0 }).less(volume) ==> answered(
        calc,
        Arithmetic::Per(accepted_in(r.frames) as usize, volume),
    )
}

/// The totals of the frames fit into machine integers.
pub open spec fn totals_fit(frames: Seq<FrameView>) -> bool {
    &&& accepted_in(frames) <= usize::MAX
    &&& rejected_in(frames) <= usize::MAX
    &&& static_in(frames) <= usize::MAX
}

/// Summarizes a sample. `calc` does the arithmetic.
pub fn summarize<C: Fn(Arithmetic) -> Scalar>(results: &AnalysisResults, calc: &C) -> (s: Summary)
    requires
        totals_fit(results@.frames),
        computes(*calc),
    ensures
        summarizes(s, results@, *calc),
        summary_answered(results@, *calc),
{
    let zero = Scalar::from_bits(0);
    let diams = results.diameters_valid();
    let (average, deviation, of) = match spread(&diams) {
        None => (zero, zero, Spread { min: zero, median: zero, max: zero }),
        Some(of) => (mean(calc, &diams), standard_deviation(calc, &diams), of),
    };
    let n_frames: usize = results.frames.len();
    assert(results@.frames.len() == n_frames);
    let volume = ask(calc, Arithmetic::Times(results.parameters.sample_volume_per_frame_ul, n_frames));
    let accepted: usize = results.total_bubbles();
    let concentration = if zero.lt(volume) {
        ask(calc, Arithmetic::Per(accepted, volume))
    } else {
        zero
    };
    Summary {
        sample: results.sample_name.clone(),
        n_frames,
        n_bubbles_accepted: accepted,
        n_bubbles_rejected: results.total_rejected(),
        n_static_rejected: results.total_static(),
        mean_diameter_um: average,
        median_diameter_um: of.median,
        std_diameter_um: deviation,
        min_diameter_um: of.min,
        max_diameter_um: of.max,
        concentration_per_ul: concentration,
        total_sample_volume_ul: volume,
    }
}

/// A sample's name with something behind it.
fn named(sample: &String, ending: &str) -> (r: String)
    ensures
        r@ == sample@ + ending@,
{
    let mut r = sample.clone();
    r.append(ending);
    r
}

/// The name of the file with the summary of a sample.
pub fn summary_file(sample: &String) -> (r: String)
    ensures
        r@ == sample@ + "_summary.json"@,
{
    named(sample, "_summary.json")
}

/// The table of accepted bubbles with the name of its file.
#[derive(Debug)]
pub struct BubbleTable {
    pub file_name: String,
    pub rows: Vec<BubbleRow>,
}

/// The table of static bubbles with the name of its file.
#[derive(Debug)]
pub struct StaticTable {
    pub file_name: String,
    pub rows: Vec<StaticRow>,
}

/// The files that a sample is written to.
#[derive(Debug)]
pub struct SampleFiles {
    pub bubbles: BubbleTable,
    pub statics: Option<StaticTable>,
    pub summary_name: String,
    pub summary: Summary,
}

/// The table of accepted bubbles that goes along with an export.
pub fn export_csv_accepted(results: &AnalysisResults) -> (t: BubbleTable)
    ensures
        t.file_name@ == results@.sample_name + "_bubble_data.csv"@,
        rows_show(t.rows@, accepted_only(bubbles_of_frames(results@.frames))),
{
    BubbleTable { file_name: named(&results.sample_name, "_bubble_data.csv"), rows: accepted_rows(results) }
}

/// The files of one sample: the accepted bubbles, the static ones where there are any,
/// and the summary. `calc` does the arithmetic.
pub fn export<C: Fn(Arithmetic) -> Scalar>(results: &AnalysisResults, calc: &C) -> (files: SampleFiles)
    requires
        totals_fit(results@.frames),
        computes(*calc),
    ensures
        files.bubbles.file_name@ == results@.sample_name + "_bubble_data_full.csv"@,
        rows_show(files.bubbles.rows@, accepted_only(bubbles_of_frames(results@.frames))),
        files.statics is None <==> static_in(results@.frames) == 0,
        files.statics matches Some(t) ==> {
            &&& t.file_name@ == results@.sample_name + "_static_rejects.csv"@
            &&& static_rows_show(t.rows@, static_only(bubbles_of_frames(results@.frames)))
        },
        files.summary_name@ == results@.sample_name + "_summary.json"@,
        summarizes(files.summary, results@, *calc),
        summary_answered(results@, *calc),
{
    proof {
        tables_agree_with_totals(results@.frames);
    }
    let rows = static_rows(results);
    let statics = if rows.len() == 0 {
        None
    } else {
        Some(StaticTable { file_name: named(&results.sample_name, "_static_rejects.csv"), rows })
    };
    SampleFiles {
        bubbles: BubbleTable {
            file_name: named(&results.sample_name, "_bubble_data_full.csv"),
            rows: accepted_rows(results),
        },
        statics,
        summary_name: summary_file(&results.sample_name),
        summary: summarize(results, calc),
    }
}

/// How a bubble is drawn on an overlay.
#[derive(Clone, Copy, Debug, PartialEq, Eq, Structural)]
pub struct Mark {
    pub bubble: usize,
    pub color: Color,
    pub dashed: bool,
    pub labelled: bool,
}

/// Whether a bubble is drawn: static, accepted and rejected ones each have a switch.
pub open spec fn drawn(b: BubbleView, opts: ExportOpts) -> bool {
    if b.is_static {
        opts.show_static
    } else if b.is_valid {
        opts.show_bubbles
    } else {
        opts.show_rejected
    }
}

/// The mark of the bubble at position `i`: a dashed yellow circle for a static one, a
/// green circle with the diameter in it for an accepted one, else a red circle.
pub open spec fn mark_of(b: BubbleView, i: int) -> Mark {
    Mark {
        bubble: i as usize,
        color: if b.is_static {
            Color { red: 255, green: 234, blue: 0 }
        } else if b.is_valid {
            Color { red: 0, green: 200, blue: 0 }
        } else {
            Color { red: 255, green: 23, blue: 68 }
        },
        dashed: b.is_static,
        labelled: b.is_valid && !b.is_static,
    }
}

/// The marks of the first `n` bubbles, in order.
pub open spec fn marks_of(bubbles: Seq<BubbleView>, opts: ExportOpts, n: int) -> Seq<Mark>
    decreases n,
{
    if n <= 0 {
        Seq::empty()
    } else if drawn(bubbles[n - 1], opts) {
        marks_of(bubbles, opts, n - 1).push(mark_of(bubbles[n - 1], n - 1))
    } else {
        marks_of(bubbles, opts, n - 1)
    }
}

/// The marks that make the overlay of a frame.
pub fn overlay_marks(frame: &FrameResult, opts: &ExportOpts) -> (marks: Vec<Mark>)
    ensures
        marks@ == marks_of(frame@.bubbles, *opts, frame@.bubbles.len() as int),
{
    let mut marks: Vec<Mark> = Vec::new();
    let n: usize = frame.bubbles.len();
    let mut i: usize = 0;
    while i < n
        invariant
            i <= n,
            n == frame.bubbles@.len(),
            marks@ == marks_of(frame@.bubbles, *opts, i as int),
        decreases n - i,
    {
        let b = &frame.bubbles[i];
        assert(b@ == frame@.bubbles[i as int]);
        let draw_it: bool = if b.is_static {
            opts.show_static
        } else if b.is_valid {
            opts.show_bubbles
        } else {
            opts.show_rejected
        };
        if draw_it {
            let color = if b.is_static {
                Color { red: 255, green: 234, blue: 0 }
            } else if b.is_valid {
                Color { red: 0, green: 200, blue: 0 }
            } else {
                Color { red: 255, green: 23, blue: 68 }
            };
            marks.push(Mark { bubble: i, color, dashed: b.is_static, labelled: b.is_valid && !b.is_static });
        }
        i += 1;
    }
    marks
}

/// The left end of the plot in a histogram.
pub const PLOT_LEFT: i32 = 70;

/// The top of the plot in a histogram.
pub const PLOT_TOP: i32 = 40;

/// The right end of the plot in a histogram.
pub const PLOT_RIGHT: i32 = 880;

/// The bottom of the plot in a histogram.
pub const PLOT_BOTTOM: i32 = 480;

/// The width that a bin takes in the plot.
pub const BIN_PX: i32 = 27;

/// The bar of bin `i` with height `h`: it leaves a pixel free on either side.
pub open spec fn bar_of(i: int, h: i32) -> Area {
    Area {
        left: (PLOT_LEFT + i * BIN_PX + 1) as i32,
        top: (PLOT_BOTTOM - h) as i32,
        width: (BIN_PX - 2) as u32,
        height: h as u32,
    }
}

/// The height of the bar of a bin that counts `c`.
pub open spec fn bar_height<E: Fn(Scaled) -> Scalar, H: Fn((Scalar, Scalar)) -> i32>(
    evaluate: E,
    height: H,
    c: u32,
    total: usize,
    n_frames: usize,
    mode: HistAxisMode,
    y_max: Scalar,
) -> i32 {
    result_of(height, (result_of(evaluate, scaled(c, total, n_frames, mode)), y_max))
}

/// The bars of the first `n` bins; empty bins and bars of no height are left out.
pub open spec fn bars_of<E: Fn(Scaled) -> Scalar, H: Fn((Scalar, Scalar)) -> i32>(
    evaluate: E,
    height: H,
    counts: Seq<u32>,
    total: usize,
    n_frames: usize,
    mode: HistAxisMode,
    y_max: Scalar,
    n: int,
) -> Seq<Area>
    decreases n,
{
    if n <= 0 {
        Seq::empty()
    } else {
        let rest = bars_of(evaluate, height, counts, total, n_frames, mode, y_max, n - 1);
        let h = bar_height(evaluate, height, counts[n - 1], total, n_frames, mode, y_max);
        if counts[n - 1] == 0 || h <= 0 {
            rest
        } else {
            rest.push(bar_of(n - 1, h))
        }
    }
}

/// The closures were asked about every bin that is not empty.
pub open spec fn bars_asked<E: Fn(Scaled) -> Scalar, H: Fn((Scalar, Scalar)) -> i32>(
    evaluate: E,
    height: H,
    counts: Seq<u32>,
    total: usize,
    n_frames: usize,
    mode: HistAxisMode,
    y_max: Scalar,
    n: int,
) -> bool {
    forall|k: int|
        0 <= k < n && (#[trigger] counts[k]) != 0 ==> {
            let v = scaled(counts[k], total, n_frames, mode);
            &&& answered(evaluate, v)
            &&& answered(height, (result_of(evaluate, v), y_max))
        }
}

/// The bars of a histogram.
pub fn histogram_bars<E: Fn(Scaled) -> Scalar, H: Fn((Scalar, Scalar)) -> i32>(
    counts: &Vec<u32>,
    total: usize,
    n_frames: usize,
    mode: HistAxisMode,
    y_max: Scalar,
    evaluate: &E,
    height: &H,
) -> (bars: Vec<Area>)
    requires
        computes(*evaluate),
        computes(*height),
        counts@.len() == EXPORT_BINS,
    ensures
        bars@ == bars_of(*evaluate, *height, counts@, total, n_frames, mode, y_max, EXPORT_BINS as int),
        bars_asked(*evaluate, *height, counts@, total, n_frames, mode, y_max, EXPORT_BINS as int),
        forall|k: int| 0 <= k < bars@.len() ==> (#[trigger] bars@[k]).wf(),
{
    let mut bars: Vec<Area> = Vec::new();
    let mut i: usize = 0;
    while i < EXPORT_BINS
        invariant
            i <= EXPORT_BINS,
            counts@.len() == EXPORT_BINS,
            computes(*evaluate),
            computes(*height),
            bars@ == bars_of(*evaluate, *height, counts@, total, n_frames, mode, y_max, i as int),
            bars_asked(*evaluate, *height, counts@, total, n_frames, mode, y_max, i as int),
            forall|k: int| 0 <= k < bars@.len() ==> (#[trigger] bars@[k]).wf(),
        decreases EXPORT_BINS - i,
    {
        let c: u32 = counts[i];
        if c != 0 {
            let v = ask(evaluate, scaled_value(c, total, n_frames, mode));
            let h: i32 = ask(height, (v, y_max));
            if h > 0 {
                let left: i32 = PLOT_LEFT + i as i32 * BIN_PX + 1;
                bars.push(Area { left, top: PLOT_BOTTOM - h, width: (BIN_PX - 2) as u32, height: h as u32 });
            }
        }
        i += 1;
    }
    bars
}

/// The data of a picture with the first `n` bars painted in order.
pub open spec fn bars_painted(width: u32, data: Seq<u8>, bars: Seq<Area>, color: Color, n: int) -> Seq<u8>
    decreases n,
{
    if n <= 0 {
        data
    } else {
        filled(width, bars_painted(width, data, bars, color, n - 1), bars[n - 1], color)
    }
}

/// There is something to plot: the horizontal axis goes up and the vertical one ends
/// above zero, as far as can be told.
pub open spec fn plottable(x_min: Scalar, x_max: Scalar, y_max: Scalar) -> bool {
    !x_max.at_most(x_min) && !y_max.at_most(Scalar { bits: 0 })
}

/// Paints the bars of a histogram, and tells whether there was anything to plot; if
/// not, the picture stays as it is. `slot` names the bin of a diameter, `evaluate`
/// divides a scaled count out, `height` gives the height of a value in the plot.
pub fn paint_histogram<F: Fn(Slot) -> usize, E: Fn(Scaled) -> Scalar, H: Fn((Scalar, Scalar)) -> i32>(
    img: &mut Picture,
    diams: &Vec<Scalar>,
    n_frames: usize,
    x_min: Scalar,
    x_max: Scalar,
    y_max: Scalar,
    mode: HistAxisMode,
    bar_color: Color,
    slot: &F,
    evaluate: &E,
    height: &H,
) -> (plotted: bool)
    requires
        old(img).wf(),
        old(img).width == HIST_W,
        old(img).height == HIST_H,
        computes(*slot),
        computes(*evaluate),
        computes(*height),
        diams@.len() <= u32::MAX,
    ensures
        plotted == plottable(x_min, x_max, y_max),
        plotted == (!x_max.at_most(x_min) && !y_max.at_most(Scalar { bits: 0 })),
        final(img).wf(),
        final(img).width == old(img).width,
        final(img).height == old(img).height,
        !plotted ==> final(img).data@ == old(img).data@,
        plotted ==> {
            let counts = bins_of(*slot, x_min, x_max, EXPORT_BINS, diams@);
            let total = diams@.len() as usize;
            let bars = bars_of(*evaluate, *height, counts, total, n_frames, mode, y_max, EXPORT_BINS as int);
            &&& final(img).data@ == bars_painted(old(img).width, old(img).data@, bars, bar_color, bars.len() as int)
            &&& slots_asked(*slot, x_min, x_max, EXPORT_BINS, diams@)
            &&& bars_asked(*evaluate, *height, counts, total, n_frames, mode, y_max, EXPORT_BINS as int)
        },
{
    if x_max.le(x_min) || y_max.le(Scalar::from_bits(0)) {
        return false;
    }
    let counts = bin_counts(diams, x_min, x_max, EXPORT_BINS, slot);
    let bars = histogram_bars(&counts, diams.len(), n_frames, mode, y_max, evaluate, height);
    let ghost start = img.data@;
    let n: usize = bars.len();
    let mut i: usize = 0;
    while i < n
        invariant
            i <= n,
            n == bars@.len(),
            forall|k: int| 0 <= k < bars@.len() ==> (#[trigger] bars@[k]).wf(),
            img.wf(),
            img.width == HIST_W,
            img.height == HIST_H,
            img.data@ == bars_painted(HIST_W, start, bars@, bar_color, i as int),
        decreases n - i,
    {
        img.fill(bars[i], bar_color);
        i += 1;
    }
    true
}

/// Bars no higher than the plot stay in it, and those of two bins lie side by side.
pub proof fn bars_stay_apart(i: int, h: i32, j: int, g: i32)
    requires
        0 <= i < j < EXPORT_BINS,
        0 < h <= PLOT_BOTTOM - PLOT_TOP,
        0 < g <= PLOT_BOTTOM - PLOT_TOP,
    ensures
        PLOT_LEFT < bar_of(i, h).left,
        bar_of(i, h).left + bar_of(i, h).width < bar_of(j, g).left,
        bar_of(j, g).left + bar_of(j, g).width < PLOT_RIGHT,
        PLOT_TOP <= bar_of(i, h).top,
        bar_of(i, h).top + bar_of(i, h).height == PLOT_BOTTOM,
        40 <= bar_of(i, h).top,
        bar_of(j, g).left + bar_of(j, g).width < 880,
        PLOT_LEFT + 30 * BIN_PX == PLOT_RIGHT,
{
}

/// The columns of the ticks below the plot.
pub fn x_ticks() -> (r: Vec<i32>)
    ensures
        r@ == Seq::new(7, |k: int| (PLOT_LEFT + 135 * k) as i32),
{
    let mut r: Vec<i32> = Vec::new();
    let mut k: i32 = 0;
    while k < 7
        invariant
            0 <= k <= 7,
            r@ == Seq::new(k as nat, |j: int| (PLOT_LEFT + 135 * j) as i32),
        decreases 7 - k,
    {
        r.push(PLOT_LEFT + 135 * k);
        assert(r@ =~= Seq::new((k + 1) as nat, |j: int| (PLOT_LEFT + 135 * j) as i32));
        k += 1;
    }
    r
}

/// The rows of the ticks left of the plot, from the bottom up.
pub fn y_ticks() -> (r: Vec<i32>)
    ensures
        r@ == Seq::new(6, |k: int| (PLOT_BOTTOM - 88 * k) as i32),
{
    let mut r: Vec<i32> = Vec::new();
    let mut k: i32 = 0;
    while k < 6
        invariant
            0 <= k <= 6,
            r@ == Seq::new(k as nat, |j: int| (PLOT_BOTTOM - 88 * j) as i32),
        decreases 6 - k,
    {
        r.push(PLOT_BOTTOM - 88 * k);
        assert(r@ =~= Seq::new((k + 1) as nat, |j: int| (PLOT_BOTTOM - 88 * j) as i32));
        k += 1;
    }
    r
}

/// The bubbles of all frames are listed one frame after the other, and the tables pick among
/// them by the bubbles' own marks.
pub proof fn tables_pick_by_marks(frames: Seq<FrameView>)
    ensures
        bubbles_of_frames(frames) == frames.map_values(|f: FrameView| f.bubbles).flatten(),
        accepted_only(bubbles_of_frames(frames)) == frames.map_values(|f: FrameView| f.bubbles).flatten().filter(
            |b: BubbleView| b.is_valid,
        ),
        static_only(bubbles_of_frames(frames)) == frames.map_values(|f: FrameView| f.bubbles).flatten().filter(
            |b: BubbleView| b.is_static,
        ),
    decreases frames.len(),
{
    let all = frames.map_values(|f: FrameView| f.bubbles).flatten();
    if frames.len() == 0 {
        assert(bubbles_of_frames(frames) =~= all);
    } else {
        tables_pick_by_marks(frames.drop_last());
        lemma_bubbles_of_last(frames);
    }
    lemma_only_filters(bubbles_of_frames(frames));
}

proof fn lemma_only_filters(bubbles: Seq<BubbleView>)
    ensures
        accepted_only(bubbles) == bubbles.filter(|b: BubbleView| b.is_valid),
        static_only(bubbles) == bubbles.filter(|b: BubbleView| b.is_static),
    decreases bubbles.len(),
{
    reveal(Seq::filter);
    if bubbles.len() > 0 {
        lemma_only_filters(bubbles.drop_last());
    }
}

/// Each row of the table of accepted bubbles holds what one accepted bubble holds, and each
/// accepted bubble has its row, in order.
pub proof fn rows_hold_accepted_bubbles(rows: Seq<BubbleRow>, frames: Seq<FrameView>)
    requires
        rows_show(rows, accepted_only(bubbles_of_frames(frames))),
    ensures
        ({
            let all = frames.map_values(|f: FrameView| f.bubbles).flatten().filter(
                |b: BubbleView| b.is_valid,
            );
            &&& rows.len() == all.len()
            &&& forall|i: int| #![trigger rows[i]] 0 <= i < all.len() ==> {
                &&& rows[i].frame@ == all[i].frame_name
                &&& rows[i].bubble_id == all[i].bubble_id
                &&& rows[i].diameter_um == all[i].diameter_um
                &&& rows[i].volume_um3 == all[i].volume_um3
                &&& rows[i].centroid_x_px == all[i].centroid_x
                &&& rows[i].centroid_y_px == all[i].centroid_y
            }
        }),
{
    tables_pick_by_marks(frames);
    let all = frames.map_values(|f: FrameView| f.bubbles).flatten().filter(|b: BubbleView| b.is_valid);
    assert forall|i: int| 0 <= i < all.len() implies (#[trigger] rows[i]).shows(all[i]) by {}
}

/// Each row of the table of static bubbles holds what one static bubble holds, and each static
/// bubble has its row, in order.
pub proof fn rows_hold_static_bubbles(rows: Seq<StaticRow>, frames: Seq<FrameView>)
    requires
        static_rows_show(rows, static_only(bubbles_of_frames(frames))),
    ensures
        ({
            let all = frames.map_values(|f: FrameView| f.bubbles).flatten().filter(
                |b: BubbleView| b.is_static,
            );
            &&& rows.len() == all.len()
            &&& forall|i: int| #![trigger rows[i]] 0 <= i < all.len() ==> {
                &&& rows[i].frame@ == all[i].frame_name
                &&& rows[i].bubble_id == all[i].bubble_id
                &&& rows[i].diameter_um == all[i].diameter_um
                &&& rows[i].centroid_x_px == all[i].centroid_x
                &&& rows[i].centroid_y_px == all[i].centroid_y
            }
        }),
{
    tables_pick_by_marks(frames);
    let all = frames.map_values(|f: FrameView| f.bubbles).flatten().filter(|b: BubbleView| b.is_static);
    assert forall|i: int| 0 <= i < all.len() implies (#[trigger] rows[i]).shows(all[i]) by {}
}

/// A summary counts the bubbles of all frames by their marks, and its mean, deviation and
/// concentration come from the accepted ones. Its spread halves their diameters. Without an
/// accepted bubble these are zero.
pub proof fn summary_tells_of_all_bubbles<C: Fn(Arithmetic) -> Scalar>(s: Summary, r: ResultsView, calc: C)
    requires
        summarizes(s, r, calc),
        totals_fit(r.frames),
    ensures
        ({
            let all = r.frames.map_values(|f: FrameView| f.bubbles).flatten();
            let ds = all.filter(|b: BubbleView| b.is_valid).map_values(|b: BubbleView| b.diameter_um);
            let zero = Scalar { bits: 0 };
            let add_up = |sum: Scalar, x: Scalar| result_of(calc, Arithmetic::Sum(sum, x));
            let middle = result_of(calc, Arithmetic::Share(ds.fold_left(zero, add_up), ds.len() as usize));
            let squares = ds.map_values(|x: Scalar| result_of(calc, Arithmetic::Deviation(x, middle)));
            let volume = result_of(
                calc,
                Arithmetic::Times(r.parameters.sample_volume_per_frame_ul, r.frames.len() as usize),
            );
            &&& s.sample@ == r.sample_name
            &&& s.n_frames == r.frames.len()
            &&& s.n_bubbles_accepted == ds.len()
            &&& s.n_static_rejected == all.filter(|b: BubbleView| b.is_static).len()
            &&& s.n_bubbles_rejected == r.frames.fold_left(0int, |sum: int, f: FrameView| sum + f.num_rejected)
            &&& s.total_sample_volume_ul == volume
            &&& zero.less(volume) ==> s.concentration_per_ul == result_of(calc, Arithmetic::Per(ds.len() as usize, volume))
            &&& !zero.less(volume) ==> s.concentration_per_ul == zero
            &&& ds.len() > 0 ==> s.mean_diameter_um == middle && s.std_diameter_um == result_of(
                calc,
                Arithmetic::Root(
                    result_of(calc, Arithmetic::Share(squares.fold_left(zero, add_up), ds.len() as usize)),
                ),
            )
            &&& ds.len() == 0 ==> s.mean_diameter_um == zero && s.std_diameter_um == zero && s.median_diameter_um == zero
                && s.min_diameter_um == zero && s.max_diameter_um == zero
        }),
        ({
            let all = r.frames.map_values(|f: FrameView| f.bubbles).flatten();
            let ds = all.filter(|b: BubbleView| b.is_valid).map_values(|b: BubbleView| b.diameter_um);
            ds.len() > 0 && (forall|k: int| 0 <= k < ds.len() ==> !(#[trigger] ds[k]).nan()) ==> {
                &&& ds.contains(s.min_diameter_um)
                &&& ds.contains(s.median_diameter_um)
                &&& ds.contains(s.max_diameter_um)
                &&& ds.filter(|d: Scalar| s.min_diameter_um.at_most(d)).len() == ds.len()
                &&& ds.filter(|d: Scalar| d.at_most(s.max_diameter_um)).len() == ds.len()
                &&& ds.filter(|d: Scalar| d.at_most(s.median_diameter_um)).len() >= ds.len() / 2 + 1
                &&& ds.filter(|d: Scalar| s.median_diameter_um.at_most(d)).len() >= ds.len() - ds.len() / 2
            }
        }),
{
    totals_pick_by_marks(r.frames);
    let ds = diameters_in(r.frames);
    mean_takes_each_number_once(calc, ds);
    deviation_takes_each_number_once(calc, ds);
    if ds.len() > 0 && forall|k: int| 0 <= k < ds.len() ==> !(#[trigger] ds[k]).nan() {
        spread_halves_diameters(ds);
    }
}

/// The marks of the first `n` bubbles name the bubbles that are drawn, each once and in order.
proof fn lemma_marks(bubbles: Seq<BubbleView>, opts: ExportOpts, n: int)
    requires
        0 <= n <= bubbles.len() <= usize::MAX,
    ensures
        ({
            let marks = marks_of(bubbles, opts, n);
            &&& forall|k: int|
                0 <= k < marks.len() ==> (#[trigger] marks[k]).bubble < n && drawn(bubbles[marks[k].bubble as int], opts)
                    && marks[k] == mark_of(bubbles[marks[k].bubble as int], marks[k].bubble as int)
            &&& forall|k: int, l: int|
                0 <= k < l < marks.len() ==> (#[trigger] marks[k]).bubble < (#[trigger] marks[l]).bubble
        }),
    decreases n,
{
    if n > 0 {
        lemma_marks(bubbles, opts, n - 1);
        let marks = marks_of(bubbles, opts, n);
        let before = marks_of(bubbles, opts, n - 1);
        assert forall|k: int| 0 <= k < marks.len() implies (#[trigger] marks[k]).bubble < n && drawn(
            bubbles[marks[k].bubble as int],
            opts,
        ) && marks[k] == mark_of(bubbles[marks[k].bubble as int], marks[k].bubble as int) by {
            if k < before.len() {
                assert(marks[k] == before[k]);
            }
        }
        assert forall|k: int, l: int| 0 <= k < l < marks.len() implies (#[trigger] marks[k]).bubble < (
        #[trigger] marks[l]).bubble by {
            assert(marks[k] == before[k]);
            if l < before.len() {
                assert(marks[l] == before[l]);
            }
        }
    }
}

proof fn lemma_marked(bubbles: Seq<BubbleView>, opts: ExportOpts, n: int, i: int)
    requires
        0 <= i < n <= bubbles.len() <= usize::MAX,
        drawn(bubbles[i], opts),
    ensures
        marks_of(bubbles, opts, n).contains(mark_of(bubbles[i], i)),
    decreases n,
{
    let marks = marks_of(bubbles, opts, n);
    if i < n - 1 {
        lemma_marked(bubbles, opts, n - 1, i);
        let before = marks_of(bubbles, opts, n - 1);
        assert(marks[before.index_of(mark_of(bubbles[i], i))] == mark_of(bubbles[i], i));
    } else {
        assert(marks[marks.len() - 1] == mark_of(bubbles[i], i));
    }
}

/// An overlay marks the bubble at `i` just where the switch for its sort is on: a static one in
/// dashed yellow, an accepted one in green with its diameter, a rejected one in red. Each
/// bubble has at most one mark, and the marks follow the order of the bubbles.
pub proof fn overlay_marks_by_sort(bubbles: Seq<BubbleView>, opts: ExportOpts, i: int)
    requires
        0 <= i < bubbles.len() <= usize::MAX,
    ensures
        ({
            let marks = marks_of(bubbles, opts, bubbles.len() as int);
            let b = bubbles[i];
            &&& b.is_static && opts.show_static ==> marks.contains(
                Mark {
                    bubble: i as usize,
                    color: Color { red: 255, green: 234, blue: 0 },
                    dashed: true,
                    labelled: false,
                },
            )
            &&& !b.is_static && b.is_valid && opts.show_bubbles ==> marks.contains(
                Mark {
                    bubble: i as usize,
                    color: Color { red: 0, green: 200, blue: 0 },
                    dashed: false,
                    labelled: true,
                },
            )
            &&& !b.is_static && !b.is_valid && opts.show_rejected ==> marks.contains(
                Mark {
                    bubble: i as usize,
                    color: Color { red: 255, green: 23, blue: 68 },
                    dashed: false,
                    labelled: false,
                },
            )
            &&& (exists|k: int| 0 <= k < marks.len() && (#[trigger] marks[k]).bubble == i) ==> (b.is_static && opts.show_static)
                || (!b.is_static && b.is_valid && opts.show_bubbles) || (!b.is_static && !b.is_valid && opts.show_rejected)
            &&& forall|k: int, l: int|
                0 <= k < l < marks.len() ==> (#[trigger] marks[k]).bubble < (#[trigger] marks[l]).bubble < bubbles.len()
        }),
{
    let n = bubbles.len() as int;
    lemma_marks(bubbles, opts, n);
    if drawn(bubbles[i], opts) {
        lemma_marked(bubbles, opts, n, i);
    }
}

proof fn lemma_bars<E: Fn(Scaled) -> Scalar, H: Fn((Scalar, Scalar)) -> i32>(
    evaluate: E,
    height: H,
    counts: Seq<u32>,
    total: usize,
    n_frames: usize,
    mode: HistAxisMode,
    y_max: Scalar,
    n: int,
) -> (at: Seq<int>)
    requires
        0 <= n <= EXPORT_BINS,
    ensures
        ({
            let bars = bars_of(evaluate, height, counts, total, n_frames, mode, y_max, n);
            &&& at.len() == bars.len()
            &&& forall|k: int|
                0 <= k < at.len() ==> 0 <= #[trigger] at[k] < n && counts[at[k]] > 0 && ({
                    let h = bar_height(evaluate, height, counts[at[k]], total, n_frames, mode, y_max);
                    h > 0 && bars[k] == bar_of(at[k], h)
                })
            &&& forall|k: int, l: int| 0 <= k < l < at.len() ==> #[trigger] at[k] < #[trigger] at[l]
            &&& forall|i: int|
                0 <= i < n && #[trigger] counts[i] > 0 && bar_height(
                    evaluate,
                    height,
                    counts[i],
                    total,
                    n_frames,
                    mode,
                    y_max,
                ) > 0 ==> at.contains(i)
        }),
    decreases n,
{
    if n <= 0 {
        Seq::empty()
    } else {
        let before = lemma_bars(evaluate, height, counts, total, n_frames, mode, y_max, n - 1);
        let h = bar_height(evaluate, height, counts[n - 1], total, n_frames, mode, y_max);
        if counts[n - 1] == 0 || h <= 0 {
            before
        } else {
            let at = before.push(n - 1);
            assert forall|i: int|
                0 <= i < n && #[trigger] counts[i] > 0 && bar_height(
                    evaluate,
                    height,
                    counts[i],
                    total,
                    n_frames,
                    mode,
                    y_max,
                ) > 0 implies at.contains(i) by {
                if i < n - 1 {
                    assert(at[before.index_of(i)] == i);
                } else {
                    assert(at[at.len() - 1] == i);
                }
            }
            at
        }
    }
}

/// There is a bar for each bin that counts something and whose scaled count has a height, and
/// for no other: at the bin's own place, from the bottom of the plot up, as high as that. The
/// bars follow the order of the bins.
pub proof fn bars_stand_for_their_bins<E: Fn(Scaled) -> Scalar, H: Fn((Scalar, Scalar)) -> i32>(
    evaluate: E,
    height: H,
    counts: Seq<u32>,
    total: usize,
    n_frames: usize,
    mode: HistAxisMode,
    y_max: Scalar,
) -> (at: Seq<int>)
    ensures
        at.len() == bars_of(evaluate, height, counts, total, n_frames, mode, y_max, EXPORT_BINS as int).len(),
        forall|k: int|
            #![trigger at[k]]
            0 <= k < at.len() ==> {
                let bar = bars_of(evaluate, height, counts, total, n_frames, mode, y_max, EXPORT_BINS as int)[k];
                let h = result_of(
                    height,
                    (result_of(evaluate, scaled(counts[at[k]], total, n_frames, mode)), y_max),
                );
                &&& 0 <= at[k] < 30
                &&& counts[at[k]] > 0
                &&& h > 0
                &&& bar.left == 70 + 27 * at[k] + 1
                &&& bar.width == 25
                &&& bar.top + h == 480
                &&& bar.height == h
            },
        forall|k: int, l: int| 0 <= k < l < at.len() ==> #[trigger] at[k] < #[trigger] at[l],
        forall|i: int|
            0 <= i < 30 && #[trigger] counts[i] > 0 && result_of(
                height,
                (result_of(evaluate, scaled(counts[i], total, n_frames, mode)), y_max),
            ) > 0 ==> at.contains(i),
{
    lemma_bars(evaluate, height, counts, total, n_frames, mode, y_max, EXPORT_BINS as int)
}

/// After bars are painted, a byte that belongs to a pixel in one of them is that of the colour,
/// and every other byte is as it was.
pub proof fn painted_bars_show(width: u32, data: Seq<u8>, bars: Seq<Area>, color: Color, n: int, i: int)
    requires
        0 <= n <= bars.len(),
        0 <= i < data.len(),
        0 < width,
    ensures
        ({
            let x = (i / 3) % (width as int);
            let y = (i / 3) / (width as int);
            let after = bars_painted(width, data, bars, color, n);
            let inside = exists|k: int|
                0 <= k < n && (#[trigger] bars[k]).left <= x < bars[k].left + bars[k].width && bars[k].top <= y
                    < bars[k].top + bars[k].height;
            &&& after.len() == data.len()
            &&& inside && i % 3 == 0 ==> after[i] == color.red
            &&& inside && i % 3 == 1 ==> after[i] == color.green
            &&& inside && i % 3 == 2 ==> after[i] == color.blue
            &&& !inside ==> after[i] == data[i]
        }),
    decreases n,
{
    if n > 0 {
        painted_bars_show(width, data, bars, color, n - 1, i);
    }
}

} // verus!
