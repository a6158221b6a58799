//! The list of results and what is picked from it.
use crate::app::AppState;
use crate::app::AppView;
use crate::calc::answered;
use crate::calc::ask;
use crate::calc::computes;
use crate::calc::result_of;
use crate::exporter::totals_fit;
use crate::histogram::all_diameters;
use crate::histogram::bin_counts;
use crate::histogram::bins_of;
use crate::histogram::global_diameter_range;
use crate::histogram::range_of;
use crate::histogram::scaled;
use crate::histogram::scaled_value;
use crate::histogram::slots_asked;
use crate::histogram::spread;
use crate::histogram::spread_of;
use crate::histogram::y_ceiling;
use crate::histogram::HUNDRED_BITS;
use crate::histogram::HistAxisMode;
use crate::histogram::Scaled;
use crate::histogram::Slot;
use crate::histogram::Spread;
use crate::scalar::ONE_BITS;
use crate::scalar::Scalar;
use crate::statistics::mean;
use crate::statistics::mean_answered;
use crate::statistics::mean_of;
use crate::statistics::Arithmetic;
use crate::text::count_text;
use crate::text::decimal;
use crate::text::opt_text;
use crate::types::accepted_in;
use crate::types::diameters_in;
use crate::types::lemma_take_step;
use crate::types::rejected_in;
use crate::types::static_in;
use crate::types::AnalysisResults;
use crate::types::ResultsView;
use crate::viewer::ViewerState;
use vstd::prelude::*;
use vstd::string::StringExecFns;

verus! {

/// The results of one folder.
#[derive(Debug)]
pub struct ResultEntry {
    pub name: String,
    pub source_path: String,
    pub results: AnalysisResults,
    pub visible: bool,
    pub selection_order: Option<u32>,
    pub static_note: Option<String>,
}

/// The results of one folder with texts and lists as sequences.
pub struct ResultView {
    pub name: Seq<char>,
    pub source_path: Seq<char>,
    pub results: ResultsView,
    pub visible: bool,
    pub selection_order: Option<u32>,
    pub static_note: Option<Seq<char>>,
}

impl View for ResultEntry {
    type V = ResultView;

    open spec fn view(&self) -> ResultView {
        ResultView {
            name: self.name@,
            source_path: self.source_path@,
            results: self.results@,
            visible: self.visible,
            selection_order: self.selection_order,
            static_note: opt_text(self.static_note),
        }
    }
}

/// Results with texts and lists as sequences.
pub open spec fn result_views(list: Seq<ResultEntry>) -> Seq<ResultView> {
    list.map_values(|r: ResultEntry| r@)
}

/// What the small histograms count.
#[derive(Clone, Copy, Debug, PartialEq, Eq, Structural)]
pub enum HistMode {
    AvgPerImage,
    Counts,
    Percent,
}

/// The axis of an exported histogram that counts the same.
pub open spec fn axis_of(mode: HistMode) -> HistAxisMode {
    match mode {
        HistMode::AvgPerImage => HistAxisMode::AvgPerImage,
        HistMode::Counts => HistAxisMode::Counts,
        HistMode::Percent => HistAxisMode::Percent,
    }
}

impl HistMode {
    /// The axis of an exported histogram that counts the same.
    pub fn axis_mode(self) -> (r: HistAxisMode)
        ensures
            r == axis_of(self),
            r == HistAxisMode::AvgPerImage <==> self == HistMode::AvgPerImage,
            r == HistAxisMode::Counts <==> self == HistMode::Counts,
            r == HistAxisMode::Percent <==> self == HistMode::Percent,
    {
        match self {
            HistMode::AvgPerImage => HistAxisMode::AvgPerImage,
            HistMode::Counts => HistAxisMode::Counts,
            HistMode::Percent => HistAxisMode::Percent,
        }
    }
}

/// The result in focus, where there is one.
pub open spec fn focused(s: AppView) -> Option<ResultView> {
    match s.focused_result {
        Some(i) => if i < s.results_list.len() {
            Some(s.results_list[i as int])
        } else {
            None
        },
        None => None,
    }
}

/// How many frames the result in focus has.
pub open spec fn focused_frames(s: AppView) -> nat {
    match focused(s) {
        Some(r) => r.results.frames.len(),
        None => 0,
    }
}

impl AppState {
    /// The result in focus.
    pub fn focused_results(&self) -> (r: Option<&ResultEntry>)
        ensures
            (match r {
                Some(e) => Some(e@),
                None => None,
            }) == focused(self@),
            r is Some <==> (self.focused_result matches Some(i) && i < self.results_list@.len()),
            r matches Some(e) ==> *e == self.results_list@[self.focused_result.unwrap() as int],
    {
        match self.focused_result {
            Some(i) => {
                if i < self.results_list.len() {
                    assert(self@.results_list[i as int] == self.results_list@[i as int]@);
                    Some(&self.results_list[i])
                } else {
                    None
                }
            },
            None => None,
        }
    }

    /// How many frames the result in focus has.
    pub fn frame_count(&self) -> (r: usize)
        ensures
            r == focused_frames(self@),
            self.focused_result is None ==> r == 0,
            self.focused_result matches Some(i) ==> r == (if i < self.results_list@.len() {
                self.results_list@[i as int].results.frames@.len()
            } else {
                0
            }),
    {
        match self.focused_results() {
            Some(e) => {
                assert(e@.results.frames.len() == e.results.frames.len());
                e.results.frames.len()
            },
            None => 0,
        }
    }
}

/// The view on the first frame, not enlarged.
pub open spec fn refocused(v: ViewerState) -> ViewerState {
    ViewerState {
        current_frame: 0,
        texture_for: None,
        zoom: Scalar { bits: ONE_BITS },
        pan_x: Scalar { bits: 0 },
        pan_y: Scalar { bits: 0 },
        ..v
    }
}

impl AppState {
    /// Shows the first frame, not enlarged.
    fn refocus(&mut self)
        ensures
            final(self)@ == (AppView { viewer: refocused(old(self)@.viewer), ..old(self)@ }),
    {
        self.viewer.current_frame = 0;
        self.viewer.texture_for = None;
        self.viewer.zoom = Scalar::from_bits(ONE_BITS);
        self.viewer.pan_x = Scalar::from_bits(0);
        self.viewer.pan_y = Scalar::from_bits(0);
    }

    /// Gives up all results.
    pub fn clear_results(&mut self)
        ensures
            final(self)@ == (AppView {
                results_list: Seq::empty(),
                focused_result: None,
                viewer: refocused(old(self)@.viewer),
                undo_stack: Seq::empty(),
                status: "Results cleared."@,
                ..old(self)@
            }),
    {
        self.results_list.clear();
        self.focused_result = None;
        self.refocus();
        self.undo_stack.clear();
        self.status = "Results cleared.".to_owned();
        proof {
            assert(self@.results_list =~= Seq::empty());
            assert(self@.undo_stack =~= Seq::empty());
        }
    }

    /// Brings a result into focus.
    pub fn focus_on(&mut self, i: usize)
        ensures
            final(self)@ == (AppView {
                focused_result: Some(i),
                viewer: refocused(old(self)@.viewer),
                ..old(self)@
            }),
    {
        self.focused_result = Some(i);
        self.refocus();
    }
}

/// How many results are ticked.
pub open spec fn ticked(list: Seq<ResultView>) -> nat
    decreases list.len(),
{
    if list.len() == 0 {
        0
    } else {
        ticked(list.drop_last()) + if list.last().visible {
            1nat
        } else {
            0nat
        }
    }
}

/// The rank that the next result to be ticked gets.
pub open spec fn rank_after(rank: u32, n: nat) -> u32 {
    ((rank + n) % 0x1_0000_0000) as u32
}

/// How many of the first `n` results are not ticked.
pub open spec fn unticked_before(list: Seq<ResultView>, n: int) -> nat
    decreases n,
{
    if n <= 0 {
        0
    } else {
        unticked_before(list, n - 1) + if list[n - 1].visible {
            0nat
        } else {
            1nat
        }
    }
}

/// The results with all of them ticked: those that were not get ranks in their order.
pub open spec fn all_ticked(list: Seq<ResultView>, rank: u32) -> Seq<ResultView> {
    Seq::new(
        list.len(),
        |i: int|
            if list[i].visible {
                list[i]
            } else {
                ResultView {
                    visible: true,
                    selection_order: Some(rank_after(rank, unticked_before(list, i))),
                    ..list[i]
                }
            },
    )
}

/// The results with none of them ticked: those that were lose their ranks.
pub open spec fn none_ticked(list: Seq<ResultView>) -> Seq<ResultView> {
    Seq::new(
        list.len(),
        |i: int|
            if list[i].visible {
                ResultView { visible: false, selection_order: None, ..list[i] }
            } else {
                list[i]
            },
    )
}

/// The state with result `i` ticked or not: a tick gives the next rank, taking one away
/// gives the rank up.
pub open spec fn with_tick(s: AppView, i: int, on: bool) -> AppView {
    if s.results_list[i].visible == on {
        s
    } else if on {
        AppView {
            results_list: s.results_list.update(
                i,
                ResultView {
                    visible: true,
                    selection_order: Some(s.next_selection_rank),
                    ..s.results_list[i]
                },
            ),
            next_selection_rank: rank_after(s.next_selection_rank, 1),
            ..s
        }
    } else {
        AppView {
            results_list: s.results_list.update(
                i,
                ResultView { visible: false, selection_order: None, ..s.results_list[i] },
            ),
            ..s
        }
    }
}

impl AppState {
    /// How many results are ticked.
    pub fn count_visible(&self) -> (r: usize)
        ensures
            r == ticked(self@.results_list),
            r <= self@.results_list.len(),
    {
        let ghost list = self@.results_list;
        let n: usize = self.results_list.len();
        let mut count: usize = 0;
        let mut i: usize = 0;
        while i < n
            invariant
                i <= n,
                n == self.results_list@.len(),
                list == result_views(self.results_list@),
                count <= i,
                count == ticked(list.take(i as int)),
            decreases n - i,
        {
            proof {
                lemma_take_step(list, i as int);
                assert(list[i as int] == self.results_list@[i as int]@);
            }
            if self.results_list[i].visible {
                count += 1;
            }
            i += 1;
        }
        assert(list.take(n as int) =~= list);
        count
    }

    /// Ticks all results, or none of them.
    pub fn select_all(&mut self, on: bool)
        ensures
            final(self)@ == (if on {
                AppView {
                    results_list: all_ticked(old(self)@.results_list, old(self)@.next_selection_rank),
                    next_selection_rank: rank_after(
                        old(self)@.next_selection_rank,
                        unticked_before(old(self)@.results_list, old(self)@.results_list.len() as int),
                    ),
                    ..old(self)@
                }
            } else {
                AppView { results_list: none_ticked(old(self)@.results_list), ..old(self)@ }
            }),
    {
        let ghost start = self@;
        let ghost list = start.results_list;
        let ghost want = if on {
            all_ticked(list, start.next_selection_rank)
        } else {
            none_ticked(list)
        };
        let n: usize = self.results_list.len();
        let mut i: usize = 0;
        while i < n
            invariant
                i <= n,
                n == self.results_list@.len(),
                n == list.len(),
                list == start.results_list,
                start == old(self)@,
                want == (if on {
                    all_ticked(list, start.next_selection_rank)
                } else {
                    none_ticked(list)
                }),
                self@ == (AppView {
                    results_list: self@.results_list,
                    next_selection_rank: if on {
                        rank_after(start.next_selection_rank, unticked_before(list, i as int))
                    } else {
                        start.next_selection_rank
                    },
                    ..start
                }),
                forall|k: int| 0 <= k < i ==> (#[trigger] self@.results_list[k]) == want[k],
                forall|k: int| i <= k < n ==> (#[trigger] self@.results_list[k]) == list[k],
            decreases n - i,
        {
            let ghost was = self@;
            assert(self@.results_list[i as int] == self.results_list@[i as int]@);
            assert(self@.results_list[i as int] == list[i as int]);
            if on {
                let rank: u32 = self.next_selection_rank;
                let r = &mut self.results_list[i];
                if !r.visible {
                    r.visible = true;
                    r.selection_order = Some(rank);
                    self.next_selection_rank = rank.wrapping_add(1);
                }
            } else {
                let r = &mut self.results_list[i];
                if r.visible {
                    r.visible = false;
                    r.selection_order = None;
                }
            }
            proof {
                assert(self@.results_list =~= was.results_list.update(i as int, want[i as int]));
            }
            i += 1;
        }
        proof {
            assert(self@.results_list =~= want);
        }
    }

    /// Ticks a result, or takes the tick away.
    pub fn set_visible(&mut self, i: usize, on: bool)
        requires
            i < old(self)@.results_list.len(),
        ensures
            final(self)@ == with_tick(old(self)@, i as int, on),
    {
        let ghost start = self@;
        assert(start.results_list[i as int] == self.results_list@[i as int]@);
        let rank: u32 = self.next_selection_rank;
        let r = &mut self.results_list[i];
        if r.visible != on {
            r.visible = on;
            if on {
                r.selection_order = Some(rank);
                self.next_selection_rank = rank.wrapping_add(1);
            } else {
                r.selection_order = None;
            }
        }
        proof {
            assert(self@.results_list =~= with_tick(start, i as int, on).results_list);
        }
    }
}

/// A result has a rank just where it is ticked.
pub open spec fn ticks_ranked(list: Seq<ResultView>) -> bool {
    forall|i: int| 0 <= i < list.len() ==> ((#[trigger] list[i]).visible <==> list[i].selection_order is Some)
}

/// Ticking results, one or all, keeps a rank with each tick and with nothing else.
pub proof fn ticking_keeps_ranks(s: AppView, i: int, on: bool)
    requires
        ticks_ranked(s.results_list),
        0 <= i < s.results_list.len(),
    ensures
        ticks_ranked(with_tick(s, i, on).results_list),
        ticks_ranked(all_ticked(s.results_list, s.next_selection_rank)),
        ticks_ranked(none_ticked(s.results_list)),
{
}

/// Ticking all leaves none out, ticking none leaves none over, and neither changes what
/// the results hold.
pub proof fn ticking_all_ticks_each(list: Seq<ResultView>, rank: u32)
    ensures
        ticked(all_ticked(list, rank)) == list.len(),
        ticked(none_ticked(list)) == 0,
        forall|i: int| 0 <= i < list.len() ==> (#[trigger] all_ticked(list, rank)[i]).results == list[i].results,
        forall|i: int| 0 <= i < list.len() ==> (#[trigger] none_ticked(list)[i]).results == list[i].results,
    decreases list.len(),
{
    if list.len() > 0 {
        let shorter = list.drop_last();
        ticking_all_ticks_each(shorter, rank);
        assert forall|i: int| 0 <= i < shorter.len() implies all_ticked(shorter, rank)[i] == all_ticked(list, rank)[i] by {
            lemma_unticked_prefix(shorter, list, i);
        }
        assert(all_ticked(list, rank).drop_last() =~= all_ticked(shorter, rank));
        assert(none_ticked(list).drop_last() =~= none_ticked(shorter));
    }
}

proof fn lemma_unticked_prefix(a: Seq<ResultView>, b: Seq<ResultView>, n: int)
    requires
        n <= a.len() <= b.len(),
        a == b.take(a.len() as int),
    ensures
        unticked_before(a, n) == unticked_before(b, n),
    decreases n,
{
    if n > 0 {
        lemma_unticked_prefix(a, b, n - 1);
    }
}

/// Of two results that are ticked one after the other, the first has the lower rank,
/// unless ranks start over in between.
pub proof fn first_ticked_ranks_first(s: AppView, i: int, j: int)
    requires
        0 <= i < s.results_list.len(),
        0 <= j < s.results_list.len(),
        i != j,
        !s.results_list[i].visible,
        !s.results_list[j].visible,
        s.next_selection_rank < u32::MAX,
    ensures
        ({
            let t = with_tick(with_tick(s, i, true), j, true);
            &&& t.results_list[i].selection_order == Some(s.next_selection_rank)
            &&& t.results_list[j].selection_order == Some((s.next_selection_rank + 1) as u32)
        }),
{
}

/// How the tick for all results stands.
#[derive(Debug)]
pub struct SelectAll {
    pub label: String,
    pub checked: bool,
    pub indeterminate: bool,
    pub enabled: bool,
}

/// What stands beside the tick for all results.
pub open spec fn select_all_label(n_visible: nat, n_total: nat) -> Seq<char> {
    if n_total == 0 {
        "Select all"@
    } else {
        "Select all ("@ + decimal(n_visible) + "/"@ + decimal(n_total) + ")"@
    }
}

impl AppState {
    /// How the tick for all results stands: set when all are ticked, undecided when some
    /// are.
    pub fn select_all_state(&self) -> (r: SelectAll)
        ensures
            r.label@ == select_all_label(ticked(self@.results_list), self@.results_list.len()),
            self.results_list@.len() == 0 ==> r.label@ == "Select all"@,
            self.results_list@.len() > 0 ==> r.label@ == "Select all ("@ + decimal(ticked(self@.results_list)) + "/"@
                + decimal(self.results_list@.len()) + ")"@,
            r.checked == (self@.results_list.len() > 0 && ticked(self@.results_list) == self@.results_list.len()),
            r.indeterminate == (0 < ticked(self@.results_list) < self@.results_list.len()),
            r.enabled == (self@.results_list.len() > 0),
    {
        let n_total: usize = self.results_list.len();
        assert(n_total == self@.results_list.len());
        let n_visible: usize = self.count_visible();
        let label = if n_total == 0 {
            "Select all".to_owned()
        } else {
            let mut text = "Select all (".to_owned();
            text.append(count_text(n_visible).as_str());
            text.append("/");
            text.append(count_text(n_total).as_str());
            text.append(")");
            text
        };
        SelectAll {
            label,
            checked: n_total > 0 && n_visible == n_total,
            indeterminate: n_visible > 0 && n_visible < n_total,
            enabled: n_total > 0,
        }
    }

    /// Whether there is something to export: a result is ticked, something is chosen to
    /// be written, and no run is going on.
    pub fn can_export(&self) -> (r: bool)
        ensures
            r == (ticked(self@.results_list) > 0 && !self@.in_progress && (self@.export.csv || self@.export.png
                || self@.export.hist)),
    {
        self.count_visible() > 0 && !self.in_progress && (self.export.csv || self.export.png || self.export.hist)
    }

    /// What is said above the button that exports.
    pub fn export_hint(&self) -> (r: &'static str)
        ensures
            r@ == (if ticked(self@.results_list) > 0 {
                " "@
            } else {
                "Select stacks above for export…"@
            }),
    {
        if self.count_visible() > 0 {
            " "
        } else {
            "Select stacks above for export…"
        }
    }
}

/// What is shown of one result.
#[derive(Debug)]
pub struct Card {
    pub counts: String,
    pub mean: Option<Scalar>,
    pub spread: Option<Spread>,
    pub rejects: Option<String>,
}

/// The line with the numbers of frames and accepted bubbles.
pub open spec fn counts_line(r: ResultsView) -> Seq<char> {
    "frames: "@ + decimal(r.frames.len()) + "  bubbles: "@ + decimal(accepted_in(r.frames))
}

/// The line with the numbers of rejected and static bubbles.
pub open spec fn rejects_line(r: ResultsView) -> Seq<char> {
    "rejected: "@ + decimal(rejected_in(r.frames)) + "  static: "@ + decimal(static_in(r.frames))
}

/// What is shown of a result; rejected bubbles are counted for the one in focus. `calc` does
/// the arithmetic.
pub fn card_of<C: Fn(Arithmetic) -> Scalar>(results: &AnalysisResults, in_focus: bool, calc: &C) -> (c: Card)
    requires
        totals_fit(results@.frames),
        computes(*calc),
    ensures
        c.counts@ == counts_line(results@),
        c.counts@ == "frames: "@ + decimal(results@.frames.len()) + "  bubbles: "@ + decimal(
            accepted_in(results@.frames),
        ),
        c.rejects is Some <==> in_focus,
        c.rejects matches Some(text) ==> text@ == "rejected: "@ + decimal(rejected_in(results@.frames)) + "  static: "@
            + decimal(static_in(results@.frames)),
        c.mean == (if diameters_in(results@.frames).len() == 0 {
            None
        } else {
            Some(mean_of(*calc, diameters_in(results@.frames)))
        }),
        diameters_in(results@.frames).len() > 0 ==> mean_answered(*calc, diameters_in(results@.frames)),
        c.spread == (if diameters_in(results@.frames).len() == 0 {
            None
        } else {
            Some(spread_of(diameters_in(results@.frames)))
        }),
        opt_text(c.rejects) == (if in_focus {
            Some(rejects_line(results@))
        } else {
            None
        }),
{
    assert(results@.frames.len() == results.frames.len());
    let mut counts = "frames: ".to_owned();
    counts.append(count_text(results.frames.len()).as_str());
    counts.append("  bubbles: ");
    counts.append(count_text(results.total_bubbles()).as_str());
    let diams = results.diameters_valid();
    let rejects = if in_focus {
        let mut text = "rejected: ".to_owned();
        text.append(count_text(results.total_rejected()).as_str());
        text.append("  static: ");
        text.append(count_text(results.total_static()).as_str());
        Some(text)
    } else {
        None
    };
    let average = if diams.len() == 0 {
        None
    } else {
        Some(mean(calc, &diams))
    };
    Card { counts, mean: average, spread: spread(&diams), rejects }
}

/// The number of bins of a small histogram.
pub const CARD_BINS: usize = 24;

/// The largest of the first `n` counts.
pub open spec fn largest(counts: Seq<u32>, n: int) -> u32
    decreases n,
{
    if n <= 0 {
        0
    } else {
        let m = largest(counts, n - 1);
        if m < counts[n - 1] {
            counts[n - 1]
        } else {
            m
        }
    }
}

/// The tallest bar of the small histogram of one result.
pub open spec fn card_tallest<F: Fn(Slot) -> usize, E: Fn(Scaled) -> Scalar>(
    r: ResultsView,
    min: Scalar,
    max: Scalar,
    mode: HistMode,
    slot: F,
    evaluate: E,
) -> Scalar {
    let counts = bins_of(slot, min, max, CARD_BINS, diameters_in(r.frames));
    result_of(evaluate, scaled(largest(counts, CARD_BINS as int), 0, r.frames.len() as usize, axis_of(mode)))
}

/// The tallest bar of the small histograms of the first `n` results, or zero.
pub open spec fn cards_tallest<F: Fn(Slot) -> usize, E: Fn(Scaled) -> Scalar>(
    list: Seq<ResultView>,
    min: Scalar,
    max: Scalar,
    mode: HistMode,
    slot: F,
    evaluate: E,
    n: int,
) -> Scalar
    decreases n,
{
    if n <= 0 {
        Scalar { bits: 0 }
    } else {
        let m = cards_tallest(list, min, max, mode, slot, evaluate, n - 1);
        let v = card_tallest(list[n - 1].results, min, max, mode, slot, evaluate);
        if m.less(v) {
            v
        } else {
            m
        }
    }
}

/// The closures were asked about every diameter and the largest count of the result.
pub open spec fn card_asked<F: Fn(Slot) -> usize, E: Fn(Scaled) -> Scalar>(
    r: ResultsView,
    min: Scalar,
    max: Scalar,
    mode: HistMode,
    slot: F,
    evaluate: E,
) -> bool {
    let counts = bins_of(slot, min, max, CARD_BINS, diameters_in(r.frames));
    &&& slots_asked(slot, min, max, CARD_BINS, diameters_in(r.frames))
    &&& answered(
        evaluate,
        scaled(largest(counts, CARD_BINS as int), 0, r.frames.len() as usize, axis_of(mode)),
    )
}

/// The largest of some counts.
fn largest_count(counts: &Vec<u32>) -> (r: u32)
    ensures
        r == largest(counts@, counts@.len() as int),
{
    let n: usize = counts.len();
    let mut m: u32 = 0;
    let mut i: usize = 0;
    while i < n
        invariant
            i <= n,
            n == counts@.len(),
            m == largest(counts@, i as int),
        decreases n - i,
    {
        if m < counts[i] {
            m = counts[i];
        }
        i += 1;
    }
    m
}

/// The samples of some results.
pub open spec fn samples_of(list: Seq<ResultView>) -> Seq<ResultsView> {
    list.map_values(|r: ResultView| r.results)
}

/// The results have no more accepted diameters than a bin can count.
pub open spec fn cards_countable(list: Seq<ResultView>) -> bool {
    forall|i: int| 0 <= i < list.len() ==> diameters_in((#[trigger] list[i]).results.frames).len() <= u32::MAX
}

impl AppState {
    /// The horizontal axis that all small histograms share.
    pub fn cards_range(&self) -> (r: (Scalar, Scalar))
        ensures
            r == range_of(all_diameters(samples_of(self@.results_list))),
            samples_of(self@.results_list).len() == self.results_list@.len(),
            forall|i: int|
                0 <= i < self.results_list@.len() ==> #[trigger] samples_of(self@.results_list)[i]
                    == self.results_list@[i].results@,
    {
        let ghost all = samples_of(self@.results_list);
        let mut samples: Vec<&AnalysisResults> = Vec::new();
        let n: usize = self.results_list.len();
        let mut i: usize = 0;
        while i < n
            invariant
                i <= n,
                n == self.results_list@.len(),
                all == samples_of(self@.results_list),
                samples@.map_values(|s: &AnalysisResults| s@) == all.take(i as int),
            decreases n - i,
        {
            let ghost was = samples@.map_values(|s: &AnalysisResults| s@);
            samples.push(&self.results_list[i].results);
            proof {
                let now = samples@.map_values(|s: &AnalysisResults| s@);
                assert(now =~= was.push(self.results_list@[i as int].results@));
                assert(all[i as int] == self.results_list@[i as int].results@);
                assert(now =~= all.take(i + 1));
            }
            i += 1;
        }
        assert(all.take(n as int) =~= all);
        global_diameter_range(&samples)
    }

    /// The upper end of the vertical axis that all small histograms share. `width` gives the
    /// width of each of a number of bins between two numbers.
    pub fn cards_y_max<W: Fn((Scalar, Scalar, usize)) -> Scalar, F: Fn(Slot) -> usize, E: Fn(Scaled) -> Scalar>(
        &self,
        width: &W,
        slot: &F,
        evaluate: &E,
    ) -> (r: Scalar)
        requires
            computes(*width),
            computes(*slot),
            computes(*evaluate),
            cards_countable(self@.results_list),
        ensures
            ({
                let list = self@.results_list;
                let mode = self@.viewer.hist_mode;
                let (min, max) = range_of(all_diameters(samples_of(list)));
                let wide = (Scalar { bits: 0 }).less(result_of(*width, (min, max, CARD_BINS)));
                &&& r == y_ceiling(
                    axis_of(mode),
                    if wide {
                        cards_tallest(list, min, max, mode, *slot, *evaluate, list.len() as int)
                    } else {
                        Scalar { bits: 0 }
                    },
                )
                &&& mode != HistMode::Percent ==> answered(*width, (min, max, CARD_BINS))
                &&& mode != HistMode::Percent && wide ==> forall|i: int|
                    0 <= i < list.len() ==> card_asked(
                        (#[trigger] list[i]).results,
                        min,
                        max,
                        mode,
                        *slot,
                        *evaluate,
                    )
            }),
    {
        let mode = self.viewer.hist_mode;
        if mode == HistMode::Percent {
            return Scalar::from_bits(HUNDRED_BITS);
        }
        let ghost list = self@.results_list;
        let zero = Scalar::from_bits(0);
        let mut y_max = zero;
        let (min, max) = self.cards_range();
        if zero.lt(ask(width, (min, max, CARD_BINS))) {
            let n: usize = self.results_list.len();
            let mut i: usize = 0;
            while i < n
                invariant
                    i <= n,
                    n == self.results_list@.len(),
                    list == result_views(self.results_list@),
                    computes(*slot),
                    computes(*evaluate),
                    cards_countable(list),
                    y_max == cards_tallest(list, min, max, mode, *slot, *evaluate, i as int),
                    forall|k: int|
                        0 <= k < i ==> card_asked((#[trigger] list[k]).results, min, max, mode, *slot, *evaluate),
                decreases n - i,
            {
                assert(list[i as int] == self.results_list@[i as int]@);
                let results = &self.results_list[i].results;
                let diams = results.diameters_valid();
                let counts = bin_counts(&diams, min, max, CARD_BINS, slot);
                let max_c: u32 = largest_count(&counts);
                let v = ask(evaluate, scaled_value(max_c, 0, results.frames.len(), mode.axis_mode()));
                if y_max.lt(v) {
                    y_max = v;
                }
                i += 1;
            }
        }
        if zero.lt(y_max) {
            y_max
        } else {
            Scalar::from_bits(ONE_BITS)
        }
    }
}

/// A small histogram: the counts of its bins, and what they are divided by.
#[derive(Debug)]
pub struct MiniHistogram {
    pub counts: Vec<u32>,
    pub divisor: usize,
    pub divided_by: u32,
}

/// What the counts are divided by, as a fraction: one, the number of images (one, where
/// there are none), or a hundredth of all.
pub open spec fn card_divisor(mode: HistMode, n_frames: usize, total: nat) -> (usize, u32) {
    match mode {
        HistMode::Counts => (1, 1),
        HistMode::AvgPerImage => (
            if n_frames == 0 {
                1
            } else {
                n_frames
            },
            1,
        ),
        HistMode::Percent => (total as usize, 100),
    }
}

/// The small histogram of some diameters, where there is something to plot.
pub fn mini_histogram<F: Fn(Slot) -> usize>(
    diams: &Vec<Scalar>,
    axis_min: Scalar,
    axis_max: Scalar,
    n_frames: usize,
    mode: HistMode,
    y_max: Scalar,
    slot: &F,
) -> (r: Option<MiniHistogram>)
    requires
        computes(*slot),
        diams@.len() <= u32::MAX,
    ensures
        r is None <==> axis_max.at_most(axis_min) || y_max.at_most(Scalar { bits: 0 }),
        r matches Some(h) ==> {
            &&& h.counts@ == bins_of(*slot, axis_min, axis_max, CARD_BINS, diams@)
            &&& h.counts@.len() == 24
            &&& (h.divisor, h.divided_by) == card_divisor(mode, n_frames, diams@.len())
            &&& slots_asked(*slot, axis_min, axis_max, CARD_BINS, diams@)
            &&& h.divided_by > 0
            &&& mode == HistMode::Counts ==> h.divisor == h.divided_by
            &&& mode == HistMode::AvgPerImage && n_frames > 0 ==> h.divisor == n_frames * h.divided_by
            &&& mode == HistMode::AvgPerImage && n_frames == 0 ==> h.divisor == h.divided_by
            &&& mode == HistMode::Percent ==> 100 * h.divisor == diams@.len() * h.divided_by
        },
{
    if axis_max.le(axis_min) || y_max.le(Scalar::from_bits(0)) {
        return None;
    }
    let counts = bin_counts(diams, axis_min, axis_max, CARD_BINS, slot);
    let (divisor, divided_by) = match mode {
        HistMode::Counts => (1usize, 1u32),
        HistMode::AvgPerImage => {
            if n_frames == 0 {
                (1usize, 1u32)
            } else {
                (n_frames, 1u32)
            }
        },
        HistMode::Percent => (diams.len(), 100u32),
    };
    Some(MiniHistogram { counts, divisor, divided_by })
}

/// The ticked results are those that say so.
pub proof fn ticked_counts_ticks(list: Seq<ResultView>)
    ensures
        ticked(list) == list.filter(|r: ResultView| r.visible).len(),
    decreases list.len(),
{
    reveal(Seq::filter);
    if list.len() > 0 {
        ticked_counts_ticks(list.drop_last());
    }
}

/// Going to a result shows its first frame, not enlarged and not moved, and how frames are shown
/// stays as it was.
pub proof fn refocusing_shows_first_frame(v: ViewerState)
    ensures
        refocused(v).current_frame == 0,
        refocused(v).texture_for is None,
        refocused(v).zoom.bits == 0x3f80_0000,
        refocused(v).pan_x.bits == 0,
        refocused(v).pan_y.bits == 0,
        refocused(v) == (ViewerState {
            current_frame: refocused(v).current_frame,
            texture_for: refocused(v).texture_for,
            zoom: refocused(v).zoom,
            pan_x: refocused(v).pan_x,
            pan_y: refocused(v).pan_y,
            ..v
        }),
{
}

/// Ticking a result that is not ticked gives it the next rank, taking its tick away takes its
/// rank away, and setting what is set changes nothing. No other result changes, and nothing of
/// this one but its tick and rank. After the largest rank comes zero.
pub proof fn tick_changes_one_result(s: AppView, i: int, on: bool)
    requires
        0 <= i < s.results_list.len(),
    ensures
        ({
            let t = with_tick(s, i, on);
            let before = s.results_list[i];
            let after = t.results_list[i];
            &&& t == (AppView { results_list: t.results_list, next_selection_rank: t.next_selection_rank, ..s })
            &&& t.results_list.len() == s.results_list.len()
            &&& forall|k: int| 0 <= k < s.results_list.len() && k != i ==> #[trigger] t.results_list[k] == s.results_list[k]
            &&& after.visible == on
            &&& before.visible == on ==> t == s
            &&& after == (ResultView { visible: after.visible, selection_order: after.selection_order, ..before })
            &&& on && !before.visible ==> after.selection_order == Some(s.next_selection_rank)
            &&& on && !before.visible && s.next_selection_rank < u32::MAX ==> t.next_selection_rank
                == s.next_selection_rank + 1
            &&& on && !before.visible && s.next_selection_rank == u32::MAX ==> t.next_selection_rank == 0
            &&& !on && before.visible ==> after.selection_order is None && t.next_selection_rank == s.next_selection_rank
        }),
{
}

proof fn lemma_unticked_counts(list: Seq<ResultView>, n: int)
    requires
        0 <= n <= list.len(),
    ensures
        unticked_before(list, n) == list.take(n).filter(|r: ResultView| !r.visible).len(),
    decreases n,
{
    reveal(Seq::filter);
    if n > 0 {
        lemma_unticked_counts(list, n - 1);
        assert(list.take(n).drop_last() =~= list.take(n - 1));
    }
}

/// Ticking all leaves a ticked result as it is and gives each other one the next rank in turn,
/// going by how many before it were not ticked; ticking none takes tick and rank from those
/// that have them. Nothing else of any result changes.
pub proof fn ticking_all_ranks_in_turn(list: Seq<ResultView>, rank: u32, i: int)
    requires
        0 <= i < list.len(),
    ensures
        all_ticked(list, rank).len() == list.len(),
        none_ticked(list).len() == list.len(),
        list[i].visible ==> all_ticked(list, rank)[i] == list[i],
        !list[i].visible ==> all_ticked(list, rank)[i] == (ResultView {
            visible: true,
            selection_order: Some(
                ((rank + list.take(i).filter(|r: ResultView| !r.visible).len()) % 0x1_0000_0000) as u32,
            ),
            ..list[i]
        }),
        !list[i].visible ==> none_ticked(list)[i] == list[i],
        list[i].visible ==> none_ticked(list)[i] == (ResultView { visible: false, selection_order: None, ..list[i] }),
{
    lemma_unticked_counts(list, i);
}

/// After all are ticked, the next rank is as much higher as there were results not ticked, and
/// starts over at zero after the largest.
pub proof fn ticking_all_uses_up_ranks(list: Seq<ResultView>, rank: u32)
    ensures
        rank_after(rank, unticked_before(list, list.len() as int)) == ((rank + list.filter(
            |r: ResultView| !r.visible,
        ).len()) % 0x1_0000_0000) as u32,
{
    lemma_unticked_counts(list, list.len() as int);
    assert(list.take(list.len() as int) =~= list);
}

/// No count is above the largest, and the largest is one of the counts.
pub proof fn largest_is_a_count(counts: Seq<u32>, n: int)
    requires
        0 <= n <= counts.len(),
    ensures
        forall|k: int| 0 <= k < n ==> #[trigger] counts[k] <= largest(counts, n),
        largest(counts, n) > 0 ==> exists|k: int| 0 <= k < n && #[trigger] counts[k] == largest(counts, n),
    decreases n,
{
    if n > 0 {
        largest_is_a_count(counts, n - 1);
        if largest(counts, n) > 0 && counts[n - 1] <= largest(counts, n - 1) {
            let k = choose|k: int| 0 <= k < n - 1 && #[trigger] counts[k] == largest(counts, n - 1);
            assert(counts[k] == largest(counts, n));
        } else if largest(counts, n) > 0 {
            assert(counts[n - 1] == largest(counts, n));
        }
    }
}

/// The shared axis of the small histograms reaches as high as the fullest bin of each result,
/// scaled as the bars are, where that is a number.
pub proof fn cards_axis_holds_every_card<F: Fn(Slot) -> usize, E: Fn(Scaled) -> Scalar>(
    list: Seq<ResultView>,
    min: Scalar,
    max: Scalar,
    mode: HistMode,
    slot: F,
    evaluate: E,
    n: int,
    i: int,
    c: u32,
)
    requires
        0 <= i < n <= list.len(),
        ({
            let counts = bins_of(slot, min, max, CARD_BINS, diameters_in(list[i].results.frames));
            &&& forall|k: int| 0 <= k < CARD_BINS ==> #[trigger] counts[k] <= c
            &&& counts.contains(c)
        }),
        ({
            let axis = axis_of(mode);
            !result_of(evaluate, scaled(c, 0, list[i].results.frames.len() as usize, axis)).nan()
        }),
    ensures
        result_of(evaluate, scaled(c, 0, list[i].results.frames.len() as usize, axis_of(mode))).at_most(
            cards_tallest(list, min, max, mode, slot, evaluate, n),
        ),
        !cards_tallest(list, min, max, mode, slot, evaluate, n).nan(),
    decreases n,
{
    lemma_cards_tallest_number(list, min, max, mode, slot, evaluate, n - 1);
    if i < n - 1 {
        cards_axis_holds_every_card(list, min, max, mode, slot, evaluate, n - 1, i, c);
    } else {
        let counts = bins_of(slot, min, max, CARD_BINS, diameters_in(list[i].results.frames));
        largest_is_a_count(counts, CARD_BINS as int);
        assert(counts[counts.index_of(c)] == c);
        assert(largest(counts, CARD_BINS as int) == c);
    }
}

proof fn lemma_cards_tallest_number<F: Fn(Slot) -> usize, E: Fn(Scaled) -> Scalar>(
    list: Seq<ResultView>,
    min: Scalar,
    max: Scalar,
    mode: HistMode,
    slot: F,
    evaluate: E,
    n: int,
)
    ensures
        !cards_tallest(list, min, max, mode, slot, evaluate, n).nan(),
    decreases n,
{
    if n > 0 {
        lemma_cards_tallest_number(list, min, max, mode, slot, evaluate, n - 1);
    }
}

/// The height that the small histograms share is zero or that of the fullest bin of some result.
pub proof fn cards_axis_ends_at_a_card<F: Fn(Slot) -> usize, E: Fn(Scaled) -> Scalar>(
    list: Seq<ResultView>,
    min: Scalar,
    max: Scalar,
    mode: HistMode,
    slot: F,
    evaluate: E,
    n: int,
) -> (i: int)
    requires
        0 <= n <= list.len(),
    ensures
        ({
            let top = cards_tallest(list, min, max, mode, slot, evaluate, n);
            ||| top.bits == 0
            ||| 0 <= i < n && ({
                let counts = bins_of(slot, min, max, CARD_BINS, diameters_in(list[i].results.frames));
                top == result_of(
                    evaluate,
                    scaled(
                        largest(counts, CARD_BINS as int),
                        0,
                        list[i].results.frames.len() as usize,
                        axis_of(mode),
                    ),
                )
            })
        }),
    decreases n,
{
    if n <= 0 {
        0
    } else {
        let before = cards_axis_ends_at_a_card(list, min, max, mode, slot, evaluate, n - 1);
        let m = cards_tallest(list, min, max, mode, slot, evaluate, n - 1);
        if m.less(card_tallest(list[n - 1].results, min, max, mode, slot, evaluate)) {
            n - 1
        } else {
            before
        }
    }
}

/// Results are spoken of by what their own fields hold.
pub proof fn result_fields_are_spoken_of(list: Seq<ResultEntry>, i: int)
    requires
        0 <= i < list.len(),
    ensures
        result_views(list).len() == list.len(),
        result_views(list)[i].name == list[i].name@,
        result_views(list)[i].source_path == list[i].source_path@,
        result_views(list)[i].results == list[i].results@,
        result_views(list)[i].visible == list[i].visible,
        result_views(list)[i].selection_order == list[i].selection_order,
        list[i].static_note is None ==> result_views(list)[i].static_note is None,
        list[i].static_note matches Some(note) ==> result_views(list)[i].static_note == Some(note@),
{
}

} // verus!
