//! Exporting the results that are ticked.
use crate::app::AppState;
use crate::app::AppView;
use crate::calc::answered;
use crate::calc::ask;
use crate::calc::computes;
use crate::calc::result_of;
use crate::exporter::totals_fit;
use crate::exporter::ExportOpts;
use crate::inference::device_label;
use crate::results::result_views;
use crate::results::ticked;
use crate::results::ResultEntry;
use crate::results::ResultView;
use crate::scalar::Scalar;
use crate::settings::SavedDefaults;
use crate::sorting::arrange;
use crate::sorting::arranged;
use crate::sorting::before;
use crate::sorting::models;
use crate::sorting::order_by_key;
use crate::sorting::order_is_arrangement;
use crate::sorting::order_of;
use crate::text::count_text;
use crate::text::decimal;
use crate::text::opt_text;
use crate::text::two_digit_text;
use crate::text::two_digits;
use crate::types::accepted_in;
use crate::types::rejected_in;
use crate::types::static_in;
use vstd::prelude::*;
use vstd::string::StringExecFns;

verus! {

/// The positions of those of the first `n` results that are ticked.
pub open spec fn ticked_at(list: Seq<ResultView>, n: int) -> Seq<usize>
    decreases n,
{
    if n <= 0 {
        Seq::empty()
    } else if list[n - 1].visible {
        ticked_at(list, n - 1).push((n - 1) as usize)
    } else {
        ticked_at(list, n - 1)
    }
}

/// The rank that a result is exported by; one without a rank comes last.
pub open spec fn export_rank(r: ResultView) -> i64 {
    match r.selection_order {
        Some(rank) => rank as i64,
        None => u32::MAX as i64,
    }
}

/// The ranks of the results at some positions.
pub open spec fn export_ranks(list: Seq<ResultView>, at: Seq<usize>) -> Seq<i64> {
    at.map_values(|i: usize| export_rank(list[i as int]))
}

/// The positions of the ticked results in the order in which they were ticked, those of
/// equal rank in the order of the list.
pub open spec fn export_order(list: Seq<ResultView>) -> Seq<usize> {
    let at = ticked_at(list, list.len() as int);
    arranged(at, order_of(export_ranks(list, at)))
}

proof fn lemma_ticked_at(list: Seq<ResultView>, n: int)
    requires
        0 <= n <= list.len() <= usize::MAX,
    ensures
        forall|k: int|
            0 <= k < ticked_at(list, n).len() ==> (#[trigger] ticked_at(list, n)[k]) < n && list[ticked_at(
                list,
                n,
            )[k] as int].visible,
        forall|i: int, j: int|
            0 <= i < j < ticked_at(list, n).len() ==> (#[trigger] ticked_at(list, n)[i]) < (#[trigger] ticked_at(
                list,
                n,
            )[j]),
        forall|i: usize| i < n && (#[trigger] list[i as int]).visible ==> ticked_at(list, n).contains(i),
        ticked_at(list, n).len() == ticked(list.take(n)),
    decreases n,
{
    if n > 0 {
        lemma_ticked_at(list, n - 1);
        assert(list.take(n).drop_last() =~= list.take(n - 1));
        let rest = ticked_at(list, n - 1);
        let all = ticked_at(list, n);
        assert forall|i: usize| i < n && (#[trigger] list[i as int]).visible implies all.contains(i) by {
            if i < n - 1 {
                assert(rest.contains(i));
                let k = choose|k: int| 0 <= k < rest.len() && rest[k] == i;
                assert(all[k] == i);
            } else {
                assert(all[rest.len() as int] == i);
            }
        }
    } else {
        assert(list.take(0) =~= Seq::empty());
    }
}

impl AppState {
    /// The positions of the ticked results in the order in which they were ticked. Each is
    /// listed once, and nothing else is.
    pub fn visible_order(&self) -> (r: Vec<usize>)
        ensures
            r@ == export_order(self@.results_list),
            r@.len() == ticked(self@.results_list),
            forall|k: int|
                0 <= k < r@.len() ==> (#[trigger] r@[k]) < self@.results_list.len()
                    && self@.results_list[r@[k] as int].visible,
            forall|i: usize|
                i < self@.results_list.len() && (#[trigger] self@.results_list[i as int]).visible ==> r@.contains(i),
            forall|i: int, j: int|
                0 <= i < j < r@.len() ==> export_rank(self@.results_list[(#[trigger] r@[i]) as int]) <= export_rank(
                    self@.results_list[(#[trigger] r@[j]) as int],
                ) && r@[i] != r@[j],
            forall|i: int, j: int|
                #![trigger r@[i], r@[j]]
                0 <= i < j < r@.len() ==> {
                    let first = self.results_list@[r@[i] as int].selection_order;
                    let second = self.results_list@[r@[j] as int].selection_order;
                    &&& first is Some && second is Some ==> first.unwrap() < second.unwrap() || (first.unwrap()
                        == second.unwrap() && r@[i] < r@[j])
                    &&& first is None && second is Some ==> second.unwrap() == u32::MAX && r@[i] < r@[j]
                    &&& first is Some && second is None ==> first.unwrap() < u32::MAX || r@[i] < r@[j]
                    &&& first is None && second is None ==> r@[i] < r@[j]
                },
    {
        let ghost list = self@.results_list;
        let n: usize = self.results_list.len();
        assert(n == list.len());
        let mut at: Vec<usize> = Vec::new();
        let mut ranks: Vec<i64> = Vec::new();
        let mut i: usize = 0;
        while i < n
            invariant
                i <= n,
                n == self.results_list@.len(),
                list == result_views(self.results_list@),
                at@ == ticked_at(list, i as int),
                ranks@ == export_ranks(list, at@),
            decreases n - i,
        {
            let r = &self.results_list[i];
            assert(list[i as int] == r@);
            let ghost was = ranks@;
            if r.visible {
                let rank: i64 = match r.selection_order {
                    Some(rank) => rank as i64,
                    None => u32::MAX as i64,
                };
                at.push(i);
                ranks.push(rank);
                assert(ranks@ =~= export_ranks(list, at@));
            }
            i += 1;
        }
        assert(models(ranks@) =~= ranks@);
        let order = order_by_key(&ranks);
        let ghost places = at@;
        assert(places.len() == at.len());
        let ghost keys = ranks@;
        proof {
            order_is_arrangement(keys, order@);
        }
        let r = arrange(at, &order);
        proof {
            lemma_ticked_at(list, n as int);
            assert(list.take(n as int) =~= list);
            assert forall|i: usize| i < list.len() && (#[trigger] list[i as int]).visible implies r@.contains(i) by {
                assert(places.contains(i));
                let k = choose|k: int| 0 <= k < places.len() && places[k] == i;
                assert(order@.contains(k as usize));
                let p = choose|p: int| 0 <= p < order@.len() && order@[p] == k as usize;
                assert(r@[p] == i);
            }
            assert forall|i: int, j: int| 0 <= i < j < r@.len() implies export_rank(
                list[(#[trigger] r@[i]) as int],
            ) <= export_rank(list[(#[trigger] r@[j]) as int]) && r@[i] != r@[j] by {
                assert(before(keys, order@[i], order@[j]));
                assert(order@[i] != order@[j]);
                let a = order@[i] as int;
                let b = order@[j] as int;
                if a < b {
                    assert(places[a] < places[b]);
                } else {
                    assert(places[b] < places[a]);
                }
            }
            assert forall|i: int, j: int|
                #![trigger r@[i], r@[j]]
                0 <= i < j < r@.len() implies ({
                let first = self.results_list@[r@[i] as int].selection_order;
                let second = self.results_list@[r@[j] as int].selection_order;
                &&& first is Some && second is Some ==> first.unwrap() < second.unwrap() || (first.unwrap()
                    == second.unwrap() && r@[i] < r@[j])
                &&& first is None && second is Some ==> second.unwrap() == u32::MAX && r@[i] < r@[j]
                &&& first is Some && second is None ==> first.unwrap() < u32::MAX || r@[i] < r@[j]
                &&& first is None && second is None ==> r@[i] < r@[j]
            }) by {
                assert(before(keys, order@[i], order@[j]));
                let a = order@[i] as int;
                let b = order@[j] as int;
                assert(list[r@[i] as int] == self.results_list@[r@[i] as int]@);
                assert(list[r@[j] as int] == self.results_list@[r@[j] as int]@);
                assert(keys[a] == export_rank(list[r@[i] as int]) && keys[b] == export_rank(list[r@[j] as int]));
                if a < b {
                    assert(places[a] < places[b]);
                }
            }
        }
        r
    }

    /// What to export, and what to draw on overlays.
    pub fn export_opts(&self) -> (r: ExportOpts)
        ensures
            r == (ExportOpts {
                csv: self@.export.csv,
                png: self@.export.png,
                hist: self@.export.hist,
                show_bubbles: self@.viewer.show_bubbles,
                show_rejected: self@.viewer.show_rejected,
                show_static: self@.viewer.show_static,
            }),
    {
        ExportOpts {
            csv: self.export.csv,
            png: self.export.png,
            hist: self.export.hist,
            show_bubbles: self.viewer.show_bubbles,
            show_rejected: self.viewer.show_rejected,
            show_static: self.viewer.show_static,
        }
    }
}

/// The name proposed for the folder that an export goes to: that of the sample where there
/// is one, with the confidence in hundredths and the time.
pub open spec fn proposed_name(list: Seq<ResultView>, order: Seq<usize>, conf_percent: u32, ts: Seq<char>) -> Seq<char> {
    let tag = "conf"@ + two_digits(conf_percent as nat);
    if order.len() == 1 {
        list[order[0] as int].name + "_count_"@ + tag + "_"@ + ts
    } else {
        "bsnobs_run_"@ + tag + "_"@ + ts
    }
}

impl AppState {
    /// The name proposed for the folder that an export goes to, or nothing where no result
    /// is ticked, which is then said. `percent` gives a confidence in hundredths.
    pub fn propose_export<P: Fn(Scalar) -> u32>(&mut self, percent: P, ts: &String) -> (r: Option<String>)
        requires
            computes(percent),
        ensures
            ticked(old(self)@.results_list) > 0 ==> answered(percent, old(self)@.settings.conf),
            opt_text(r) == (if ticked(old(self)@.results_list) == 0 {
                None
            } else {
                Some(
                    proposed_name(
                        old(self)@.results_list,
                        export_order(old(self)@.results_list),
                        result_of(percent, old(self)@.settings.conf),
                        ts@,
                    ),
                )
            }),
            final(self)@ == (if ticked(old(self)@.results_list) == 0 {
                AppView { status: "Nothing visible to export."@, ..old(self)@ }
            } else {
                old(self)@
            }),
    {
        let order = self.visible_order();
        if order.len() == 0 {
            self.status = "Nothing visible to export.".to_owned();
            return None;
        }
        let mut tag = "conf".to_owned();
        tag.append(two_digit_text(ask(&percent, self.settings.conf)).as_str());
        let mut name = if order.len() == 1 {
            assert(self@.results_list[order@[0] as int] == self.results_list@[order@[0] as int]@);
            let mut name = self.results_list[order[0]].name.clone();
            name.append("_count_");
            name
        } else {
            "bsnobs_run_".to_owned()
        };
        name.append(tag.as_str());
        name.append("_");
        name.append(ts.as_str());
        Some(name)
    }
}

/// A step of an export. Samples are named by their positions in the list of results.
#[derive(Clone, Copy, Debug, PartialEq, Eq, Structural)]
pub enum ExportStep {
    SampleDir(usize),
    Metadata(usize),
    Summary(usize),
    Csv(usize),
    HistogramCsv(usize),
    Histogram(usize),
    OverlayDir(usize),
    Overlay(usize, usize),
    CombinedSummary,
    CombinedHistogram,
}

/// The steps up to the overlays of one sample.
pub open spec fn head_steps(i: usize, opts: ExportOpts) -> Seq<ExportStep> {
    let base = seq![ExportStep::SampleDir(i), ExportStep::Metadata(i), ExportStep::Summary(i)];
    let tables = if opts.csv {
        seq![ExportStep::Csv(i), ExportStep::HistogramCsv(i)]
    } else {
        Seq::empty()
    };
    let hist = if opts.hist {
        seq![ExportStep::Histogram(i)]
    } else {
        Seq::empty()
    };
    base + tables + hist
}

/// The steps for the overlays of one sample.
pub open spec fn overlay_steps(i: usize, n_frames: nat, opts: ExportOpts) -> Seq<ExportStep> {
    if opts.png {
        seq![ExportStep::OverlayDir(i)] + Seq::new(n_frames, |f: int| ExportStep::Overlay(i, f as usize))
    } else {
        Seq::empty()
    }
}

/// The steps for the first `n` samples of an export.
pub open spec fn sample_steps(list: Seq<ResultView>, order: Seq<usize>, opts: ExportOpts, n: int) -> Seq<ExportStep>
    decreases n,
{
    if n <= 0 {
        Seq::empty()
    } else {
        let i = order[n - 1];
        sample_steps(list, order, opts, n - 1) + head_steps(i, opts) + overlay_steps(
            i,
            list[i as int].results.frames.len(),
            opts,
        )
    }
}

/// The steps of an export: sample by sample, then what shows all of them; a histogram of
/// all is made of more than one.
pub open spec fn export_steps(list: Seq<ResultView>, order: Seq<usize>, opts: ExportOpts) -> Seq<ExportStep> {
    let samples = sample_steps(list, order, opts, order.len() as int).push(ExportStep::CombinedSummary);
    if opts.hist && order.len() > 1 {
        samples.push(ExportStep::CombinedHistogram)
    } else {
        samples
    }
}

/// How many overlays the first `n` samples of an export make.
pub open spec fn overlay_total(list: Seq<ResultView>, order: Seq<usize>, opts: ExportOpts, n: int) -> nat
    decreases n,
{
    if n <= 0 || !opts.png {
        0
    } else {
        overlay_total(list, order, opts, n - 1) + list[order[n - 1] as int].results.frames.len()
    }
}

/// An export under way: its steps, how many are done, and how many overlays.
#[derive(Debug)]
pub struct ExportRun {
    pub steps: Vec<ExportStep>,
    pub at: usize,
    pub done_frames: usize,
    pub total_frames: usize,
}

/// How many of the first `n` steps are overlays.
pub open spec fn overlays_before(steps: Seq<ExportStep>, n: int) -> nat
    decreases n,
{
    if n <= 0 {
        0
    } else {
        overlays_before(steps, n - 1) + if steps[n - 1] is Overlay {
            1nat
        } else {
            0nat
        }
    }
}

impl ExportRun {
    /// The numbers are those of the steps.
    pub open spec fn wf(&self) -> bool {
        &&& self.at <= self.steps@.len()
        &&& self.done_frames == overlays_before(self.steps@, self.at as int)
        &&& self.total_frames == overlays_before(self.steps@, self.steps@.len() as int)
    }
}

proof fn lemma_overlays_split(a: Seq<ExportStep>, b: Seq<ExportStep>, n: int)
    requires
        0 <= n <= b.len(),
    ensures
        overlays_before(a + b, a.len() + n) == overlays_before(a, a.len() as int) + overlays_before(b, n),
    decreases n,
{
    if n > 0 {
        lemma_overlays_split(a, b, n - 1);
        assert((a + b)[a.len() + n - 1] == b[n - 1]);
    } else {
        lemma_overlays_prefix(a, a + b, a.len() as int);
    }
}

proof fn lemma_overlays_prefix(a: Seq<ExportStep>, b: Seq<ExportStep>, n: int)
    requires
        0 <= n <= a.len() <= b.len(),
        forall|i: int| 0 <= i < a.len() ==> (#[trigger] a[i]) == b[i],
    ensures
        overlays_before(a, n) == overlays_before(b, n),
    decreases n,
{
    if n > 0 {
        lemma_overlays_prefix(a, b, n - 1);
        assert(a[n - 1] == b[n - 1]);
    }
}

proof fn lemma_overlays_bound(steps: Seq<ExportStep>, n: int)
    requires
        0 <= n <= steps.len(),
    ensures
        overlays_before(steps, n) <= n,
        overlays_before(steps, n) <= overlays_before(steps, steps.len() as int),
    decreases steps.len() - n,
{
    lemma_overlays_count_bound(steps, n);
    if n < steps.len() {
        lemma_overlays_bound(steps, n + 1);
    }
}

proof fn lemma_overlays_count_bound(steps: Seq<ExportStep>, n: int)
    requires
        0 <= n,
    ensures
        overlays_before(steps, n) <= n,
    decreases n,
{
    if n > 0 {
        lemma_overlays_count_bound(steps, n - 1);
    }
}

proof fn lemma_no_overlays(steps: Seq<ExportStep>, n: int)
    requires
        0 <= n <= steps.len(),
        forall|i: int| 0 <= i < steps.len() ==> (#[trigger] steps[i]) !is Overlay,
    ensures
        overlays_before(steps, n) == 0,
    decreases n,
{
    if n > 0 {
        lemma_no_overlays(steps, n - 1);
    }
}

proof fn lemma_overlay_steps(i: usize, n_frames: nat, opts: ExportOpts, n: int)
    requires
        opts.png,
        0 <= n <= n_frames,
    ensures
        overlays_before(overlay_steps(i, n_frames, opts), n + 1) == n,
    decreases n,
{
    let steps = overlay_steps(i, n_frames, opts);
    assert(steps[0] == ExportStep::OverlayDir(i));
    if n > 0 {
        lemma_overlay_steps(i, n_frames, opts, n - 1);
        assert(steps[n] == ExportStep::Overlay(i, (n - 1) as usize));
    } else {
        assert(overlays_before(steps, 0) == 0);
    }
}

proof fn lemma_sample_overlays(list: Seq<ResultView>, order: Seq<usize>, opts: ExportOpts, n: int)
    requires
        0 <= n <= order.len(),
    ensures
        overlays_before(sample_steps(list, order, opts, n), sample_steps(list, order, opts, n).len() as int)
            == overlay_total(list, order, opts, n),
    decreases n,
{
    if n > 0 {
        lemma_sample_overlays(list, order, opts, n - 1);
        let i = order[n - 1];
        let rest = sample_steps(list, order, opts, n - 1);
        let head = head_steps(i, opts);
        let frames = list[i as int].results.frames.len();
        let tail = overlay_steps(i, frames, opts);
        lemma_no_overlays(head, head.len() as int);
        lemma_overlays_split(rest, head, head.len() as int);
        lemma_overlays_split(rest + head, tail, tail.len() as int);
        if opts.png {
            lemma_overlay_steps(i, frames, opts, frames as int);
        }
    }
}

/// Adds the steps up to the overlays of one sample.
fn push_head(steps: &mut Vec<ExportStep>, i: usize, opts: &ExportOpts)
    ensures
        final(steps)@ == old(steps)@ + head_steps(i, *opts),
{
    let ghost before = steps@;
    steps.push(ExportStep::SampleDir(i));
    steps.push(ExportStep::Metadata(i));
    steps.push(ExportStep::Summary(i));
    if opts.csv {
        steps.push(ExportStep::Csv(i));
        steps.push(ExportStep::HistogramCsv(i));
    }
    if opts.hist {
        steps.push(ExportStep::Histogram(i));
    }
    assert(steps@ =~= before + head_steps(i, *opts));
}

/// Adds the steps for the overlays of one sample.
fn push_overlays(steps: &mut Vec<ExportStep>, i: usize, n_frames: usize, opts: &ExportOpts)
    ensures
        final(steps)@ == old(steps)@ + overlay_steps(i, n_frames as nat, *opts),
{
    let ghost before = steps@;
    if opts.png {
        steps.push(ExportStep::OverlayDir(i));
        let mut f: usize = 0;
        while f < n_frames
            invariant
                f <= n_frames,
                opts.png,
                steps@ =~= before + overlay_steps(i, f as nat, *opts),
            decreases n_frames - f,
        {
            steps.push(ExportStep::Overlay(i, f));
            f += 1;
        }
    }
    assert(steps@ =~= before + overlay_steps(i, n_frames as nat, *opts));
}

impl ExportRun {
    /// An export of the ticked results in the given order.
    pub fn new(list: &Vec<ResultEntry>, order: &Vec<usize>, opts: &ExportOpts) -> (run: ExportRun)
        requires
            forall|k: int| 0 <= k < order@.len() ==> (#[trigger] order@[k]) < list@.len(),
            export_steps(result_views(list@), order@, *opts).len() <= usize::MAX,
        ensures
            run.wf(),
            run.at == 0,
            run.steps@ == export_steps(result_views(list@), order@, *opts),
            run.total_frames == overlay_total(result_views(list@), order@, *opts, order@.len() as int),
    {
        let ghost views = result_views(list@);
        let mut steps: Vec<ExportStep> = Vec::new();
        let n: usize = order.len();
        let mut k: usize = 0;
        while k < n
            invariant
                k <= n,
                n == order@.len(),
                forall|j: int| 0 <= j < order@.len() ==> (#[trigger] order@[j]) < list@.len(),
                views == result_views(list@),
                steps@ == sample_steps(views, order@, *opts, k as int),
            decreases n - k,
        {
            let i: usize = order[k];
            let ghost before = steps@;
            let m: usize = list[i].results.frames.len();
            proof {
                assert(views[i as int] == list@[i as int]@);
                assert(views[i as int].results.frames.len() == m);
            }
            push_head(&mut steps, i, opts);
            push_overlays(&mut steps, i, m, opts);
            assert(sample_steps(views, order@, *opts, k + 1) == before + head_steps(i, *opts) + overlay_steps(
                i,
                m as nat,
                *opts,
            ));
            k += 1;
        }
        let ghost samples = steps@;
        steps.push(ExportStep::CombinedSummary);
        if opts.hist && n > 1 {
            steps.push(ExportStep::CombinedHistogram);
        }
        proof {
            lemma_sample_overlays(views, order@, *opts, n as int);
            let tail = if opts.hist && n > 1 {
                seq![ExportStep::CombinedSummary, ExportStep::CombinedHistogram]
            } else {
                seq![ExportStep::CombinedSummary]
            };
            assert(steps@ =~= samples + tail);
            lemma_no_overlays(tail, tail.len() as int);
            lemma_overlays_split(samples, tail, tail.len() as int);
        }
        let total_frames: usize = count_overlays(&steps);
        ExportRun { steps, at: 0, done_frames: 0, total_frames }
    }

    /// The step that comes next.
    pub fn next(&self) -> (r: Option<ExportStep>)
        requires
            self.wf(),
        ensures
            r == (if self.at < self.steps@.len() {
                Some(self.steps@[self.at as int])
            } else {
                None
            }),
    {
        if self.at < self.steps.len() {
            Some(self.steps[self.at])
        } else {
            None
        }
    }

    /// Notes that a step is done, and gives what to say: every tenth overlay how many there
    /// are.
    pub fn done(&mut self) -> (r: Option<String>)
        requires
            old(self).wf(),
            old(self).at < old(self).steps@.len(),
        ensures
            final(self).wf(),
            final(self).steps@ == old(self).steps@,
            final(self).at == old(self).at + 1,
            final(self).total_frames == old(self).total_frames,
            opt_text(r) == (if old(self).steps@[old(self).at as int] is Overlay && final(self).done_frames % 10 == 0 {
                Some(
                    "Exporting overlays… "@ + decimal(final(self).done_frames as nat) + "/"@ + decimal(
                        old(self).total_frames as nat,
                    ),
                )
            } else {
                None
            }),
    {
        proof {
            lemma_overlays_bound(self.steps@, self.at + 1);
        }
        let overlay: bool = match self.steps[self.at] {
            ExportStep::Overlay(_, _) => true,
            _ => false,
        };
        assert(self.at < self.steps.len());
        self.at = self.at + 1;
        if overlay {
            self.done_frames = self.done_frames + 1;
            if self.done_frames % 10 == 0 {
                let mut text = "Exporting overlays… ".to_owned();
                text.append(count_text(self.done_frames).as_str());
                text.append("/");
                text.append(count_text(self.total_frames).as_str());
                return Some(text);
            }
        }
        None
    }
}

/// How many of the steps are overlays.
fn count_overlays(steps: &Vec<ExportStep>) -> (r: usize)
    ensures
        r == overlays_before(steps@, steps@.len() as int),
{
    let n: usize = steps.len();
    let mut count: usize = 0;
    let mut i: usize = 0;
    while i < n
        invariant
            i <= n,
            n == steps@.len(),
            count <= i,
            count == overlays_before(steps@, i as int),
        decreases n - i,
    {
        match steps[i] {
            ExportStep::Overlay(_, _) => {
                count += 1;
            },
            _ => {},
        }
        i += 1;
    }
    count
}

/// What is said when a step fails: `name` is the sample's name, `dir` the directory that
/// could not be made.
pub open spec fn failure_line(step: ExportStep, name: Seq<char>, dir: Seq<char>, e: Seq<char>) -> Seq<char> {
    match step {
        ExportStep::SampleDir(_) => "Could not create "@ + dir + ": "@ + e,
        ExportStep::Metadata(_) => "Metadata write failed for "@ + name + ": "@ + e,
        ExportStep::Summary(_) => "Summary write failed for "@ + name + ": "@ + e,
        ExportStep::Csv(_) => "CSV export failed for "@ + name + ": "@ + e,
        ExportStep::HistogramCsv(_) => "Histogram CSV failed for "@ + name + ": "@ + e,
        ExportStep::Histogram(_) => "Histogram export failed for "@ + name + ": "@ + e,
        ExportStep::OverlayDir(_) => "Could not create "@ + dir + ": "@ + e,
        ExportStep::Overlay(_, _) => "PNG overlay failed for "@ + name + ": "@ + e,
        ExportStep::CombinedSummary => "Combined summary CSV failed: "@ + e,
        ExportStep::CombinedHistogram => "Combined histogram failed: "@ + e,
    }
}

/// The sample that a step is about: all of them for the last steps.
pub open spec fn sample_of(step: ExportStep) -> Option<usize> {
    match step {
        ExportStep::SampleDir(i) => Some(i),
        ExportStep::Metadata(i) => Some(i),
        ExportStep::Summary(i) => Some(i),
        ExportStep::Csv(i) => Some(i),
        ExportStep::HistogramCsv(i) => Some(i),
        ExportStep::Histogram(i) => Some(i),
        ExportStep::OverlayDir(i) => Some(i),
        ExportStep::Overlay(i, _) => Some(i),
        ExportStep::CombinedSummary => None,
        ExportStep::CombinedHistogram => None,
    }
}

/// The directory that a step makes or writes to, in parts below that of the export: that of
/// its sample, for overlays the one in it, and none for what shows all samples.
pub open spec fn step_parts(list: Seq<ResultView>, step: ExportStep) -> Seq<Seq<char>> {
    match sample_of(step) {
        None => Seq::empty(),
        Some(i) => if step is OverlayDir || step is Overlay {
            seq![list[i as int].name, "overlays"@]
        } else {
            seq![list[i as int].name]
        },
    }
}

/// The sample that a step is about.
pub fn step_sample(step: ExportStep) -> (r: Option<usize>)
    ensures
        r == sample_of(step),
        r is None <==> step is CombinedSummary || step is CombinedHistogram,
        step matches ExportStep::SampleDir(i) ==> r == Some(i),
        step matches ExportStep::Metadata(i) ==> r == Some(i),
        step matches ExportStep::Summary(i) ==> r == Some(i),
        step matches ExportStep::Csv(i) ==> r == Some(i),
        step matches ExportStep::HistogramCsv(i) ==> r == Some(i),
        step matches ExportStep::Histogram(i) ==> r == Some(i),
        step matches ExportStep::OverlayDir(i) ==> r == Some(i),
        step matches ExportStep::Overlay(i, _) ==> r == Some(i),
{
    match step {
        ExportStep::SampleDir(i) => Some(i),
        ExportStep::Metadata(i) => Some(i),
        ExportStep::Summary(i) => Some(i),
        ExportStep::Csv(i) => Some(i),
        ExportStep::HistogramCsv(i) => Some(i),
        ExportStep::Histogram(i) => Some(i),
        ExportStep::OverlayDir(i) => Some(i),
        ExportStep::Overlay(i, _) => Some(i),
        ExportStep::CombinedSummary => None,
        ExportStep::CombinedHistogram => None,
    }
}

/// The directory that a step makes or writes to, in parts below that of the export.
pub fn step_dir(list: &Vec<ResultEntry>, step: ExportStep) -> (parts: Vec<String>)
    requires
        sample_of(step) matches Some(i) ==> i < list@.len(),
    ensures
        parts@.map_values(|t: String| t@) == step_parts(result_views(list@), step),
        sample_of(step) is None ==> parts@.len() == 0,
        sample_of(step) matches Some(i) ==> {
            &&& parts@[0]@ == list@[i as int].name@
            &&& step is OverlayDir || step is Overlay ==> parts@.len() == 2 && parts@[1]@ == "overlays"@
            &&& !(step is OverlayDir || step is Overlay) ==> parts@.len() == 1
        },
{
    let mut parts: Vec<String> = Vec::new();
    if let Some(i) = step_sample(step) {
        assert(result_views(list@)[i as int] == list@[i as int]@);
        parts.push(list[i].name.clone());
        let below: bool = match step {
            ExportStep::OverlayDir(_) => true,
            ExportStep::Overlay(_, _) => true,
            _ => false,
        };
        if below {
            parts.push("overlays".to_owned());
        }
    }
    assert(parts@.map_values(|t: String| t@) =~= step_parts(result_views(list@), step));
    parts
}

/// A text with what it is about and an error behind it.
fn about(text: &str, what: &String, e: &String) -> (r: String)
    ensures
        r@ == text@ + what@ + ": "@ + e@,
{
    let mut r = text.to_owned();
    r.append(what.as_str());
    r.append(": ");
    r.append(e.as_str());
    r
}

/// A text with an error behind it.
fn with_error(text: &str, e: &String) -> (r: String)
    ensures
        r@ == text@ + e@,
{
    let mut r = text.to_owned();
    r.append(e.as_str());
    r
}

/// What is said when the directory of an export cannot be made.
pub fn target_failure(dir: &String, e: &String) -> (r: String)
    ensures
        r@ == "Could not create "@ + dir@ + ": "@ + e@,
{
    about("Could not create ", dir, e)
}

/// What is said when a step fails.
pub fn step_failure(step: ExportStep, name: &String, dir: &String, e: &String) -> (r: String)
    ensures
        r@ == failure_line(step, name@, dir@, e@),
        step is SampleDir || step is OverlayDir ==> r@ == "Could not create "@ + dir@ + ": "@ + e@,
        step is Metadata ==> r@ == "Metadata write failed for "@ + name@ + ": "@ + e@,
        step is Summary ==> r@ == "Summary write failed for "@ + name@ + ": "@ + e@,
        step is Csv ==> r@ == "CSV export failed for "@ + name@ + ": "@ + e@,
        step is HistogramCsv ==> r@ == "Histogram CSV failed for "@ + name@ + ": "@ + e@,
        step is Histogram ==> r@ == "Histogram export failed for "@ + name@ + ": "@ + e@,
        step is Overlay ==> r@ == "PNG overlay failed for "@ + name@ + ": "@ + e@,
        step is CombinedSummary ==> r@ == "Combined summary CSV failed: "@ + e@,
        step is CombinedHistogram ==> r@ == "Combined histogram failed: "@ + e@,
{
    match step {
        ExportStep::SampleDir(_) => about("Could not create ", dir, e),
        ExportStep::Metadata(_) => about("Metadata write failed for ", name, e),
        ExportStep::Summary(_) => about("Summary write failed for ", name, e),
        ExportStep::Csv(_) => about("CSV export failed for ", name, e),
        ExportStep::HistogramCsv(_) => about("Histogram CSV failed for ", name, e),
        ExportStep::Histogram(_) => about("Histogram export failed for ", name, e),
        ExportStep::OverlayDir(_) => about("Could not create ", dir, e),
        ExportStep::Overlay(_, _) => about("PNG overlay failed for ", name, e),
        ExportStep::CombinedSummary => with_error("Combined summary CSV failed: ", e),
        ExportStep::CombinedHistogram => with_error("Combined histogram failed: ", e),
    }
}

/// What is said at the end of an export.
pub fn export_done(n: usize, target: &String) -> (r: String)
    ensures
        r@ == "Exported "@ + decimal(n as nat) + " sample(s) to "@ + target@,
{
    let mut r = "Exported ".to_owned();
    r.append(count_text(n).as_str());
    r.append(" sample(s) to ");
    r.append(target.as_str());
    r
}

/// The name of the file with the histogram of a sample.
pub fn histogram_file(name: &String) -> (r: String)
    ensures
        r@ == name@ + "_histogram.png"@,
{
    let mut r = name.clone();
    r.append("_histogram.png");
    r
}

/// The name of the file with the overlay of a frame: that of its image, or a stand-in.
pub fn overlay_file(stem: &Option<String>) -> (r: String)
    ensures
        r@ == (match opt_text(*stem) {
            Some(s) => s,
            None => "frame"@,
        }) + "_overlay.png"@,
{
    let mut r = match stem {
        Some(s) => s.clone(),
        None => "frame".to_owned(),
    };
    r.append("_overlay.png");
    r
}

/// What is written down about how a sample was analysed.
#[derive(Debug)]
pub struct RunMetadata {
    pub file_name: String,
    pub image_dir: String,
    pub weights: String,
    pub weights_bundled: bool,
    pub device: &'static str,
    pub imgsz: u32,
    pub settings: SavedDefaults,
    pub n_frames: usize,
    pub n_bubbles_accepted: usize,
    pub n_bubbles_rejected: usize,
    pub n_static_rejected: usize,
}

impl AppState {
    /// What is written down about how result `i` was analysed.
    pub fn run_metadata(&self, i: usize) -> (m: RunMetadata)
        requires
            i < self@.results_list.len(),
            totals_fit(self@.results_list[i as int].results.frames),
        ensures
            ({
                let r = self@.results_list[i as int];
                &&& m.file_name@ == r.results.sample_name + "_run_metadata.json"@
                &&& m.image_dir@ == r.source_path
                &&& m.weights@ == self@.model.weights_path
                &&& m.weights_bundled == self@.model.using_bundled
                &&& m.device@ == device_label(self@.settings.device)
                &&& m.imgsz == self@.imgsz
                &&& m.settings == self@.settings
                &&& m.n_frames == r.results.frames.len()
                &&& m.n_bubbles_accepted == accepted_in(r.results.frames)
                &&& m.n_bubbles_rejected == rejected_in(r.results.frames)
                &&& m.n_static_rejected == static_in(r.results.frames)
            }),
    {
        let r = &self.results_list[i];
        assert(self@.results_list[i as int] == r@);
        assert(r@.results.frames.len() == r.results.frames.len());
        let mut file_name = r.results.sample_name.clone();
        file_name.append("_run_metadata.json");
        RunMetadata {
            file_name,
            image_dir: r.source_path.clone(),
            weights: self.model.weights_path.clone(),
            weights_bundled: self.model.using_bundled,
            device: self.settings.device.label(),
            imgsz: self.imgsz,
            settings: self.settings,
            n_frames: r.results.frames.len(),
            n_bubbles_accepted: r.results.total_bubbles(),
            n_bubbles_rejected: r.results.total_rejected(),
            n_static_rejected: r.results.total_static(),
        }
    }
}

/// The name proposed for an export is that of the sample where there is just one, and else that
/// of a run, with the confidence and the time behind it.
pub proof fn proposed_name_tells_of_the_export(
    list: Seq<ResultView>,
    order: Seq<usize>,
    conf_percent: u32,
    ts: Seq<char>,
)
    ensures
        order.len() == 1 ==> proposed_name(list, order, conf_percent, ts) == list[order[0] as int].name + "_count_"@ + (
        "conf"@ + two_digits(conf_percent as nat)) + "_"@ + ts,
        order.len() != 1 ==> proposed_name(list, order, conf_percent, ts) == "bsnobs_run_"@ + ("conf"@ + two_digits(
            conf_percent as nat,
        )) + "_"@ + ts,
{
}

/// The steps of one sample: its directory, what was done, its summary, then the tables, the
/// histogram and the overlays as far as they are chosen, an overlay for each frame in turn.
pub proof fn sample_is_exported_in_steps(i: usize, n_frames: nat, opts: ExportOpts)
    ensures
        ({
            let steps = head_steps(i, opts) + overlay_steps(i, n_frames, opts);
            let tables = if opts.csv {
                2int
            } else {
                0int
            };
            let hist = if opts.hist {
                1int
            } else {
                0int
            };
            let head = 3 + tables + hist;
            &&& steps.len() == head + if opts.png {
                1 + n_frames
            } else {
                0
            }
            &&& steps[0] == ExportStep::SampleDir(i)
            &&& steps[1] == ExportStep::Metadata(i)
            &&& steps[2] == ExportStep::Summary(i)
            &&& opts.csv ==> steps[3] == ExportStep::Csv(i) && steps[4] == ExportStep::HistogramCsv(i)
            &&& opts.hist ==> steps[3 + tables] == ExportStep::Histogram(i)
            &&& opts.png ==> steps[head] == ExportStep::OverlayDir(i)
            &&& opts.png ==> forall|q: int|
                head < q < steps.len() ==> #[trigger] steps[q] == ExportStep::Overlay(i, (q - head - 1) as usize)
        }),
{
    let head = head_steps(i, opts);
    let tail = overlay_steps(i, n_frames, opts);
    let steps = head + tail;
    if opts.png {
        assert forall|q: int| head.len() < q < steps.len() implies #[trigger] steps[q] == ExportStep::Overlay(
            i,
            (q - head.len() - 1) as usize,
        ) by {
            assert(steps[q] == tail[q - head.len()]);
        }
    }
}

proof fn lemma_samples_in_turn(list: Seq<ResultView>, order: Seq<usize>, opts: ExportOpts, n: int)
    requires
        0 <= n <= order.len(),
    ensures
        sample_steps(list, order, opts, n) == order.take(n).map_values(
            |i: usize| head_steps(i, opts) + overlay_steps(i, list[i as int].results.frames.len(), opts),
        ).flatten(),
    decreases n,
{
    let of_one = |i: usize| head_steps(i, opts) + overlay_steps(i, list[i as int].results.frames.len(), opts);
    let lists = order.take(n).map_values(of_one);
    if n > 0 {
        lemma_samples_in_turn(list, order, opts, n - 1);
        let before = order.take(n - 1).map_values(of_one);
        assert(lists.drop_last() =~= before);
        assert(lists.last() == of_one(order[n - 1]));
        lists.lemma_flatten_and_flatten_alt_are_equivalent();
        before.lemma_flatten_and_flatten_alt_are_equivalent();
        assert(sample_steps(list, order, opts, n) =~= before.flatten() + of_one(order[n - 1]));
    } else {
        assert(lists =~= Seq::empty());
        assert(lists.flatten() =~= Seq::empty());
    }
}

/// An export goes through the samples in the given order, all steps of one before the next, and
/// ends with what shows all of them.
pub proof fn export_goes_sample_by_sample(list: Seq<ResultView>, order: Seq<usize>, opts: ExportOpts)
    ensures
        export_steps(list, order, opts) == order.map_values(
            |i: usize| head_steps(i, opts) + overlay_steps(i, list[i as int].results.frames.len(), opts),
        ).flatten() + (if opts.hist && order.len() > 1 {
            seq![ExportStep::CombinedSummary, ExportStep::CombinedHistogram]
        } else {
            seq![ExportStep::CombinedSummary]
        }),
{
    lemma_samples_in_turn(list, order, opts, order.len() as int);
    assert(order.take(order.len() as int) =~= order);
    let all = sample_steps(list, order, opts, order.len() as int);
    let tail = if opts.hist && order.len() > 1 {
        seq![ExportStep::CombinedSummary, ExportStep::CombinedHistogram]
    } else {
        seq![ExportStep::CombinedSummary]
    };
    assert(export_steps(list, order, opts) =~= all + tail);
}

/// The overlays among the first steps are counted one by one.
pub proof fn overlays_are_counted(steps: Seq<ExportStep>, n: int)
    requires
        0 <= n <= steps.len(),
    ensures
        overlays_before(steps, n) == steps.take(n).filter(|s: ExportStep| s is Overlay).len(),
    decreases n,
{
    reveal(Seq::filter);
    if n > 0 {
        overlays_are_counted(steps, n - 1);
        assert(steps.take(n).drop_last() =~= steps.take(n - 1));
    }
}

/// As many overlays are made as the samples have frames, where overlays are chosen.
pub proof fn overlays_total_all_frames(list: Seq<ResultView>, order: Seq<usize>, opts: ExportOpts, n: int)
    requires
        0 <= n <= order.len(),
    ensures
        !opts.png ==> overlay_total(list, order, opts, n) == 0,
        opts.png ==> overlay_total(list, order, opts, n) == order.take(n).fold_left(
            0int,
            |sum: int, i: usize| sum + list[i as int].results.frames.len(),
        ),
    decreases n,
{
    if n > 0 {
        overlays_total_all_frames(list, order, opts, n - 1);
        assert(order.take(n).drop_last() =~= order.take(n - 1));
    }
}

} // verus!
