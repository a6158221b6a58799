//! Running the detection over the folders of the workspace.
use crate::app::invalidated;
use crate::app::AppState;
use crate::app::AppView;
use crate::calc::answered;
use crate::calc::computes;
use crate::model::ModelView;
use crate::results::result_views;
use crate::results::ticks_ranked;
use crate::results::ResultEntry;
use crate::results::ResultView;
use crate::scalar::Scalar;
use crate::settings::snapshot_of;
use crate::settings::SavedDefaults;
use crate::static_filter::apply;
use crate::static_filter::filter_keeps_counts;
use crate::static_filter::filter_moves_rejected;
use crate::static_filter::filtered;
use crate::static_filter::hits;
use crate::static_filter::indexable;
use crate::static_filter::items_of;
use crate::static_filter::limits_of;
use crate::static_filter::persistent;
use crate::static_filter::picked_in;
use crate::static_filter::starts;
use crate::static_filter::Closeness;
use crate::static_filter::Spot;
use crate::static_filter::StaticFilterConfig;
use crate::static_filter::StaticLimits;
use crate::text::count_text;
use crate::text::decimal;
use crate::text::decimal_text;
use crate::text::opt_text;
use crate::types::accepted_in;
use crate::types::all_counts_agree;
use crate::types::valid_count;
use crate::types::AnalysisResults;
use crate::types::FrameResult;
use crate::types::FrameView;
use crate::types::ResultsView;
use crate::viewer::results_agree;
use crate::viewer::ViewerState;
use crate::workspace::any_to_run;
use crate::workspace::folder_views;
use crate::workspace::folders_in_all;
use crate::workspace::folders_to_run;
use crate::workspace::Folder;
use crate::workspace::FolderView;
use vstd::prelude::*;
use vstd::string::StringExecFns;

verus! {

/// How far a run has got.
#[derive(Clone, Copy, Debug, PartialEq, Eq, Structural)]
pub struct RunProgress {
    pub folder_idx: usize,
    pub folder_total: usize,
    pub frame_idx: usize,
    pub frame_total: usize,
}

impl Default for RunProgress {
    fn default() -> (r: RunProgress)
        ensures
            r == (RunProgress { folder_idx: 0, folder_total: 0, frame_idx: 0, frame_total: 0 }),
    {
        RunProgress { folder_idx: 0, folder_total: 0, frame_idx: 0, frame_total: 0 }
    }
}

/// What a run tells of itself.
#[derive(Debug)]
pub enum WorkerMsg {
    Progress {
        folder_idx: usize,
        folder_total: usize,
        folder_name: String,
        frame_idx: usize,
        frame_total: usize,
        frame_name: String,
    },
    FolderDone(ResultEntry),
    AllDone,
    Failed(String),
}

/// What a run works on, and the settings that it started with.
#[derive(Debug)]
pub struct RunPlan {
    pub folders: Vec<Folder>,
    pub settings: SavedDefaults,
}

/// Some folder has this path.
pub open spec fn reruns(folders: Seq<FolderView>, path: Seq<char>) -> bool {
    exists|i: int| 0 <= i < folders.len() && (#[trigger] folders[i]).path == path
}

/// The results of folders that are not run on again, in order.
pub open spec fn kept_results(list: Seq<ResultView>, folders: Seq<FolderView>) -> Seq<ResultView>
    decreases list.len(),
{
    if list.len() == 0 {
        Seq::empty()
    } else if reruns(folders, list.last().source_path) {
        kept_results(list.drop_last(), folders)
    } else {
        kept_results(list.drop_last(), folders).push(list.last())
    }
}

/// The state once a run is asked for. Without a model, or while one is going on, nothing
/// happens. Otherwise the model goes to the run, the settings that it starts with are noted,
/// and the results of the folders that are run on again are given up.
pub open spec fn run_started(s: AppView) -> AppView {
    let folders = folders_in_all(s.workspace);
    if !s.model.ready || s.in_progress {
        s
    } else if folders.len() == 0 {
        AppView { status: "Nothing to run — tick at least one folder in the workspace."@, ..s }
    } else {
        AppView {
            model: ModelView { ready: false, ..s.model },
            results_list: kept_results(s.results_list, folders),
            in_progress: true,
            run_settings: Some(snapshot_of(s.settings)),
            progress: RunProgress {
                folder_idx: 0,
                folder_total: folders.len() as usize,
                frame_idx: 0,
                frame_total: 0,
            },
            status: "Running inference on "@ + decimal(folders.len()) + " folder(s)…"@,
            ..s
        }
    }
}

/// A run can be started.
pub open spec fn startable(s: AppView) -> bool {
    s.model.ready && !s.in_progress && folders_in_all(s.workspace).len() > 0
}

/// Whether some folder has this path.
fn is_rerun(folders: &Vec<Folder>, path: &String) -> (r: bool)
    ensures
        r == reruns(folder_views(folders@), path@),
{
    let n: usize = folders.len();
    let mut i: usize = 0;
    while i < n
        invariant
            i <= n,
            n == folders@.len(),
            forall|k: int| 0 <= k < i ==> (#[trigger] folder_views(folders@)[k]).path != path@,
        decreases n - i,
    {
        assert(folder_views(folders@)[i as int] == folders@[i as int]@);
        if folders[i].path == *path {
            return true;
        }
        i += 1;
    }
    false
}

/// Gives up the results of folders that are run on again.
fn drop_rerun(list: Vec<ResultEntry>, folders: &Vec<Folder>) -> (kept: Vec<ResultEntry>)
    ensures
        result_views(kept@) == kept_results(result_views(list@), folder_views(folders@)),
{
    let ghost all = result_views(list@);
    let ghost fs = folder_views(folders@);
    let mut kept: Vec<ResultEntry> = Vec::new();
    let n: usize = list.len();
    let mut rest = list;
    let mut left: Vec<ResultEntry> = Vec::new();
    let mut k: usize = 0;
    while k < n
        invariant
            k <= n,
            n == list@.len(),
            rest@ == list@.take(n - k),
            left@.len() == k,
            forall|j: int| 0 <= j < k ==> (#[trigger] left@[j]) == list@[n - 1 - j],
        decreases n - k,
    {
        if let Some(entry) = rest.pop() {
            left.push(entry);
        }
        assert(rest@ =~= list@.take(n - k - 1));
        k += 1;
    }
    let mut i: usize = 0;
    assert(all.take(0) =~= Seq::empty());
    assert(result_views(kept@) =~= Seq::empty());
    while i < n
        invariant
            i <= n,
            n == list@.len(),
            left@.len() == n - i,
            forall|k: int| 0 <= k < n - i ==> (#[trigger] left@[k]) == list@[n - 1 - k],
            all == result_views(list@),
            fs == folder_views(folders@),
            result_views(kept@) == kept_results(all.take(i as int), fs),
        decreases n - i,
    {
        let ghost was = kept@;
        proof {
            assert(all.take(i + 1).drop_last() =~= all.take(i as int));
            assert(left@[n - i - 1] == list@[i as int]);
        }
        if let Some(entry) = left.pop() {
            assert(entry == list@[i as int]);
            assert(all.take(i + 1).last() == entry@);
            if !is_rerun(folders, &entry.source_path) {
                kept.push(entry);
                assert(result_views(kept@) =~= result_views(was).push(entry@));
            }
        }
        i += 1;
    }
    assert(all.take(n as int) =~= all);
    kept
}

impl AppState {
    /// Starts a run over the folders that are ticked, and tells what it works on.
    pub fn start_run(&mut self) -> (plan: Option<RunPlan>)
        ensures
            final(self)@ == run_started(old(self)@),
            plan is Some <==> startable(old(self)@),
            plan matches Some(p) ==> {
                &&& folder_views(p.folders@) == folders_in_all(old(self)@.workspace)
                &&& p.settings == old(self)@.settings
            },
    {
        if !self.model.ready || self.in_progress {
            return None;
        }
        let folders = folders_to_run(&self.workspace);
        let n: usize = folders.len();
        assert(n == folder_views(folders@).len());
        if n == 0 {
            self.status = "Nothing to run — tick at least one folder in the workspace.".to_owned();
            return None;
        }
        self.model.ready = false;
        let mut list: Vec<ResultEntry> = Vec::new();
        std::mem::swap(&mut list, &mut self.results_list);
        self.results_list = drop_rerun(list, &folders);
        self.in_progress = true;
        self.run_settings = Some(self.snapshot_settings());
        self.progress = RunProgress { folder_idx: 0, folder_total: n, frame_idx: 0, frame_total: 0 };
        let mut status = "Running inference on ".to_owned();
        status.append(count_text(n).as_str());
        status.append(" folder(s)…");
        self.status = status;
        Some(RunPlan { folders, settings: self.settings })
    }

    /// Whether a run can be started.
    pub fn can_run(&self) -> (r: bool)
        ensures
            r == startable(self@),
            r == (self.model.ready && !self.in_progress && folders_in_all(self@.workspace).len() > 0),
    {
        self.model.ready && !self.in_progress && any_to_run(&self.workspace)
    }

    /// What the button that starts a run says.
    pub fn run_text(&self) -> (r: &'static str)
        ensures
            r@ == (if self@.in_progress {
                "Running…"@
            } else {
                "RUN"@
            }),
    {
        if self.in_progress {
            "Running…"
        } else {
            "RUN"
        }
    }
}

/// A run under way: what it works on, in which folder it is, and what that folder has
/// given so far.
#[derive(Debug)]
pub struct Worker {
    pub plan: RunPlan,
    pub folder: usize,
    pub results: AnalysisResults,
}

/// A run under way with texts and lists as sequences.
pub struct WorkerView {
    pub folders: Seq<FolderView>,
    pub settings: SavedDefaults,
    pub folder: int,
    pub results: ResultsView,
}

impl View for Worker {
    type V = WorkerView;

    open spec fn view(&self) -> WorkerView {
        WorkerView {
            folders: folder_views(self.plan.folders@),
            settings: self.plan.settings,
            folder: self.folder as int,
            results: self.results@,
        }
    }
}

/// No results yet for the folder that the run is in.
pub open spec fn no_results(folders: Seq<FolderView>, settings: SavedDefaults, folder: int) -> ResultsView {
    ResultsView {
        sample_name: if folder < folders.len() {
            folders[folder].name
        } else {
            ""@
        },
        parameters: settings.params,
        frames: Seq::empty(),
    }
}

impl WorkerView {
    /// The run is in one of its folders or behind the last, and has no more frames of that
    /// folder than the folder has images.
    pub open spec fn wf(self) -> bool {
        &&& 0 <= self.folder <= self.folders.len()
        &&& self.results == (ResultsView {
            frames: self.results.frames,
            ..no_results(self.folders, self.settings, self.folder)
        })
        &&& self.folder < self.folders.len() ==> self.results.frames.len() <= self.folders[self.folder].files.len()
        &&& self.folder == self.folders.len() ==> self.results.frames.len() == 0
    }
}

/// What a run does next.
#[derive(Debug)]
pub enum WorkStep {
    Predict(String),
    Finish,
    Done,
}

/// What a run does next, with paths as sequences.
pub enum StepView {
    Predict(Seq<char>),
    Finish,
    Done,
}

impl View for WorkStep {
    type V = StepView;

    open spec fn view(&self) -> StepView {
        match *self {
            WorkStep::Predict(path) => StepView::Predict(path@),
            WorkStep::Finish => StepView::Finish,
            WorkStep::Done => StepView::Done,
        }
    }
}

/// What the run does next: the next image of its folder, or, behind the last, finishing
/// the folder.
pub open spec fn next_step(w: WorkerView) -> StepView {
    if w.folder >= w.folders.len() {
        StepView::Done
    } else if w.results.frames.len() < w.folders[w.folder].files.len() {
        StepView::Predict(w.folders[w.folder].files[w.results.frames.len() as int])
    } else {
        StepView::Finish
    }
}

/// What a run says in a line when the static filter rejected something.
pub open spec fn filter_note(name: Seq<char>, rejected: nat, clusters: nat) -> Seq<char> {
    name + ": static filter rejected "@ + decimal(rejected) + " detection(s) across "@ + decimal(clusters)
        + " cluster(s)"@
}

/// What the filter rejects of some frames.
pub open spec fn filter_rejects<F: Fn((Spot, Spot)) -> Closeness>(
    compare: F,
    lim: StaticLimits,
    frames: Seq<FrameView>,
) -> spec_fn(int, int) -> bool {
    |f: int, b: int| persistent(compare, lim, frames, f, b)
}

/// The results of a folder once it is finished, with static detections rejected where the
/// settings ask for that. They are not ticked.
pub open spec fn finished_entry<
    L: Fn((StaticFilterConfig, usize)) -> (usize, Scalar),
    F: Fn((Spot, Spot)) -> Closeness,
>(w: WorkerView, limits: L, compare: F) -> ResultView {
    let folder = w.folders[w.folder];
    let frames = w.results.frames;
    let lim = limits_of(limits, w.settings.static_cfg, frames.len() as int);
    let pick = filter_rejects(compare, lim, frames);
    let rejected = picked_in(frames, frames.len() as int, pick);
    let items = items_of(frames);
    let clusters = starts(compare, lim, items, hits(compare, lim, frames), items.len() as int).len();
    ResultView {
        name: folder.name,
        source_path: folder.path,
        results: if w.settings.reject_static {
            ResultsView { frames: filtered(frames, pick), ..w.results }
        } else {
            w.results
        },
        visible: false,
        selection_order: None,
        static_note: if w.settings.reject_static && rejected > 0 {
            Some(filter_note(folder.name, rejected, clusters))
        } else {
            None
        },
    }
}

/// `limits` and `compare` were asked what the static filter of this folder needs.
pub open spec fn filter_answered<
    L: Fn((StaticFilterConfig, usize)) -> (usize, Scalar),
    F: Fn((Spot, Spot)) -> Closeness,
>(w: WorkerView, limits: L, compare: F) -> bool {
    let items = items_of(w.results.frames);
    &&& answered(limits, (w.settings.static_cfg, w.results.frames.len() as usize))
    &&& forall|i: int, j: int|
        0 <= i < items.len() && 0 <= j < items.len() ==> answered(
            compare,
            ((#[trigger] items[i]).spot, (#[trigger] items[j]).spot),
        )
}

/// The frames of a sample can still be counted once all accepted bubbles are rejected.
pub open spec fn rejectable(frames: Seq<FrameView>) -> bool {
    forall|f: int|
        0 <= f < frames.len() ==> (#[trigger] frames[f]).num_rejected + valid_count(frames[f].bubbles) <= usize::MAX
}

impl Worker {
    /// No results yet for a folder.
    fn fresh(plan: &RunPlan, folder: usize) -> (r: AnalysisResults)
        ensures
            r@ == no_results(folder_views(plan.folders@), plan.settings, folder as int),
    {
        assert(folder_views(plan.folders@).len() == plan.folders.len());
        let sample_name: String = if folder < plan.folders.len() {
            assert(folder_views(plan.folders@)[folder as int] == plan.folders@[folder as int]@);
            plan.folders[folder].name.clone()
        } else {
            "".to_owned()
        };
        let r = AnalysisResults { sample_name, parameters: plan.settings.params, frames: Vec::new() };
        assert(r@.frames =~= Seq::empty());
        r
    }

    /// A run at its start.
    pub fn new(plan: RunPlan) -> (w: Worker)
        ensures
            w@.wf(),
            w@ == (WorkerView {
                folders: folder_views(plan.folders@),
                settings: plan.settings,
                folder: 0,
                results: no_results(folder_views(plan.folders@), plan.settings, 0),
            }),
    {
        let results = Worker::fresh(&plan, 0);
        Worker { plan, folder: 0, results }
    }

    /// What the run does next.
    pub fn next(&self) -> (step: WorkStep)
        requires
            self@.wf(),
        ensures
            step@ == next_step(self@),
            step is Done <==> self.folder >= self.plan.folders@.len(),
            step is Finish <==> self.folder < self.plan.folders@.len() && self.results.frames@.len()
                == self.plan.folders@[self.folder as int].files@.len(),
            step matches WorkStep::Predict(path) ==> self.folder < self.plan.folders@.len() && self.results.frames@.len()
                < self.plan.folders@[self.folder as int].files@.len() && path@
                == self.plan.folders@[self.folder as int].files@[self.results.frames@.len() as int]@,
    {
        assert(self@.folders.len() == self.plan.folders.len());
        assert(self@.results.frames.len() == self.results.frames.len());
        if self.folder >= self.plan.folders.len() {
            return WorkStep::Done;
        }
        let folder = &self.plan.folders[self.folder];
        assert(self@.folders[self.folder as int] == folder@);
        let done: usize = self.results.frames.len();
        assert(folder@.files.len() == folder.files.len());
        if done < folder.files.len() {
            assert(folder@.files[done as int] == folder.files@[done as int]@);
            WorkStep::Predict(folder.files[done].clone())
        } else {
            WorkStep::Finish
        }
    }

    /// What the run tells before it looks at the next image.
    pub fn progress(&self, frame_name: String) -> (m: WorkerMsg)
        requires
            self@.wf(),
            self@.folder < self@.folders.len(),
        ensures
            m matches WorkerMsg::Progress {
                folder_idx,
                folder_total,
                folder_name,
                frame_idx,
                frame_total,
                frame_name: shown,
            } && {
                &&& folder_idx == self@.folder
                &&& folder_total == self@.folders.len()
                &&& folder_name@ == self@.folders[self@.folder].name
                &&& frame_idx == self@.results.frames.len()
                &&& frame_total == self@.folders[self@.folder].files.len()
                &&& shown@ == frame_name@
            },
    {
        assert(self@.folders.len() == self.plan.folders.len());
        let folder = &self.plan.folders[self.folder];
        assert(self@.folders[self.folder as int] == folder@);
        assert(folder@.files.len() == folder.files.len());
        assert(self@.results.frames.len() == self.results.frames.len());
        WorkerMsg::Progress {
            folder_idx: self.folder,
            folder_total: self.plan.folders.len(),
            folder_name: folder.name.clone(),
            frame_idx: self.results.frames.len(),
            frame_total: folder.files.len(),
            frame_name,
        }
    }

    /// Takes in the frame that was found on the next image.
    pub fn accept(&mut self, frame: FrameResult)
        requires
            old(self)@.wf(),
            next_step(old(self)@) is Predict,
        ensures
            final(self)@ == (WorkerView {
                results: ResultsView {
                    frames: old(self)@.results.frames.push(frame@),
                    ..old(self)@.results
                },
                ..old(self)@
            }),
            final(self)@.wf(),
    {
        let ghost start = self@;
        let ghost view = frame@;
        self.results.frames.push(frame);
        assert(self@.results.frames =~= start.results.frames.push(view));
    }

    /// What the run tells when an image cannot be analysed.
    pub fn failed(path: &String, error: &String) -> (m: WorkerMsg)
        ensures
            m matches WorkerMsg::Failed(text) && text@ == path@ + ": "@ + error@,
    {
        let mut text = path.clone();
        text.append(": ");
        text.append(error.as_str());
        WorkerMsg::Failed(text)
    }

    /// Finishes the folder that the run is in and goes on to the next. `limits` gives, for
    /// the settings of the static filter and a number of frames, how many frames make a
    /// detection static and the square of the tolerated distance. `compare` gives the squared
    /// distance and the relative difference of diameters of two detections.
    pub fn finish<L: Fn((StaticFilterConfig, usize)) -> (usize, Scalar), F: Fn((Spot, Spot)) -> Closeness>(
        &mut self,
        limits: L,
        compare: F,
    ) -> (entry: ResultEntry)
        requires
            old(self)@.wf(),
            next_step(old(self)@) is Finish,
            computes(limits),
            computes(compare),
            rejectable(old(self)@.results.frames),
        ensures
            entry@ == finished_entry(old(self)@, limits, compare),
            old(self)@.settings.reject_static ==> filter_answered(old(self)@, limits, compare),
            final(self)@ == (WorkerView {
                folder: old(self)@.folder + 1,
                results: no_results(old(self)@.folders, old(self)@.settings, old(self)@.folder + 1),
                ..old(self)@
            }),
            final(self)@.wf(),
    {
        let ghost start = self@;
        assert(self@.folders.len() == self.plan.folders.len());
        let at: usize = self.folder;
        assert(self@.folders[at as int] == self.plan.folders@[at as int]@);
        let mut results = Worker::fresh(&self.plan, at + 1);
        std::mem::swap(&mut results, &mut self.results);
        let folder = &self.plan.folders[at];
        let mut static_note: Option<String> = None;
        if self.plan.settings.reject_static {
            let ghost frames = results@.frames;
            let s = apply(&mut results, &self.plan.settings.static_cfg, limits, compare);
            proof {
                let lim = limits_of(limits, start.settings.static_cfg, frames.len() as int);
                assert(filter_rejects(compare, lim, frames) =~= (|f: int, b: int|
                    persistent(compare, lim, frames, f, b)));
            }
            if s.n_rejected > 0 {
                let mut text = folder.name.clone();
                text.append(": static filter rejected ");
                text.append(count_text(s.n_rejected).as_str());
                text.append(" detection(s) across ");
                text.append(count_text(s.n_clusters).as_str());
                text.append(" cluster(s)");
                static_note = Some(text);
            }
        }
        let entry = ResultEntry {
            name: folder.name.clone(),
            source_path: folder.path.clone(),
            results,
            visible: false,
            selection_order: None,
            static_note,
        };
        self.folder = at + 1;
        entry
    }
}

/// The steps for one folder: each image, then finishing it.
pub open spec fn folder_steps(f: FolderView) -> Seq<StepView> {
    f.files.map_values(|p: Seq<char>| StepView::Predict(p)).push(StepView::Finish)
}

/// The steps of a whole run.
pub open spec fn schedule(folders: Seq<FolderView>) -> Seq<StepView>
    decreases folders.len(),
{
    if folders.len() == 0 {
        Seq::empty()
    } else {
        schedule(folders.drop_last()) + folder_steps(folders.last())
    }
}

/// How many steps a run has taken.
pub open spec fn steps_taken(w: WorkerView) -> int {
    (schedule(w.folders.take(w.folder)).len() + w.results.frames.len()) as int
}

proof fn lemma_schedule_prefix(folders: Seq<FolderView>, k: int, i: int)
    requires
        0 <= k <= folders.len(),
        0 <= i < schedule(folders.take(k)).len(),
    ensures
        i < schedule(folders).len(),
        schedule(folders)[i] == schedule(folders.take(k))[i],
    decreases folders.len() - k,
{
    if k == folders.len() {
        assert(folders.take(k) =~= folders);
    } else {
        assert(folders.take(k + 1).drop_last() =~= folders.take(k));
        lemma_schedule_prefix(folders, k + 1, i);
    }
}

/// A run looks at every image of every folder once, in order, and finishes each folder
/// behind its last image: what it does next is what stands next in its schedule, and each
/// thing done is one step further.
pub proof fn run_follows_schedule(w: WorkerView, frame: FrameView)
    requires
        w.wf(),
    ensures
        next_step(w) is Done <==> steps_taken(w) == schedule(w.folders).len(),
        next_step(w) is Done || next_step(w) == schedule(w.folders)[steps_taken(w)],
        next_step(w) is Predict ==> steps_taken(
            WorkerView {
                results: ResultsView { frames: w.results.frames.push(frame), ..w.results },
                ..w
            },
        ) == steps_taken(w) + 1,
        next_step(w) is Finish ==> steps_taken(
            WorkerView {
                folder: w.folder + 1,
                results: no_results(w.folders, w.settings, w.folder + 1),
                ..w
            },
        ) == steps_taken(w) + 1,
{
    let folders = w.folders;
    let k = w.folder;
    if k < folders.len() {
        assert(folders.take(k + 1).drop_last() =~= folders.take(k));
        let here = schedule(folders.take(k + 1));
        assert(here == schedule(folders.take(k)) + folder_steps(folders[k]));
        lemma_schedule_prefix(folders, k + 1, steps_taken(w));
        assert(here[steps_taken(w)] == folder_steps(folders[k])[w.results.frames.len() as int]);
    } else {
        assert(folders.take(k) =~= folders);
    }
}

/// How many accepted bubbles some results hold.
pub open spec fn bubbles_in_all(list: Seq<ResultView>) -> nat
    decreases list.len(),
{
    if list.len() == 0 {
        0
    } else {
        bubbles_in_all(list.drop_last()) + accepted_in(list.last().results.frames)
    }
}

proof fn lemma_bubbles_monotone(list: Seq<ResultView>, i: int)
    requires
        0 <= i <= list.len(),
    ensures
        bubbles_in_all(list.take(i)) <= bubbles_in_all(list),
    decreases list.len() - i,
{
    if i == list.len() {
        assert(list.take(i) =~= list);
    } else {
        assert(list.take(i + 1).drop_last() =~= list.take(i));
        lemma_bubbles_monotone(list, i + 1);
    }
}

/// What a run tells of itself, with texts as sequences.
pub enum MsgView {
    Progress {
        folder_idx: usize,
        folder_total: usize,
        folder_name: Seq<char>,
        frame_idx: usize,
        frame_total: usize,
        frame_name: Seq<char>,
    },
    FolderDone(ResultView),
    AllDone,
    Failed(Seq<char>),
}

impl View for WorkerMsg {
    type V = MsgView;

    open spec fn view(&self) -> MsgView {
        match *self {
            WorkerMsg::Progress { folder_idx, folder_total, folder_name, frame_idx, frame_total, frame_name } => {
                MsgView::Progress {
                    folder_idx,
                    folder_total,
                    folder_name: folder_name@,
                    frame_idx,
                    frame_total,
                    frame_name: frame_name@,
                }
            },
            WorkerMsg::FolderDone(entry) => MsgView::FolderDone(entry@),
            WorkerMsg::AllDone => MsgView::AllDone,
            WorkerMsg::Failed(e) => MsgView::Failed(e@),
        }
    }
}

/// What is said while a run looks at an image.
pub open spec fn progress_line(
    folder_idx: usize,
    folder_total: usize,
    folder_name: Seq<char>,
    frame_idx: usize,
    frame_total: usize,
    frame_name: Seq<char>,
) -> Seq<char> {
    "["@ + decimal((folder_idx + 1) as nat) + "/"@ + decimal(folder_total as nat) + "] "@ + folder_name
        + "  —  frame ["@ + decimal((frame_idx + 1) as nat) + "/"@ + decimal(frame_total as nat) + "] "@ + frame_name
}

/// What is said at the end of a run.
pub open spec fn done_line(samples: usize, bubbles: nat, ms: u128) -> Seq<char> {
    "Done — "@ + decimal(samples as nat) + " sample(s), "@ + decimal(bubbles) + " bubbles total in "@ + decimal(
        ms as nat,
    ) + " ms"@
}

/// What is said while a run looks at an image.
fn progress_status(
    folder_idx: usize,
    folder_total: usize,
    folder_name: &String,
    frame_idx: usize,
    frame_total: usize,
    frame_name: &String,
) -> (text: String)
    requires
        folder_idx < usize::MAX,
        frame_idx < usize::MAX,
    ensures
        text@ == progress_line(folder_idx, folder_total, folder_name@, frame_idx, frame_total, frame_name@),
{
    let mut text = "[".to_owned();
    text.append(count_text(folder_idx + 1).as_str());
    text.append("/");
    text.append(count_text(folder_total).as_str());
    text.append("] ");
    text.append(folder_name.as_str());
    text.append("  —  frame [");
    text.append(count_text(frame_idx + 1).as_str());
    text.append("/");
    text.append(count_text(frame_total).as_str());
    text.append("] ");
    text.append(frame_name.as_str());
    text
}

/// What is said at the end of a run.
fn done_status(samples: usize, bubbles: usize, ms: u128) -> (text: String)
    ensures
        text@ == done_line(samples, bubbles as nat, ms),
{
    let mut text = "Done — ".to_owned();
    text.append(count_text(samples).as_str());
    text.append(" sample(s), ");
    text.append(count_text(bubbles).as_str());
    text.append(" bubbles total in ");
    text.append(decimal_text(ms).as_str());
    text.append(" ms");
    text
}

/// The state with the results of a folder added and brought into focus, and what the static
/// filter noted said.
pub open spec fn result_taken(s: AppView, entry: ResultView) -> AppView {
    AppView {
        status: match entry.static_note {
            Some(note) => note,
            None => s.status,
        },
        results_list: s.results_list.push(entry),
        focused_result: Some(s.results_list.len() as usize),
        viewer: ViewerState { current_frame: 0, texture_for: None, ..s.viewer },
        ..s
    }
}

/// The state at the end of a run: the model is back, and from now on settings are compared
/// against those that the run was started with, which its results were made with.
pub open spec fn run_ended(s: AppView, ms: u128) -> AppView {
    AppView {
        status: done_line(s.progress.folder_total, bubbles_in_all(s.results_list), ms),
        in_progress: false,
        model: ModelView { ready: true, ..s.model },
        last_settings: s.run_settings,
        run_settings: None,
        ..s
    }
}

/// The state once a run told something. A finished folder is brought into focus. At the end
/// the model comes back; after a run that did not fail, settings are compared against those
/// that it was started with.
pub open spec fn run_heard(s: AppView, m: MsgView, ms: u128) -> AppView {
    if !s.in_progress {
        s
    } else {
        match m {
            MsgView::Progress { folder_idx, folder_total, folder_name, frame_idx, frame_total, frame_name } => AppView {
                progress: RunProgress { folder_idx, folder_total, frame_idx, frame_total },
                status: progress_line(folder_idx, folder_total, folder_name, frame_idx, frame_total, frame_name),
                ..s
            },
            MsgView::FolderDone(entry) => result_taken(s, entry),
            MsgView::AllDone => run_ended(s, ms),
            MsgView::Failed(e) => AppView {
                status: "Inference failed: "@ + e,
                in_progress: false,
                run_settings: None,
                model: ModelView { ready: true, ..s.model },
                ..s
            },
        }
    }
}

impl AppState {
    /// How many accepted bubbles all results hold.
    fn total_bubbles(&self) -> (r: usize)
        requires
            bubbles_in_all(self@.results_list) <= usize::MAX,
        ensures
            r == bubbles_in_all(self@.results_list),
    {
        let ghost list = self@.results_list;
        let n: usize = self.results_list.len();
        let mut total: usize = 0;
        let mut i: usize = 0;
        while i < n
            invariant
                i <= n,
                n == self.results_list@.len(),
                list == result_views(self.results_list@),
                bubbles_in_all(list) <= usize::MAX,
                total == bubbles_in_all(list.take(i as int)),
            decreases n - i,
        {
            proof {
                assert(list.take(i + 1).drop_last() =~= list.take(i as int));
                assert(list.take(i + 1).last() == self.results_list@[i as int]@);
                lemma_bubbles_monotone(list, i + 1);
            }
            total += self.results_list[i].results.total_bubbles();
            i += 1;
        }
        assert(list.take(n as int) =~= list);
        total
    }

    /// Takes in the results of a folder.
    fn take_result(&mut self, entry: ResultEntry)
        ensures
            final(self)@ == result_taken(old(self)@, entry@),
    {
        let ghost start = self@;
        let ghost view = entry@;
        if let Some(note) = &entry.static_note {
            self.status = note.clone();
        }
        let at: usize = self.results_list.len();
        assert(start.results_list.len() == at);
        self.results_list.push(entry);
        assert(self@.results_list =~= start.results_list.push(view));
        self.focused_result = Some(at);
        self.viewer.current_frame = 0;
        self.viewer.texture_for = None;
    }

    /// Ends a run that did not fail.
    fn end_run(&mut self, ms: u128)
        requires
            bubbles_in_all(old(self)@.results_list) <= usize::MAX,
        ensures
            final(self)@ == run_ended(old(self)@, ms),
    {
        self.status = done_status(self.progress.folder_total, self.total_bubbles(), ms);
        self.in_progress = false;
        self.model.ready = true;
        self.last_settings = self.run_settings;
        self.run_settings = None;
    }

    /// Takes in what a run tells, `ms` milliseconds after it was started.
    pub fn drain_worker(&mut self, msg: WorkerMsg, ms: u128)
        requires
            bubbles_in_all(old(self)@.results_list) <= usize::MAX,
            msg@ matches MsgView::Progress { folder_idx, frame_idx, .. } ==> folder_idx < usize::MAX && frame_idx
                < usize::MAX,
        ensures
            final(self)@ == run_heard(old(self)@, msg@, ms),
    {
        if !self.in_progress {
            return;
        }
        match msg {
            WorkerMsg::Progress { folder_idx, folder_total, folder_name, frame_idx, frame_total, frame_name } => {
                self.progress = RunProgress { folder_idx, folder_total, frame_idx, frame_total };
                self.status = progress_status(
                    folder_idx,
                    folder_total,
                    &folder_name,
                    frame_idx,
                    frame_total,
                    &frame_name,
                );
            },
            WorkerMsg::FolderDone(entry) => {
                self.take_result(entry);
            },
            WorkerMsg::AllDone => {
                self.end_run(ms);
            },
            WorkerMsg::Failed(e) => {
                let mut text = "Inference failed: ".to_owned();
                text.append(e.as_str());
                self.status = text;
                self.in_progress = false;
                self.run_settings = None;
                self.model.ready = true;
            },
        }
    }

    /// What is shown over the picture while a run is going on.
    pub fn progress_text(&self) -> (r: Option<String>)
        requires
            self@.progress.folder_idx < usize::MAX,
            self@.progress.frame_idx < usize::MAX,
        ensures
            opt_text(r) == (if self@.in_progress && self@.progress.folder_total > 0 {
                Some(
                    decimal((self@.progress.folder_idx + 1) as nat) + "/"@ + decimal(
                        self@.progress.folder_total as nat,
                    ) + " folders · "@ + decimal((self@.progress.frame_idx + 1) as nat) + "/"@ + decimal(
                        self@.progress.frame_total as nat,
                    ) + " frames"@,
                )
            } else {
                None
            }),
    {
        if !self.in_progress || self.progress.folder_total == 0 {
            return None;
        }
        let mut text = count_text(self.progress.folder_idx + 1);
        text.append("/");
        text.append(count_text(self.progress.folder_total).as_str());
        text.append(" folders · ");
        text.append(count_text(self.progress.frame_idx + 1).as_str());
        text.append("/");
        text.append(count_text(self.progress.frame_total).as_str());
        text.append(" frames");
        Some(text)
    }
}

proof fn lemma_kept_result(list: Seq<ResultView>, folders: Seq<FolderView>, i: int)
    requires
        0 <= i < kept_results(list, folders).len(),
    ensures
        !reruns(folders, kept_results(list, folders)[i].source_path),
        list.contains(kept_results(list, folders)[i]),
    decreases list.len(),
{
    let shorter = list.drop_last();
    let rest = kept_results(shorter, folders);
    if i < rest.len() {
        lemma_kept_result(shorter, folders, i);
        let k = choose|k: int| 0 <= k < shorter.len() && shorter[k] == rest[i];
        assert(list[k] == rest[i]);
    } else {
        assert(list[list.len() - 1] == list.last());
    }
}

proof fn lemma_keeps_result(list: Seq<ResultView>, folders: Seq<FolderView>, i: int)
    requires
        0 <= i < list.len(),
        !reruns(folders, list[i].source_path),
    ensures
        kept_results(list, folders).contains(list[i]),
    decreases list.len(),
{
    let shorter = list.drop_last();
    let all = kept_results(list, folders);
    if i == list.len() - 1 {
        assert(all[all.len() - 1] == list[i]);
    } else {
        lemma_keeps_result(shorter, folders, i);
        let rest = kept_results(shorter, folders);
        let k = choose|k: int| 0 <= k < rest.len() && rest[k] == shorter[i];
        assert(all[k] == list[i]);
    }
}

/// A run that starts gives up the old results of just those folders that it runs on.
pub proof fn run_replaces_old_results(s: AppView, i: int, j: int)
    requires
        startable(s),
        0 <= i < s.results_list.len(),
        0 <= j < run_started(s).results_list.len(),
    ensures
        !reruns(folders_in_all(s.workspace), s.results_list[i].source_path)
            ==> run_started(s).results_list.contains(s.results_list[i]),
        !reruns(folders_in_all(s.workspace), run_started(s).results_list[j].source_path),
        s.results_list.contains(run_started(s).results_list[j]),
{
    let folders = folders_in_all(s.workspace);
    lemma_kept_result(s.results_list, folders, j);
    if !reruns(folders, s.results_list[i].source_path) {
        lemma_keeps_result(s.results_list, folders, i);
    }
}

/// A run borrows the model: while it goes on no other can start, and whether it fails or
/// not the model is back at its end.
pub proof fn run_gives_model_back(s: AppView, e: Seq<char>, ms: u128)
    requires
        startable(s),
    ensures
        run_started(s).in_progress,
        !startable(run_started(s)),
        run_started(run_started(s)) == run_started(s),
        ({
            let done = run_heard(run_started(s), MsgView::AllDone, ms);
            done.model.ready && !done.in_progress
        }),
        ({
            let failed = run_heard(run_started(s), MsgView::Failed(e), ms);
            failed.model.ready && !failed.in_progress && failed.results_list == run_started(s).results_list
        }),
{
}

/// The results of a run that ends well outlast the next look for changed settings where the
/// settings are those that the run was started with; otherwise they are given up then.
pub proof fn completed_run_answers_for_its_settings(s: AppView, ms: u128)
    requires
        s.in_progress,
    ensures
        ({
            let done = run_heard(s, MsgView::AllDone, ms);
            &&& done.results_list == s.results_list
            &&& s.run_settings == Some(snapshot_of(s.settings)) ==> invalidated(done) == done
            &&& s.run_settings != Some(snapshot_of(s.settings)) ==> invalidated(done).results_list.len() == 0
        }),
{
}

/// The run when it has looked at the first `i` images of folder `k`: `found` gives what was
/// found on each image of each folder.
pub open spec fn run_at(
    folders: Seq<FolderView>,
    settings: SavedDefaults,
    found: spec_fn(int, int) -> FrameView,
    k: int,
    i: int,
) -> WorkerView {
    WorkerView {
        folders,
        settings,
        folder: k,
        results: ResultsView {
            frames: Seq::new(i as nat, |j: int| found(k, j)),
            ..no_results(folders, settings, k)
        },
    }
}

/// The results of folder `k`, once the run has looked at all its images.
pub open spec fn folder_entry<
    L: Fn((StaticFilterConfig, usize)) -> (usize, Scalar),
    F: Fn((Spot, Spot)) -> Closeness,
>(
    folders: Seq<FolderView>,
    settings: SavedDefaults,
    found: spec_fn(int, int) -> FrameView,
    limits: L,
    compare: F,
    k: int,
) -> ResultView {
    finished_entry(run_at(folders, settings, found, k, folders[k].files.len() as int), limits, compare)
}

/// What a run tells while it works on folder `k`: its progress before each image, whose name
/// `name` gives, and the results behind the last.
pub open spec fn folder_messages<
    L: Fn((StaticFilterConfig, usize)) -> (usize, Scalar),
    F: Fn((Spot, Spot)) -> Closeness,
>(
    folders: Seq<FolderView>,
    settings: SavedDefaults,
    found: spec_fn(int, int) -> FrameView,
    name: spec_fn(int, int) -> Seq<char>,
    limits: L,
    compare: F,
    k: int,
) -> Seq<MsgView> {
    Seq::new(
        folders[k].files.len(),
        |i: int|
            MsgView::Progress {
                folder_idx: k as usize,
                folder_total: folders.len() as usize,
                folder_name: folders[k].name,
                frame_idx: i as usize,
                frame_total: folders[k].files.len() as usize,
                frame_name: name(k, i),
            },
    ).push(MsgView::FolderDone(folder_entry(folders, settings, found, limits, compare, k)))
}

/// What a run tells while it works on the first `n` folders.
pub open spec fn run_messages<
    L: Fn((StaticFilterConfig, usize)) -> (usize, Scalar),
    F: Fn((Spot, Spot)) -> Closeness,
>(
    folders: Seq<FolderView>,
    settings: SavedDefaults,
    found: spec_fn(int, int) -> FrameView,
    name: spec_fn(int, int) -> Seq<char>,
    limits: L,
    compare: F,
    n: int,
) -> Seq<MsgView>
    decreases n,
{
    if n <= 0 {
        Seq::empty()
    } else {
        run_messages(folders, settings, found, name, limits, compare, n - 1) + folder_messages(
            folders,
            settings,
            found,
            name,
            limits,
            compare,
            n - 1,
        )
    }
}

proof fn lemma_messages_prefix<
    L: Fn((StaticFilterConfig, usize)) -> (usize, Scalar),
    F: Fn((Spot, Spot)) -> Closeness,
>(
    folders: Seq<FolderView>,
    settings: SavedDefaults,
    found: spec_fn(int, int) -> FrameView,
    name: spec_fn(int, int) -> Seq<char>,
    limits: L,
    compare: F,
    k: int,
    n: int,
    i: int,
)
    requires
        0 <= k <= n,
        0 <= i < run_messages(folders, settings, found, name, limits, compare, k).len(),
    ensures
        i < run_messages(folders, settings, found, name, limits, compare, n).len(),
        run_messages(folders, settings, found, name, limits, compare, n)[i] == run_messages(
            folders,
            settings,
            found,
            name,
            limits,
            compare,
            k,
        )[i],
    decreases n,
{
    if k < n {
        lemma_messages_prefix(folders, settings, found, name, limits, compare, k, n - 1, i);
    }
}

proof fn lemma_message_count<
    L: Fn((StaticFilterConfig, usize)) -> (usize, Scalar),
    F: Fn((Spot, Spot)) -> Closeness,
>(
    folders: Seq<FolderView>,
    settings: SavedDefaults,
    found: spec_fn(int, int) -> FrameView,
    name: spec_fn(int, int) -> Seq<char>,
    limits: L,
    compare: F,
    n: int,
)
    requires
        0 <= n <= folders.len(),
    ensures
        run_messages(folders, settings, found, name, limits, compare, n).len() == schedule(folders.take(n)).len(),
    decreases n,
{
    if n > 0 {
        lemma_message_count(folders, settings, found, name, limits, compare, n - 1);
        assert(folders.take(n).drop_last() =~= folders.take(n - 1));
    }
}

/// A run tells something at each step: before an image its progress, and when it finishes a
/// folder that folder's results. What it tells next stands next among its messages.
pub proof fn run_tells_each_step<
    L: Fn((StaticFilterConfig, usize)) -> (usize, Scalar),
    F: Fn((Spot, Spot)) -> Closeness,
>(
    folders: Seq<FolderView>,
    settings: SavedDefaults,
    found: spec_fn(int, int) -> FrameView,
    name: spec_fn(int, int) -> Seq<char>,
    limits: L,
    compare: F,
    k: int,
    i: int,
)
    requires
        0 <= k < folders.len(),
        0 <= i <= folders[k].files.len(),
    ensures
        ({
            let w = run_at(folders, settings, found, k, i);
            let all = run_messages(folders, settings, found, name, limits, compare, folders.len() as int);
            &&& w.wf()
            &&& steps_taken(w) < all.len() == schedule(folders).len()
            &&& next_step(w) is Predict ==> all[steps_taken(w)] == (MsgView::Progress {
                folder_idx: k as usize,
                folder_total: folders.len() as usize,
                folder_name: folders[k].name,
                frame_idx: i as usize,
                frame_total: folders[k].files.len() as usize,
                frame_name: name(k, i),
            })
            &&& next_step(w) is Finish ==> all[steps_taken(w)] == MsgView::FolderDone(
                finished_entry(w, limits, compare),
            )
        }),
{
    let w = run_at(folders, settings, found, k, i);
    let n = folders.len() as int;
    lemma_message_count(folders, settings, found, name, limits, compare, k);
    lemma_message_count(folders, settings, found, name, limits, compare, n);
    assert(folders.take(n) =~= folders);
    let here = run_messages(folders, settings, found, name, limits, compare, k + 1);
    let before = run_messages(folders, settings, found, name, limits, compare, k);
    assert(here[before.len() + i] == folder_messages(folders, settings, found, name, limits, compare, k)[i]);
    lemma_messages_prefix(folders, settings, found, name, limits, compare, k + 1, n, before.len() + i);
}

/// The state once the first `n` of some messages were taken in. Before message `i` the
/// settings may change to `settings(i)`; it is taken in at the time `ms(i)`.
pub open spec fn heard_all(
    s: AppView,
    msgs: Seq<MsgView>,
    settings: spec_fn(int) -> SavedDefaults,
    ms: spec_fn(int) -> u128,
    n: int,
) -> AppView
    decreases n,
{
    if n <= 0 {
        s
    } else {
        let t = heard_all(s, msgs, settings, ms, n - 1);
        run_heard(AppView { settings: settings(n - 1), ..t }, msgs[n - 1], ms(n - 1))
    }
}

/// The results among the first `n` of some messages, in order.
pub open spec fn results_told(msgs: Seq<MsgView>, n: int) -> Seq<ResultView>
    decreases n,
{
    if n <= 0 {
        Seq::empty()
    } else {
        match msgs[n - 1] {
            MsgView::FolderDone(entry) => results_told(msgs, n - 1).push(entry),
            _ => results_told(msgs, n - 1),
        }
    }
}

/// The last result is in focus, on its first frame.
pub open spec fn in_last_focus(s: AppView) -> bool {
    s.focused_result == Some((s.results_list.len() - 1) as usize) && s.viewer.current_frame == 0
}

proof fn lemma_heard_under_way(
    s: AppView,
    msgs: Seq<MsgView>,
    settings: spec_fn(int) -> SavedDefaults,
    ms: spec_fn(int) -> u128,
    n: int,
)
    requires
        s.in_progress,
        n <= msgs.len(),
        forall|i: int| 0 <= i < n ==> (#[trigger] msgs[i]) is Progress || msgs[i] is FolderDone,
    ensures
        ({
            let t = heard_all(s, msgs, settings, ms, n);
            &&& t.in_progress
            &&& t.run_settings == s.run_settings
            &&& t.results_list == s.results_list + results_told(msgs, n)
            &&& results_told(msgs, n).len() > 0 ==> in_last_focus(t)
        }),
    decreases n,
{
    if n > 0 {
        lemma_heard_under_way(s, msgs, settings, ms, n - 1);
        assert(msgs[n - 1] is Progress || msgs[n - 1] is FolderDone);
    }
    assert(heard_all(s, msgs, settings, ms, n).results_list =~= s.results_list + results_told(msgs, n));
}

proof fn lemma_results_told_prefix(a: Seq<MsgView>, b: Seq<MsgView>, n: int)
    requires
        0 <= n <= a.len() <= b.len(),
        forall|i: int| 0 <= i < n ==> #[trigger] a[i] == b[i],
    ensures
        results_told(a, n) == results_told(b, n),
    decreases n,
{
    if n > 0 {
        lemma_results_told_prefix(a, b, n - 1);
        assert(a[n - 1] == b[n - 1]);
    }
}

proof fn lemma_no_results_told(a: Seq<MsgView>, from: int, n: int)
    requires
        0 <= from <= n <= a.len(),
        forall|i: int| from <= i < n ==> (#[trigger] a[i]) is Progress,
    ensures
        results_told(a, n) == results_told(a, from),
    decreases n,
{
    if from < n {
        lemma_no_results_told(a, from, n - 1);
        assert(a[n - 1] is Progress);
    }
}

proof fn lemma_run_tells_results<
    L: Fn((StaticFilterConfig, usize)) -> (usize, Scalar),
    F: Fn((Spot, Spot)) -> Closeness,
>(
    folders: Seq<FolderView>,
    settings: SavedDefaults,
    found: spec_fn(int, int) -> FrameView,
    name: spec_fn(int, int) -> Seq<char>,
    limits: L,
    compare: F,
    n: int,
)
    requires
        0 <= n <= folders.len(),
    ensures
        ({
            let msgs = run_messages(folders, settings, found, name, limits, compare, n);
            &&& results_told(msgs, msgs.len() as int) == Seq::new(
                n as nat,
                |k: int| folder_entry(folders, settings, found, limits, compare, k),
            )
            &&& forall|i: int| 0 <= i < msgs.len() ==> (#[trigger] msgs[i]) is Progress || msgs[i] is FolderDone
        }),
    decreases n,
{
    let msgs = run_messages(folders, settings, found, name, limits, compare, n);
    let entries = Seq::new(n as nat, |k: int| folder_entry(folders, settings, found, limits, compare, k));
    if n > 0 {
        lemma_run_tells_results(folders, settings, found, name, limits, compare, n - 1);
        let before = run_messages(folders, settings, found, name, limits, compare, n - 1);
        let tail = folder_messages(folders, settings, found, name, limits, compare, n - 1);
        assert(msgs == before + tail);
        let m = before.len() as int;
        let last = msgs.len() - 1;
        assert forall|i: int| 0 <= i < m implies #[trigger] before[i] == msgs[i] by {}
        lemma_results_told_prefix(before, msgs, m);
        assert forall|i: int| m <= i < last implies (#[trigger] msgs[i]) is Progress by {
            assert(msgs[i] == tail[i - m]);
        }
        lemma_no_results_told(msgs, m, last);
        assert(msgs[last] == tail[tail.len() - 1]);
        assert forall|i: int| 0 <= i < msgs.len() implies (#[trigger] msgs[i]) is Progress || msgs[i] is FolderDone by {
            if i < m {
                assert(msgs[i] == before[i]);
            }
        }
    }
    assert(results_told(msgs, msgs.len() as int) =~= entries);
}

/// While a run is under way, whatever it tells in whatever order and whatever the settings
/// are changed to, looking for changed settings gives nothing up; and when it is done,
/// settings are compared against those that it was started with.
pub proof fn run_settings_are_the_baseline(
    s: AppView,
    msgs: Seq<MsgView>,
    settings: spec_fn(int) -> SavedDefaults,
    ms: spec_fn(int) -> u128,
    n: int,
)
    requires
        startable(s),
        0 <= n <= msgs.len(),
        forall|i: int| 0 <= i < n ==> (#[trigger] msgs[i]) is Progress || msgs[i] is FolderDone,
    ensures
        ({
            let t = heard_all(run_started(s), msgs, settings, ms, n);
            &&& forall|now: SavedDefaults| #[trigger]
                invalidated(AppView { settings: now, ..t }) == (AppView { settings: now, ..t })
            &&& forall|now: SavedDefaults, at: u128| #[trigger]
                run_heard(AppView { settings: now, ..t }, MsgView::AllDone, at).last_settings == Some(
                    snapshot_of(s.settings),
                )
        }),
{
    lemma_heard_under_way(run_started(s), msgs, settings, ms, n);
}

/// The results after a whole run: those that were kept when it started, followed by one for
/// each folder that it ran on, in order.
pub open spec fn results_after_run<
    L: Fn((StaticFilterConfig, usize)) -> (usize, Scalar),
    F: Fn((Spot, Spot)) -> Closeness,
>(s: AppView, found: spec_fn(int, int) -> FrameView, limits: L, compare: F) -> Seq<ResultView> {
    let folders = folders_in_all(s.workspace);
    kept_results(s.results_list, folders) + Seq::new(
        folders.len(),
        |k: int| folder_entry(folders, s.settings, found, limits, compare, k),
    )
}

/// A whole run: once its last message is taken in, the results are those that were kept when
/// it started, followed by one for each folder that it ran on, in order. The last one is in
/// focus on its first frame. The model is back, and settings are compared against those that
/// the run was started with, whatever they were changed to meanwhile: the results outlast the
/// next look for changed settings just where the settings are the same again.
pub proof fn whole_run<
    L: Fn((StaticFilterConfig, usize)) -> (usize, Scalar),
    F: Fn((Spot, Spot)) -> Closeness,
>(
    s: AppView,
    found: spec_fn(int, int) -> FrameView,
    name: spec_fn(int, int) -> Seq<char>,
    limits: L,
    compare: F,
    settings: spec_fn(int) -> SavedDefaults,
    ms: spec_fn(int) -> u128,
)
    requires
        startable(s),
    ensures
        ({
            let folders = folders_in_all(s.workspace);
            let n = folders.len() as int;
            let msgs = run_messages(folders, s.settings, found, name, limits, compare, n).push(MsgView::AllDone);
            let done = heard_all(run_started(s), msgs, settings, ms, msgs.len() as int);
            let same = snapshot_of(settings(msgs.len() - 1)) == snapshot_of(s.settings);
            &&& done.results_list == results_after_run(s, found, limits, compare)
            &&& in_last_focus(done)
            &&& !done.in_progress
            &&& done.model.ready
            &&& done.last_settings == Some(snapshot_of(s.settings))
            &&& same ==> invalidated(done).results_list == done.results_list
            &&& !same ==> invalidated(done).results_list.len() == 0
        }),
{
    let folders = folders_in_all(s.workspace);
    let n = folders.len() as int;
    let told = run_messages(folders, s.settings, found, name, limits, compare, n);
    let msgs = told.push(MsgView::AllDone);
    let m = told.len() as int;
    lemma_run_tells_results(folders, s.settings, found, name, limits, compare, n);
    assert forall|i: int| 0 <= i < m implies #[trigger] told[i] == msgs[i] by {}
    lemma_results_told_prefix(told, msgs, m);
    assert forall|i: int| 0 <= i < m implies (#[trigger] msgs[i]) is Progress || msgs[i] is FolderDone by {
        assert(msgs[i] == told[i]);
    }
    lemma_heard_under_way(run_started(s), msgs, settings, ms, m);
    assert(msgs[m] == MsgView::AllDone);
    let done = heard_all(run_started(s), msgs, settings, ms, m + 1);
    completed_run_answers_for_its_settings(
        AppView { settings: settings(m), ..heard_all(run_started(s), msgs, settings, ms, m) },
        ms(m),
    );
}

/// No two folders have the same path.
pub open spec fn folders_differ(folders: Seq<FolderView>) -> bool {
    forall|i: int, j: int| 0 <= i < j < folders.len() ==> (#[trigger] folders[i]).path != (#[trigger] folders[j]).path
}

/// No two results come from the same folder.
pub open spec fn sources_differ(list: Seq<ResultView>) -> bool {
    forall|i: int, j: int|
        0 <= i < j < list.len() ==> (#[trigger] list[i]).source_path != (#[trigger] list[j]).source_path
}

proof fn lemma_kept_sources_differ(list: Seq<ResultView>, folders: Seq<FolderView>)
    requires
        sources_differ(list),
    ensures
        sources_differ(kept_results(list, folders)),
    decreases list.len(),
{
    if list.len() > 0 {
        let shorter = list.drop_last();
        assert forall|i: int, j: int| 0 <= i < j < shorter.len() implies (#[trigger] shorter[i]).source_path != (
        #[trigger] shorter[j]).source_path by {
            assert(shorter[i] == list[i] && shorter[j] == list[j]);
        }
        lemma_kept_sources_differ(shorter, folders);
        let rest = kept_results(shorter, folders);
        let all = kept_results(list, folders);
        assert forall|i: int, j: int| 0 <= i < j < all.len() implies (#[trigger] all[i]).source_path != (
        #[trigger] all[j]).source_path by {
            assert(all[i] == rest[i]);
            if j < rest.len() {
                assert(all[j] == rest[j]);
            } else {
                lemma_kept_result(shorter, folders, i);
                let k = choose|k: int| 0 <= k < shorter.len() && shorter[k] == rest[i];
                assert(list[k] == rest[i]);
                assert(all[j] == list[list.len() - 1]);
            }
        }
    }
}

/// Where the folders of a run have different paths, each of them has just one result after
/// it, the new one; and where the results before came from different folders, so do those
/// after.
pub proof fn run_leaves_one_result_per_folder<
    L: Fn((StaticFilterConfig, usize)) -> (usize, Scalar),
    F: Fn((Spot, Spot)) -> Closeness,
>(s: AppView, found: spec_fn(int, int) -> FrameView, limits: L, compare: F)
    requires
        folders_differ(folders_in_all(s.workspace)),
    ensures
        ({
            let folders = folders_in_all(s.workspace);
            let list = results_after_run(s, found, limits, compare);
            let kept = kept_results(s.results_list, folders).len();
            &&& forall|k: int, j: int|
                0 <= k < folders.len() && 0 <= j < list.len() ==> ((#[trigger] list[j]).source_path == (
                #[trigger] folders[k]).path <==> j == kept + k)
            &&& sources_differ(s.results_list) ==> sources_differ(list)
        }),
{
    let folders = folders_in_all(s.workspace);
    let list = results_after_run(s, found, limits, compare);
    let before = kept_results(s.results_list, folders);
    let kept = before.len() as int;
    assert forall|k: int, j: int| 0 <= k < folders.len() && 0 <= j < list.len() implies ((
    #[trigger] list[j]).source_path == (#[trigger] folders[k]).path <==> j == kept + k) by {
        if j < kept {
            lemma_kept_result(s.results_list, folders, j);
            assert(list[j] == before[j]);
        } else {
            assert(list[j].source_path == folders[j - kept].path);
        }
    }
    if sources_differ(s.results_list) {
        lemma_kept_sources_differ(s.results_list, folders);
        assert forall|i: int, j: int| 0 <= i < j < list.len() implies (#[trigger] list[i]).source_path != (
        #[trigger] list[j]).source_path by {
            if j < kept {
                assert(list[i] == before[i] && list[j] == before[j]);
            } else {
                assert(list[j].source_path == folders[j - kept].path);
            }
        }
    }
}

/// A finished folder has counts that agree with its bubbles where its frames had, and it is
/// not ticked.
pub proof fn finished_folder_agrees<
    L: Fn((StaticFilterConfig, usize)) -> (usize, Scalar),
    F: Fn((Spot, Spot)) -> Closeness,
>(w: WorkerView, limits: L, compare: F)
    requires
        all_counts_agree(w.results.frames),
        indexable(w.results.frames),
    ensures
        all_counts_agree(finished_entry(w, limits, compare).results.frames),
        finished_entry(w, limits, compare).results.frames.len() == w.results.frames.len(),
        !finished_entry(w, limits, compare).visible,
        finished_entry(w, limits, compare).selection_order is None,
{
    if w.settings.reject_static {
        let lim = limits_of(limits, w.settings.static_cfg, w.results.frames.len() as int);
        filter_keeps_counts(w.results.frames, filter_rejects(compare, lim, w.results.frames));
    }
}

/// A run keeps what holds of all results: counts that agree with the bubbles, and a rank
/// with each tick. That is so when it starts and when a folder is finished.
pub proof fn run_keeps_results_sound(s: AppView, entry: ResultView, ms: u128)
    requires
        results_agree(s.results_list),
        ticks_ranked(s.results_list),
        all_counts_agree(entry.results.frames),
        entry.visible <==> entry.selection_order is Some,
    ensures
        results_agree(run_started(s).results_list),
        ticks_ranked(run_started(s).results_list),
        results_agree(run_heard(s, MsgView::FolderDone(entry), ms).results_list),
        ticks_ranked(run_heard(s, MsgView::FolderDone(entry), ms).results_list),
{
    let now = run_started(s).results_list;
    let folders = folders_in_all(s.workspace);
    if startable(s) {
        assert forall|r: int| 0 <= r < now.len() implies all_counts_agree((#[trigger] now[r]).results.frames) && (
        now[r].visible <==> now[r].selection_order is Some) by {
            lemma_kept_result(s.results_list, folders, r);
            let k = choose|k: int| 0 <= k < s.results_list.len() && s.results_list[k] == now[r];
            assert(all_counts_agree(s.results_list[k].results.frames));
        }
    }
}

/// Asking for a run changes nothing where there is no model to run or one is running. Without a
/// folder to run on it is only said so. Otherwise the model goes to the run, the results of
/// other folders stay in their order and those of the folders that are run on go, and the
/// settings and the number of folders are noted.
pub proof fn run_starts_on_ticked_folders(s: AppView)
    ensures
        ({
            let t = run_started(s);
            let folders = folders_in_all(s.workspace);
            &&& !s.model.ready || s.in_progress ==> t == s
            &&& s.model.ready && !s.in_progress && folders.len() == 0 ==> t == (AppView {
                status: "Nothing to run — tick at least one folder in the workspace."@,
                ..s
            })
            &&& s.model.ready && !s.in_progress && folders.len() > 0 ==> {
                &&& t == (AppView {
                    model: t.model,
                    results_list: t.results_list,
                    in_progress: true,
                    run_settings: t.run_settings,
                    progress: t.progress,
                    status: "Running inference on "@ + decimal(folders.len()) + " folder(s)…"@,
                    ..s
                })
                &&& t.model == (ModelView { ready: false, ..s.model })
                &&& t.run_settings == Some(snapshot_of(s.settings))
                &&& t.progress.folder_idx == 0
                &&& t.progress.folder_total == folders.len() as usize
                &&& t.progress.frame_idx == 0
                &&& t.progress.frame_total == 0
                &&& t.results_list == s.results_list.filter(
                    |r: ResultView|
                        forall|i: int| 0 <= i < folders.len() ==> (#[trigger] folders[i]).path != r.source_path,
                )
            }
        }),
{
    lemma_kept_filtered(s.results_list, folders_in_all(s.workspace));
}

proof fn lemma_kept_filtered(list: Seq<ResultView>, folders: Seq<FolderView>)
    ensures
        kept_results(list, folders) == list.filter(
            |r: ResultView|
                forall|i: int| 0 <= i < folders.len() ==> (#[trigger] folders[i]).path != r.source_path,
        ),
    decreases list.len(),
{
    reveal(Seq::filter);
    let keep = |r: ResultView|
        forall|i: int| 0 <= i < folders.len() ==> (#[trigger] folders[i]).path != r.source_path;
    if list.len() > 0 {
        lemma_kept_filtered(list.drop_last(), folders);
        assert(keep(list.last()) == !reruns(folders, list.last().source_path));
    }
}

/// A finished folder has the name and the path of the folder and the frames found on its images.
/// With the filter on, its frames are filtered under the settings of the run, and where an
/// accepted bubble was rejected it is noted how many were and in how many places; with the
/// filter off nothing is rejected or noted.
pub proof fn finished_folder_holds_its_frames<
    L: Fn((StaticFilterConfig, usize)) -> (usize, Scalar),
    F: Fn((Spot, Spot)) -> Closeness,
>(w: WorkerView, limits: L, compare: F)
    ensures
        ({
            let entry = finished_entry(w, limits, compare);
            let folder = w.folders[w.folder];
            let frames = w.results.frames;
            let lim = limits_of(limits, w.settings.static_cfg, frames.len() as int);
            let after = filtered(frames, |f: int, b: int| persistent(compare, lim, frames, f, b));
            let items = items_of(frames);
            let clusters = starts(compare, lim, items, hits(compare, lim, frames), items.len() as int).len();
            let lost = accepted_in(frames) - accepted_in(after);
            &&& entry.name == folder.name
            &&& entry.source_path == folder.path
            &&& !entry.visible
            &&& entry.selection_order is None
            &&& entry.results.sample_name == w.results.sample_name
            &&& entry.results.parameters == w.results.parameters
            &&& !w.settings.reject_static ==> entry.results.frames == frames && entry.static_note is None
            &&& w.settings.reject_static ==> entry.results.frames == after && lost >= 0
            &&& w.settings.reject_static && lost == 0 ==> entry.static_note is None
            &&& w.settings.reject_static && lost > 0 ==> entry.static_note == Some(
                folder.name + ": static filter rejected "@ + decimal(lost as nat) + " detection(s) across "@ + decimal(
                    clusters,
                ) + " cluster(s)"@,
            )
        }),
{
    let frames = w.results.frames;
    let lim = limits_of(limits, w.settings.static_cfg, frames.len() as int);
    let pick = |f: int, b: int| persistent(compare, lim, frames, f, b);
    assert(filter_rejects(compare, lim, frames) =~= pick);
    filter_moves_rejected(frames, pick);
}

/// Before its first image a folder has no frames, and its results carry its name and the
/// parameters of the run.
pub proof fn folder_starts_without_frames(folders: Seq<FolderView>, settings: SavedDefaults, k: int)
    ensures
        no_results(folders, settings, k).frames.len() == 0,
        no_results(folders, settings, k).parameters == settings.params,
        0 <= k < folders.len() ==> no_results(folders, settings, k).sample_name == folders[k].name,
        k >= folders.len() ==> no_results(folders, settings, k).sample_name == ""@,
{
}

/// The steps of a run are those of its folders in turn: for each an image after the other, and
/// then the folder is finished.
pub proof fn schedule_goes_folder_by_folder(folders: Seq<FolderView>)
    ensures
        schedule(folders) == folders.map_values(
            |f: FolderView| Seq::new(f.files.len(), |i: int| StepView::Predict(f.files[i])) + seq![StepView::Finish],
        ).flatten(),
    decreases folders.len(),
{
    let of_one = |f: FolderView|
        Seq::new(f.files.len(), |i: int| StepView::Predict(f.files[i])) + seq![StepView::Finish];
    let lists = folders.map_values(of_one);
    if folders.len() > 0 {
        let last = folders.last();
        schedule_goes_folder_by_folder(folders.drop_last());
        assert(lists.drop_last() =~= folders.drop_last().map_values(of_one));
        assert(lists.last() == of_one(last));
        assert(folder_steps(last) =~= of_one(last));
        lists.lemma_flatten_and_flatten_alt_are_equivalent();
        lists.drop_last().lemma_flatten_and_flatten_alt_are_equivalent();
    } else {
        assert(lists =~= Seq::empty());
        assert(lists.flatten() =~= Seq::empty());
        assert(schedule(folders) =~= lists.flatten());
    }
}

/// The bubbles of all results are counted result by result.
pub proof fn bubbles_add_up(list: Seq<ResultView>)
    ensures
        bubbles_in_all(list) == list.fold_left(
            0int,
            |sum: int, r: ResultView| sum + accepted_in(r.results.frames),
        ),
    decreases list.len(),
{
    if list.len() > 0 {
        bubbles_add_up(list.drop_last());
    }
}

/// What a run tells changes just what it is about, and nothing once no run is going on. Its
/// progress is shown, numbered from one. A finished folder comes behind the other results and
/// into focus, on its first frame. At the end, or when it fails, the model comes back; only an
/// end without failure sets what settings are compared against.
pub proof fn run_news_changes_what_it_tells(s: AppView, m: MsgView, ms: u128)
    ensures
        ({
            let t = run_heard(s, m, ms);
            &&& !s.in_progress ==> t == s
            &&& s.in_progress ==> (m matches MsgView::Progress {
                folder_idx,
                folder_total,
                folder_name,
                frame_idx,
                frame_total,
                frame_name,
            } ==> t == (AppView { progress: t.progress, status: t.status, ..s }) && t.progress.folder_idx == folder_idx
                && t.progress.folder_total == folder_total && t.progress.frame_idx == frame_idx
                && t.progress.frame_total == frame_total && t.status == "["@ + decimal((folder_idx + 1) as nat) + "/"@
                + decimal(folder_total as nat) + "] "@ + folder_name + "  —  frame ["@ + decimal((frame_idx + 1) as nat)
                + "/"@ + decimal(frame_total as nat) + "] "@ + frame_name)
            &&& s.in_progress ==> (m matches MsgView::FolderDone(entry) ==> t == (AppView {
                results_list: s.results_list.push(entry),
                focused_result: Some(s.results_list.len() as usize),
                viewer: ViewerState { current_frame: 0, texture_for: None, ..s.viewer },
                status: t.status,
                ..s
            }) && (entry.static_note is None ==> t.status == s.status) && (entry.static_note matches Some(note)
                ==> t.status == note))
            &&& s.in_progress && m is AllDone ==> t == (AppView {
                in_progress: false,
                model: ModelView { ready: true, ..s.model },
                last_settings: s.run_settings,
                run_settings: None,
                status: "Done — "@ + decimal(s.progress.folder_total as nat) + " sample(s), "@ + decimal(
                    bubbles_in_all(s.results_list),
                ) + " bubbles total in "@ + decimal(ms as nat) + " ms"@,
                ..s
            })
            &&& s.in_progress ==> (m matches MsgView::Failed(e) ==> t == (AppView {
                in_progress: false,
                model: ModelView { ready: true, ..s.model },
                run_settings: None,
                status: "Inference failed: "@ + e,
                ..s
            }))
        }),
{
}

/// A run and what it tells are spoken of by what their own fields hold.
pub proof fn run_fields_are_spoken_of(w: Worker, m: WorkerMsg)
    ensures
        w@.settings == w.plan.settings,
        w@.folder == w.folder,
        w@.results == w.results@,
        w@.folders.len() == w.plan.folders@.len(),
        forall|i: int| 0 <= i < w.plan.folders@.len() ==> #[trigger] w@.folders[i] == w.plan.folders@[i]@,
        m matches WorkerMsg::Progress { folder_idx, folder_total, folder_name, frame_idx, frame_total, frame_name }
            ==> m@ == (MsgView::Progress {
            folder_idx,
            folder_total,
            folder_name: folder_name@,
            frame_idx,
            frame_total,
            frame_name: frame_name@,
        }),
        m matches WorkerMsg::FolderDone(entry) ==> m@ == MsgView::FolderDone(entry@),
        m is AllDone ==> m@ is AllDone,
        m matches WorkerMsg::Failed(e) ==> m@ == MsgView::Failed(e@),
{
}

} // verus!
