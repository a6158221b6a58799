//! The state of the program and how it starts.
use crate::inference::INPUT_SIZE;
use crate::model::bundled_path;
use crate::model::bundled_weights;
use crate::model::loading;
use crate::model::LoadRequest;
use crate::model::ModelState;
use crate::model::ModelView;
use crate::results::result_views;
use crate::results::HistMode;
use crate::results::ResultEntry;
use crate::results::ResultView;
use crate::run::RunProgress;
use crate::scalar::Scalar;
use crate::scalar::ONE_BITS;
use crate::settings::snapshot_of;
use crate::settings::snapshot_tells_settings_apart;
use crate::settings::SavedDefaults;
use crate::settings::SettingsSnapshot;
use crate::types::AnalysisParameters;
use crate::updater::UpdateUi;
use crate::updater::UpdateView;
use crate::viewer::undo_views;
use crate::viewer::UndoAction;
use crate::viewer::UndoView;
use crate::viewer::ViewerState;
use crate::workspace::entry_views;
use crate::workspace::EntryView;
use crate::workspace::WorkspaceEntry;
use vstd::prelude::*;

verus! {

/// What an export writes.
#[derive(Clone, Copy, Debug)]
pub struct ExportChoice {
    pub csv: bool,
    pub png: bool,
    pub hist: bool,
}

/// Everything that the program remembers. `last_settings` are the settings that the results
/// are compared against, `run_settings` those that the run under way was started with.
#[derive(Debug)]
pub struct AppState {
    pub model: ModelState,
    pub settings: SavedDefaults,
    pub imgsz: u32,
    pub last_settings: Option<SettingsSnapshot>,
    pub run_settings: Option<SettingsSnapshot>,
    pub workspace: Vec<WorkspaceEntry>,
    pub results_list: Vec<ResultEntry>,
    pub focused_result: Option<usize>,
    pub viewer: ViewerState,
    pub undo_stack: Vec<UndoAction>,
    pub next_selection_rank: u32,
    pub export: ExportChoice,
    pub in_progress: bool,
    pub progress: RunProgress,
    pub status: String,
    pub updater: UpdateUi,
    pub updater_auto_checked: bool,
    pub show_update_modal: bool,
    pub show_restart_modal: bool,
}

/// The state with texts and lists as sequences.
pub struct AppView {
    pub model: ModelView,
    pub settings: SavedDefaults,
    pub imgsz: u32,
    pub last_settings: Option<SettingsSnapshot>,
    pub run_settings: Option<SettingsSnapshot>,
    pub workspace: Seq<EntryView>,
    pub results_list: Seq<ResultView>,
    pub focused_result: Option<usize>,
    pub viewer: ViewerState,
    pub undo_stack: Seq<UndoView>,
    pub next_selection_rank: u32,
    pub export: ExportChoice,
    pub in_progress: bool,
    pub progress: RunProgress,
    pub status: Seq<char>,
    pub updater: UpdateView,
    pub updater_auto_checked: bool,
    pub show_update_modal: bool,
    pub show_restart_modal: bool,
}

impl View for AppState {
    type V = AppView;

    open spec fn view(&self) -> AppView {
        AppView {
            model: self.model@,
            settings: self.settings,
            imgsz: self.imgsz,
            last_settings: self.last_settings,
            run_settings: self.run_settings,
            workspace: entry_views(self.workspace@),
            results_list: result_views(self.results_list@),
            focused_result: self.focused_result,
            viewer: self.viewer,
            undo_stack: undo_views(self.undo_stack@),
            next_selection_rank: self.next_selection_rank,
            export: self.export,
            in_progress: self.in_progress,
            progress: self.progress,
            status: self.status@,
            updater: self.updater@,
            updater_auto_checked: self.updater_auto_checked,
            show_update_modal: self.show_update_modal,
            show_restart_modal: self.show_restart_modal,
        }
    }
}

/// The view on the first frame of a picture that is not enlarged, with accepted bubbles
/// shown on it in black and white.
pub open spec fn initial_viewer() -> ViewerState {
    ViewerState {
        current_frame: 0,
        texture_for: None,
        zoom: Scalar { bits: ONE_BITS },
        pan_x: Scalar { bits: 0 },
        pan_y: Scalar { bits: 0 },
        bw_mode: true,
        show_overlays: true,
        show_bubbles: true,
        show_rejected: false,
        show_static: false,
        hist_mode: HistMode::AvgPerImage,
        edit_mode: false,
        hovered_bubble: None,
        suppress_hover_bubble: None,
    }
}

/// The state at the start, with the settings kept from before and the bundled model
/// about to be loaded.
pub open spec fn initial_app(defaults: SavedDefaults) -> AppView {
    AppView {
        model: loading(
            ModelView {
                weights_path: bundled_path(),
                using_bundled: true,
                ready: false,
                model_status: "Not loaded."@,
                model_load_time_ms: None,
                model_loading: false,
                resolved_device: None,
            },
        ),
        settings: defaults,
        imgsz: INPUT_SIZE,
        last_settings: Some(snapshot_of(defaults)),
        run_settings: None,
        workspace: Seq::empty(),
        results_list: Seq::empty(),
        focused_result: None,
        viewer: initial_viewer(),
        undo_stack: Seq::empty(),
        next_selection_rank: 0,
        export: ExportChoice { csv: true, png: false, hist: true },
        in_progress: false,
        progress: RunProgress { folder_idx: 0, folder_total: 0, frame_idx: 0, frame_total: 0 },
        status: "Add folders to your workspace to begin."@,
        updater: UpdateView { busy: false, last: None, available: None },
        updater_auto_checked: false,
        show_update_modal: false,
        show_restart_modal: false,
    }
}

impl AppState {
    /// The state at the start, and the load of the bundled model that it asks for.
    pub fn new(defaults: SavedDefaults, on_macos: bool) -> (r: (AppState, Option<LoadRequest>))
        ensures
            r.0@ == initial_app(defaults),
            r.1 matches Some(req) && req.is_for(initial_app(defaults), on_macos),
    {
        let mut s = AppState {
            model: ModelState {
                weights_path: bundled_weights(),
                using_bundled: true,
                ready: false,
                model_status: "Not loaded.".to_owned(),
                model_load_time_ms: None,
                model_loading: false,
                resolved_device: None,
            },
            settings: defaults,
            imgsz: INPUT_SIZE,
            last_settings: Some(defaults.snapshot()),
            run_settings: None,
            workspace: Vec::new(),
            results_list: Vec::new(),
            focused_result: None,
            viewer: ViewerState {
                current_frame: 0,
                texture_for: None,
                zoom: Scalar::from_bits(ONE_BITS),
                pan_x: Scalar::from_bits(0),
                pan_y: Scalar::from_bits(0),
                bw_mode: true,
                show_overlays: true,
                show_bubbles: true,
                show_rejected: false,
                show_static: false,
                hist_mode: HistMode::AvgPerImage,
                edit_mode: false,
                hovered_bubble: None,
                suppress_hover_bubble: None,
            },
            undo_stack: Vec::new(),
            next_selection_rank: 0,
            export: ExportChoice { csv: true, png: false, hist: true },
            in_progress: false,
            progress: RunProgress { folder_idx: 0, folder_total: 0, frame_idx: 0, frame_total: 0 },
            status: "Add folders to your workspace to begin.".to_owned(),
            updater: UpdateUi::default(),
            updater_auto_checked: false,
            show_update_modal: false,
            show_restart_modal: false,
        };
        proof {
            assert(s@.workspace =~= Seq::empty());
            assert(s@.results_list =~= Seq::empty());
            assert(s@.undo_stack =~= Seq::empty());
        }
        let request = s.start_model_load(on_macos);
        (s, request)
    }
}

/// Whether results are to be given up: their settings changed.
pub open spec fn settings_changed(s: AppView) -> bool {
    s.last_settings != Some(snapshot_of(s.settings))
}

/// The state once a change of settings has been looked for: without a run going on,
/// results made under other settings are given up.
pub open spec fn invalidated(s: AppView) -> AppView {
    if s.in_progress {
        s
    } else {
        let noted = AppView { last_settings: Some(snapshot_of(s.settings)), ..s };
        if settings_changed(s) && s.results_list.len() > 0 {
            AppView {
                results_list: Seq::empty(),
                focused_result: None,
                viewer: ViewerState { current_frame: 0, texture_for: None, ..s.viewer },
                status: "Settings changed — previous results cleared."@,
                ..noted
            }
        } else {
            noted
        }
    }
}

impl AppState {
    /// The settings that results depend on.
    pub fn snapshot_settings(&self) -> (r: SettingsSnapshot)
        ensures
            r == snapshot_of(self@.settings),
    {
        self.settings.snapshot()
    }

    /// Gives up results whose settings changed, unless a run is going on.
    pub fn maybe_invalidate_results(&mut self)
        ensures
            final(self)@ == invalidated(old(self)@),
    {
        if self.in_progress {
            return;
        }
        let now = self.snapshot_settings();
        let changed: bool = match self.last_settings {
            Some(prev) => prev != now,
            None => true,
        };
        self.last_settings = Some(now);
        if changed && self.results_list.len() > 0 {
            self.results_list.clear();
            self.focused_result = None;
            self.viewer.texture_for = None;
            self.viewer.current_frame = 0;
            self.status = "Settings changed — previous results cleared.".to_owned();
            assert(self@.results_list =~= Seq::empty());
        }
    }
}

/// Results that are shown were made under the settings that are shown: after looking
/// for a change nothing is left that was made under others, and looking again changes
/// nothing more.
pub proof fn shown_results_match_settings(s: AppView)
    requires
        !s.in_progress,
    ensures
        !settings_changed(invalidated(s)),
        settings_changed(s) ==> invalidated(s).results_list.len() == 0,
        !settings_changed(s) ==> invalidated(s).results_list == s.results_list,
        invalidated(invalidated(s)) == invalidated(s),
{
    if settings_changed(s) && s.results_list.len() == 0 {
        assert(invalidated(s).results_list =~= s.results_list);
    }
}


/// Looking for a change of settings touches nothing while a run is going on. Otherwise the
/// settings are noted, and where any that results depend on differs from those noted before,
/// the results go, with what is shown of them. A device or a bin size alone changes nothing.
pub proof fn only_settings_that_matter_clear_results(s: AppView, noted: SavedDefaults)
    requires
        s.last_settings == Some(snapshot_of(noted)),
    ensures
        ({
            let t = invalidated(s);
            let same = s.settings == (SavedDefaults {
                device: s.settings.device,
                params: AnalysisParameters { bin_size_um: s.settings.params.bin_size_um, ..noted.params },
                ..noted
            });
            &&& s.in_progress ==> t == s
            &&& !s.in_progress && same ==> t == s
            &&& !s.in_progress && !same ==> {
                &&& t.results_list.len() == 0
                &&& t == (AppView {
                    results_list: t.results_list,
                    focused_result: t.focused_result,
                    viewer: t.viewer,
                    status: t.status,
                    last_settings: t.last_settings,
                    ..s
                })
                &&& s.results_list.len() == 0 ==> t == (AppView { last_settings: t.last_settings, ..s })
                &&& s.results_list.len() > 0 ==> t.focused_result is None && t.viewer.current_frame == 0
                    && t.viewer.texture_for is None && t.viewer == (ViewerState {
                    current_frame: t.viewer.current_frame,
                    texture_for: t.viewer.texture_for,
                    ..s.viewer
                }) && t.status == "Settings changed — previous results cleared."@
                &&& t.last_settings == Some(snapshot_of(s.settings))
            }
        }),
{
    snapshot_tells_settings_apart(s.settings, noted);
    if s.results_list.len() == 0 {
        assert(invalidated(s).results_list =~= s.results_list);
    }
}

/// A new state has nothing in it, shows what a first look shows and is about to load the bundled
/// model under the settings given.
pub proof fn new_state_is_empty(defaults: SavedDefaults)
    ensures
        ({
            let s = initial_app(defaults);
            &&& s.settings == defaults
            &&& s.last_settings == Some(snapshot_of(defaults))
            &&& s.run_settings is None
            &&& s.workspace.len() == 0
            &&& s.results_list.len() == 0
            &&& s.undo_stack.len() == 0
            &&& s.focused_result is None
            &&& s.imgsz == 640
            &&& s.next_selection_rank == 0
            &&& !s.in_progress
            &&& s.model.model_loading
            &&& s.model.using_bundled
            &&& !s.model.ready
            &&& s.viewer.current_frame == 0
            &&& s.viewer.texture_for is None
            &&& s.viewer.zoom.bits == ONE_BITS
            &&& s.viewer.pan_x.bits == 0
            &&& s.viewer.pan_y.bits == 0
            &&& s.viewer.bw_mode
            &&& s.viewer.show_overlays
            &&& s.viewer.show_bubbles
            &&& !s.viewer.show_rejected
            &&& !s.viewer.show_static
            &&& s.viewer.hist_mode == HistMode::AvgPerImage
            &&& !s.viewer.edit_mode
            &&& s.viewer.hovered_bubble is None
            &&& s.viewer.suppress_hover_bubble is None
            &&& s.export.csv
            &&& !s.export.png
            &&& s.export.hist
            &&& !s.updater.busy
            &&& s.updater.last is None
            &&& s.updater.available is None
            &&& !s.updater_auto_checked
            &&& !s.show_update_modal
            &&& !s.show_restart_modal
        }),
{
}

/// The state is spoken of by what its own fields hold.
pub proof fn state_fields_are_spoken_of(s: AppState)
    ensures
        s@.settings == s.settings,
        s@.imgsz == s.imgsz,
        s@.last_settings == s.last_settings,
        s@.run_settings == s.run_settings,
        s@.workspace.len() == s.workspace@.len(),
        forall|i: int| 0 <= i < s.workspace@.len() ==> #[trigger] s@.workspace[i] == s.workspace@[i]@,
        s@.results_list.len() == s.results_list@.len(),
        forall|i: int| 0 <= i < s.results_list@.len() ==> #[trigger] s@.results_list[i] == s.results_list@[i]@,
        s@.focused_result == s.focused_result,
        s@.viewer == s.viewer,
        s@.undo_stack.len() == s.undo_stack@.len(),
        forall|i: int| 0 <= i < s.undo_stack@.len() ==> #[trigger] s@.undo_stack[i] == s.undo_stack@[i]@,
        s@.next_selection_rank == s.next_selection_rank,
        s@.export == s.export,
        s@.in_progress == s.in_progress,
        s@.progress == s.progress,
        s@.status == s.status@,
        s@.updater.busy == s.updater.busy,
        s@.updater_auto_checked == s.updater_auto_checked,
        s@.show_update_modal == s.show_update_modal,
        s@.show_restart_modal == s.show_restart_modal,
        s@.model.weights_path == s.model.weights_path@,
        s@.model.using_bundled == s.model.using_bundled,
        s@.model.ready == s.model.ready,
        s@.model.model_status == s.model.model_status@,
        s@.model.model_load_time_ms == s.model.model_load_time_ms,
        s@.model.model_loading == s.model.model_loading,
        s@.model.resolved_device == s.model.resolved_device,
{
}

} // verus!
