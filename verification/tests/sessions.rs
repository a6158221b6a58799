use bsnobs::app::AppState;
use bsnobs::export_panel::export_done;
use bsnobs::export_panel::histogram_file;
use bsnobs::export_panel::overlay_file;
use bsnobs::export_panel::step_dir;
use bsnobs::export_panel::step_failure;
use bsnobs::export_panel::step_sample;
use bsnobs::export_panel::target_failure;
use bsnobs::export_panel::ExportRun;
use bsnobs::export_panel::ExportStep;
use bsnobs::histogram::HistAxisMode;
use bsnobs::histogram::Scaled;
use bsnobs::histogram::Slot;
use bsnobs::inference::Device;
use bsnobs::model::bundled_weights;
use bsnobs::model::LoadEvent;
use bsnobs::results::card_of;
use bsnobs::results::mini_histogram;
use bsnobs::results::HistMode;
use bsnobs::results::ResultEntry;
use bsnobs::run::RunPlan;
use bsnobs::run::RunProgress;
use bsnobs::run::WorkStep;
use bsnobs::run::Worker;
use bsnobs::run::WorkerMsg;
use bsnobs::scalar::Scalar;
use bsnobs::settings::defaults_path;
use bsnobs::settings::save_status;
use bsnobs::settings::BaseDir;
use bsnobs::settings::BaseDirsSet;
use bsnobs::settings::Platform;
use bsnobs::settings::SaveOutcome;
use bsnobs::settings::SavedDefaults;
use bsnobs::static_filter::Closeness;
use bsnobs::static_filter::Spot;
use bsnobs::static_filter::StaticFilterConfig;
use bsnobs::statistics::Arithmetic;
use bsnobs::types::AnalysisParameters;
use bsnobs::types::AnalysisResults;
use bsnobs::types::BubbleData;
use bsnobs::types::FrameResult;
use bsnobs::updater::run_check;
use bsnobs::updater::run_install;
use bsnobs::updater::CheckOutcome;
use bsnobs::updater::InstallOutcome;
use bsnobs::updater::UpdateMessage;
use bsnobs::updater::UpdateUi;
use bsnobs::viewer::bubble_under;
use bsnobs::viewer::closest_bubble;
use bsnobs::viewer::draw_overlays;
use bsnobs::viewer::limit_zoom;
use bsnobs::viewer::shown_pixels;
use bsnobs::viewer::HoverHint;
use bsnobs::viewer::Reach;
use bsnobs::viewer::TextureKey;
use bsnobs::workspace::DirListing;
use bsnobs::workspace::FileListing;

fn sc(x: f32) -> Scalar {
    Scalar::from_bits(x.to_bits())
}

fn fl(s: Scalar) -> f32 {
    f32::from_bits(s.bits)
}

fn spot(x: f32, d: f32, valid: bool, is_static: bool) -> BubbleData {
    BubbleData {
        frame_name: "i".to_string(),
        bubble_id: 1,
        diameter_um: sc(d),
        volume_um3: sc(0.0),
        area_px: sc(0.0),
        centroid_x: sc(x),
        centroid_y: sc(0.0),
        is_valid: valid,
        is_static,
    }
}

fn frame(path: &str, bubbles: Vec<BubbleData>) -> FrameResult {
    let n = bubbles.iter().filter(|b| b.is_valid).count();
    FrameResult { image_path: path.to_string(), num_valid: n, num_rejected: bubbles.len() - n, bubbles }
}

fn entry(name: &str, frames: Vec<FrameResult>) -> ResultEntry {
    ResultEntry {
        name: name.to_string(),
        source_path: format!("/w/{name}"),
        results: AnalysisResults {
            sample_name: name.to_string(),
            parameters: AnalysisParameters::default(),
            frames,
        },
        visible: false,
        selection_order: None,
        static_note: None,
    }
}

fn fresh() -> AppState {
    AppState::new(SavedDefaults::default(), false).0
}

fn loaded() -> AppState {
    let mut s = fresh();
    s.drain_model_load(LoadEvent::Loaded(Device::Cpu), 12);
    s
}

fn three_frames() -> Vec<FrameResult> {
    vec![
        frame("0.png", vec![spot(0.0, 2.0, true, false), spot(9.0, 30.0, false, false), spot(20.0, 3.0, false, true)]),
        frame("1.png", vec![spot(1.0, 4.0, true, false)]),
        frame("2.png", vec![]),
    ]
}

fn viewing() -> AppState {
    let mut s = loaded();
    s.results_list.push(entry("a", three_frames()));
    s.focus_on(0);
    s
}

fn listing(path: &str, files: &[&str]) -> DirListing {
    DirListing {
        path: path.to_string(),
        name: path.rsplit('/').next().map(|n| n.to_string()),
        files: files
            .iter()
            .map(|f| FileListing { path: format!("{path}/{f}"), extension: Some("png".to_string()) })
            .collect(),
        dirs: vec![],
    }
}

#[test]
fn state_at_the_start() {
    let (s, request) = AppState::new(SavedDefaults::default(), true);
    let request = request.unwrap();
    assert!(request.bundled);
    assert_eq!(request.weights, "<embedded>");
    assert_eq!((request.device, request.resolved), (Device::Auto, Device::CoreML));
    assert_eq!(s.status, "Add folders to your workspace to begin.");
    assert_eq!(s.model.model_status, "Loading model…");
    assert!(s.model.model_loading && !s.model.ready);
    assert_eq!(s.imgsz, 640);
    assert!(s.viewer.bw_mode && s.viewer.show_overlays && s.viewer.show_bubbles);
    assert!(!s.viewer.show_rejected && !s.viewer.show_static && !s.viewer.edit_mode);
    assert_eq!(s.viewer.hist_mode, HistMode::AvgPerImage);
    assert_eq!(s.viewer.zoom, sc(1.0));
    assert!(s.export.csv && !s.export.png && s.export.hist);
    assert_eq!(s.last_settings, Some(s.snapshot_settings()));
    assert_eq!(s.progress, RunProgress::default());
}

#[test]
fn model_loads() {
    let mut s = fresh();
    assert!(s.start_model_load(false).is_none());
    s.drain_model_load(LoadEvent::Pending, 3);
    assert!(s.model.model_loading);
    s.drain_model_load(LoadEvent::Loaded(Device::Cpu), 321);
    assert_eq!(s.model.model_status, "Loaded.\nDevice: auto (cpu)\nLoad time: 321 ms");
    assert_eq!(s.status, "Model loaded in 321 ms (device: auto (cpu)).");
    assert!(s.model.ready && !s.model.model_loading);
    assert_eq!(s.model.model_load_time_ms, Some(321));
    assert_eq!(s.model.resolved_device, Some(Device::Cpu));
    assert_eq!(s.load_button_text(), "Reload model");
    // Nothing more is listened to.
    s.drain_model_load(LoadEvent::Failed("late".to_string()), 400);
    assert!(s.model.ready);
}

#[test]
fn chosen_device_is_named_alone() {
    let mut s = loaded();
    s.choose_device(Device::CoreML);
    assert!(!s.model.ready);
    assert_eq!(s.model.model_status, "Not loaded.");
    assert_eq!(s.load_button_text(), "Load model");
    let request = s.start_model_load(true).unwrap();
    assert_eq!((request.device, request.resolved), (Device::CoreML, Device::CoreML));
    s.drain_model_load(LoadEvent::Loaded(Device::CoreML), 5);
    assert_eq!(s.status, "Model loaded in 5 ms (device: coreml).");
    s.choose_device(Device::CoreML);
    assert!(s.model.ready);
}

#[test]
fn model_fails_to_load() {
    let mut s = fresh();
    s.drain_model_load(LoadEvent::Failed("bad file".to_string()), 9);
    assert_eq!(s.model.model_status, "Load failed: bad file");
    assert_eq!(s.status, "Model load failed: bad file");
    assert!(!s.model.ready && !s.model.model_loading);
    let mut t = fresh();
    t.drain_model_load(LoadEvent::Died, 9);
    assert_eq!(t.model.model_status, "Load failed: worker died.");
    assert_eq!(t.status, "Add folders to your workspace to begin.");
}

#[test]
fn weights_are_picked_and_reset() {
    let mut s = loaded();
    s.pick_weights(None);
    assert!(s.model.ready);
    s.pick_weights(Some("/m/x.onnx".to_string()));
    assert_eq!((s.model.weights_path.as_str(), s.model.using_bundled, s.model.ready), ("/m/x.onnx", false, false));
    assert!(!s.start_model_load(false).unwrap().bundled);
    s.reset_weights();
    assert_eq!((s.model.weights_path.as_str(), s.model.using_bundled), ("<embedded>", true));
    assert_eq!(bundled_weights(), "<embedded>");
}

#[test]
fn changed_settings_give_results_up() {
    let mut s = viewing();
    s.viewer.current_frame = 1;
    s.maybe_invalidate_results();
    assert_eq!(s.results_list.len(), 1);
    s.settings.device = Device::Cpu;
    s.settings.params.bin_size_um = sc(1.0);
    s.maybe_invalidate_results();
    assert_eq!(s.results_list.len(), 1);
    s.settings.conf = sc(0.6);
    s.in_progress = true;
    s.maybe_invalidate_results();
    assert_eq!(s.results_list.len(), 1);
    s.in_progress = false;
    s.maybe_invalidate_results();
    assert!(s.results_list.is_empty());
    assert_eq!((s.focused_result, s.viewer.current_frame), (None, 0));
    assert_eq!(s.status, "Settings changed — previous results cleared.");
    assert_eq!(s.last_settings, Some(s.snapshot_settings()));
}

#[test]
fn settings_files() {
    let all = BaseDirsSet { home: true, app_data: true, xdg_config_home: true };
    let none = BaseDirsSet { home: false, app_data: false, xdg_config_home: false };
    let home = BaseDirsSet { home: true, app_data: false, xdg_config_home: false };
    let p = defaults_path(Platform::MacOs, all).unwrap();
    assert_eq!(p.base, BaseDir::Home);
    assert_eq!(p.parts, vec!["Library/Application Support/bsnobs", "defaults.json"]);
    let p = defaults_path(Platform::Windows, all).unwrap();
    assert_eq!((p.base, p.parts), (BaseDir::AppData, vec!["bsnobs".to_string(), "defaults.json".to_string()]));
    let p = defaults_path(Platform::Other, all).unwrap();
    assert_eq!((p.base, p.parts.join("/")), (BaseDir::XdgConfigHome, "bsnobs/defaults.json".to_string()));
    let p = defaults_path(Platform::Other, home).unwrap();
    assert_eq!((p.base, p.parts.join("/")), (BaseDir::Home, ".config/bsnobs/defaults.json".to_string()));
    assert!(defaults_path(Platform::Windows, home).is_none());
    for platform in [Platform::MacOs, Platform::Windows, Platform::Other] {
        assert!(defaults_path(platform, none).is_none());
    }
}

#[test]
fn saving_settings_is_reported() {
    assert_eq!(save_status(&SaveOutcome::SavedTo("/c/d.json".to_string())), "Saved defaults to /c/d.json");
    assert_eq!(save_status(&SaveOutcome::Saved), "Saved defaults.");
    assert_eq!(save_status(&SaveOutcome::Failed("no config dir".to_string())), "Could not save defaults: no config dir");
}

#[test]
fn ticks_and_ranks() {
    let mut s = loaded();
    for name in ["a", "b", "c"] {
        s.results_list.push(entry(name, vec![]));
    }
    assert_eq!(s.select_all_state().label, "Select all (0/3)");
    assert_eq!(s.export_hint(), "Select stacks above for export…");
    assert!(!s.can_export());
    s.set_visible(1, true);
    assert_eq!(s.results_list[1].selection_order, Some(0));
    let st = s.select_all_state();
    assert!(st.indeterminate && !st.checked && st.enabled);
    assert!(s.can_export());
    assert_eq!(s.export_hint(), " ");
    s.select_all(true);
    let ranks: Vec<Option<u32>> = s.results_list.iter().map(|r| r.selection_order).collect();
    assert_eq!(ranks, vec![Some(1), Some(0), Some(2)]);
    assert_eq!(s.next_selection_rank, 3);
    assert!(s.select_all_state().checked);
    assert_eq!(s.visible_order(), vec![1, 0, 2]);
    s.set_visible(1, false);
    assert_eq!(s.results_list[1].selection_order, None);
    s.set_visible(1, true);
    assert_eq!(s.visible_order(), vec![0, 2, 1]);
    s.select_all(false);
    assert!(s.results_list.iter().all(|r| !r.visible && r.selection_order.is_none()));
    assert!(s.visible_order().is_empty());
    assert_eq!(fresh().select_all_state().label, "Select all");
}

#[test]
fn ranks_start_over_at_the_end() {
    let mut s = loaded();
    s.results_list.push(entry("a", vec![]));
    s.results_list.push(entry("b", vec![]));
    s.next_selection_rank = u32::MAX;
    s.select_all(true);
    assert_eq!(s.results_list[0].selection_order, Some(u32::MAX));
    assert_eq!(s.results_list[1].selection_order, Some(0));
    assert_eq!(s.visible_order(), vec![1, 0]);
}

#[test]
fn nothing_to_export_while_running_or_without_a_choice() {
    let mut s = viewing();
    s.set_visible(0, true);
    assert!(s.can_export());
    s.in_progress = true;
    assert!(!s.can_export());
    s.in_progress = false;
    s.export.csv = false;
    s.export.hist = false;
    assert!(!s.can_export());
    s.export.png = true;
    assert!(s.can_export());
}

#[test]
fn clearing_results() {
    let mut s = viewing();
    s.viewer.edit_mode = true;
    s.hover(Some(0));
    s.click_bubble();
    s.viewer.zoom = sc(3.0);
    s.clear_results();
    assert!(s.results_list.is_empty() && s.undo_stack.is_empty());
    assert_eq!(s.focused_result, None);
    assert_eq!(s.viewer.zoom, sc(1.0));
    assert_eq!(s.status, "Results cleared.");
    assert!(s.focused_results().is_none());
}

#[test]
fn cards_of_results() {
    let e = entry("a", three_frames());
    let c = card_of(&e.results, true, &|a: Arithmetic| card_sum(a));
    assert_eq!(c.mean, Some(sc(3.0)));
    assert_eq!(c.counts, "frames: 3  bubbles: 2");
    let spread = c.spread.unwrap();
    assert_eq!((spread.min, spread.median, spread.max), (sc(2.0), sc(4.0), sc(4.0)));
    assert_eq!(c.rejects.unwrap(), "rejected: 2  static: 1");
    let plain = card_of(&entry("e", vec![]).results, false, &|a: Arithmetic| card_sum(a));
    assert_eq!(plain.mean, None);
    assert_eq!(plain.counts, "frames: 0  bubbles: 0");
    assert!(plain.spread.is_none() && plain.rejects.is_none());
}

fn card_sum(a: Arithmetic) -> Scalar {
    sc(match a {
        Arithmetic::Sum(x, y) => fl(x) + fl(y),
        Arithmetic::Share(x, n) => fl(x) / n as f32,
        _ => 0.0,
    })
}

fn card_slot(s: Slot) -> usize {
    let bw = (fl(s.max) - fl(s.min)) / s.n_bins as f32;
    ((fl(s.diameter) - fl(s.min)) / bw) as usize
}

fn card_value(s: Scaled) -> Scalar {
    sc(s.count as f32 * s.factor as f32 / s.divisor as f32)
}

#[test]
fn small_histograms_share_an_axis() {
    let mut s = loaded();
    s.results_list.push(entry("a", vec![
        frame("0", vec![spot(0.0, 1.0, true, false), spot(0.0, 1.0, true, false), spot(0.0, 1.0, true, false)]),
        frame("1", vec![spot(0.0, 9.0, true, false)]),
    ]));
    assert_eq!(s.cards_range(), (sc(1.0), sc(9.0)));
    let width = |p: (Scalar, Scalar, usize)| sc((fl(p.1) - fl(p.0)) / p.2 as f32);
    let y = |s: &AppState| s.cards_y_max(&width, &|x: Slot| card_slot(x), &|x: Scaled| card_value(x));
    assert_eq!(y(&s), sc(1.5));
    s.viewer.hist_mode = HistMode::Counts;
    assert_eq!(y(&s), sc(3.0));
    let flat = |_: (Scalar, Scalar, usize)| sc(0.0);
    assert_eq!(s.cards_y_max(&flat, &|x: Slot| card_slot(x), &|x: Scaled| card_value(x)), sc(1.0));
    s.viewer.hist_mode = HistMode::Percent;
    assert_eq!(y(&s), sc(100.0));
}

#[test]
fn small_histogram_counts() {
    let ds = vec![sc(0.0), sc(0.5), sc(23.5), sc(24.0), sc(25.0)];
    let h = |mode: HistMode, frames: usize| {
        mini_histogram(&ds, sc(0.0), sc(24.0), frames, mode, sc(1.0), &|x: Slot| card_slot(x)).unwrap()
    };
    let avg = h(HistMode::AvgPerImage, 4);
    assert_eq!(avg.counts.len(), 24);
    assert_eq!((avg.counts[0], avg.counts[23]), (2, 2));
    assert_eq!((avg.divisor, avg.divided_by), (4, 1));
    assert_eq!(h(HistMode::AvgPerImage, 0).divisor, 1);
    assert_eq!((h(HistMode::Counts, 4).divisor, h(HistMode::Counts, 4).divided_by), (1, 1));
    assert_eq!((h(HistMode::Percent, 4).divisor, h(HistMode::Percent, 4).divided_by), (5, 100));
    let flat = mini_histogram(&ds, sc(1.0), sc(1.0), 1, HistMode::Counts, sc(1.0), &|x: Slot| card_slot(x));
    assert!(flat.is_none());
    let low = mini_histogram(&ds, sc(0.0), sc(1.0), 1, HistMode::Counts, sc(0.0), &|x: Slot| card_slot(x));
    assert!(low.is_none());
    assert_eq!(HistMode::Percent.axis_mode(), HistAxisMode::Percent);
    assert_eq!(HistMode::Counts.axis_mode(), HistAxisMode::Counts);
}

#[test]
fn click_rejects_and_undo_restores() {
    let mut s = viewing();
    s.viewer.edit_mode = true;
    s.hover(Some(0));
    s.click_bubble();
    let f = &s.results_list[0].results.frames[0];
    assert!(!f.bubbles[0].is_valid);
    assert_eq!((f.num_valid, f.num_rejected), (0, 3));
    assert_eq!((s.viewer.hovered_bubble, s.viewer.suppress_hover_bubble), (None, Some(0)));
    s.undo();
    let f = &s.results_list[0].results.frames[0];
    assert!(f.bubbles[0].is_valid);
    assert_eq!((f.num_valid, f.num_rejected), (1, 2));
    assert!(s.undo_stack.is_empty());
    s.undo();
    assert!(s.undo_stack.is_empty());
}

#[test]
fn click_accepts_a_static_bubble() {
    let mut s = viewing();
    s.viewer.edit_mode = true;
    s.hover(Some(2));
    s.click_bubble();
    let b = &s.results_list[0].results.frames[0].bubbles[2];
    assert!(b.is_valid && !b.is_static);
    s.undo();
    let b = &s.results_list[0].results.frames[0].bubbles[2];
    assert!(!b.is_valid && b.is_static);
}

#[test]
fn click_beside_bubbles_does_nothing() {
    let mut s = viewing();
    s.viewer.edit_mode = true;
    s.hover(None);
    s.click_bubble();
    assert!(s.undo_stack.is_empty());
    assert_eq!(s.viewer.suppress_hover_bubble, None);
}

#[test]
fn clicked_bubble_is_not_pointed_out_until_left() {
    let mut s = viewing();
    s.viewer.edit_mode = true;
    s.hover(Some(0));
    s.click_bubble();
    s.hover(Some(0));
    assert_eq!(s.viewer.hovered_bubble, None);
    assert!(s.may_drag());
    s.hover(Some(1));
    assert_eq!(s.viewer.hovered_bubble, Some(1));
    assert!(!s.may_drag());
    s.hover(Some(0));
    assert_eq!(s.viewer.hovered_bubble, Some(0));
    s.viewer.edit_mode = false;
    s.hover(Some(0));
    assert_eq!(s.viewer.hovered_bubble, None);
}

#[test]
fn discarded_frame_comes_back() {
    let mut s = viewing();
    s.viewer.current_frame = 2;
    s.texture_loaded(TextureKey { result: 0, frame: 2, bw: true });
    s.discard_frame();
    assert_eq!(s.frame_count(), 2);
    assert_eq!(s.viewer.current_frame, 1);
    assert_eq!(s.viewer.texture_for, None);
    s.discard_frame();
    s.discard_frame();
    assert_eq!((s.frame_count(), s.viewer.current_frame), (0, 0));
    s.discard_frame();
    assert_eq!(s.undo_stack.len(), 3);
    for n in 1..=3usize {
        s.undo();
        assert_eq!(s.frame_count(), n);
        assert!(s.is_in_range());
    }
    let paths: Vec<&str> = s.results_list[0].results.frames.iter().map(|f| f.image_path.as_str()).collect();
    assert_eq!(paths, vec!["0.png", "1.png", "2.png"]);
    assert_eq!(s.viewer.current_frame, 2);
}

#[test]
fn undo_of_a_frame_elsewhere_leaves_the_view() {
    let mut s = viewing();
    s.results_list.push(entry("b", three_frames()));
    s.discard_frame();
    s.focus_on(1);
    s.viewer.current_frame = 2;
    s.undo();
    assert_eq!(s.viewer.current_frame, 2);
    assert_eq!(s.results_list[0].results.frames.len(), 3);
}

#[test]
fn moving_through_frames() {
    let mut s = viewing();
    s.show_previous();
    assert_eq!(s.viewer.current_frame, 0);
    s.show_next();
    s.show_next();
    s.show_next();
    assert_eq!(s.viewer.current_frame, 2);
    assert_eq!(s.page_label().unwrap(), "3/3");
    s.slide_to(-4);
    assert_eq!(s.viewer.current_frame, 0);
    s.slide_to(1);
    assert_eq!(s.viewer.current_frame, 1);
    s.slide_to(99);
    assert_eq!(s.viewer.current_frame, 2);
    s.show_previous();
    assert_eq!(s.page_label().unwrap(), "2/3");
    assert_eq!(s.caption().unwrap(), "a  (3 frames)");
    let mut empty = loaded();
    empty.show_next();
    empty.slide_to(3);
    assert_eq!(empty.viewer.current_frame, 0);
    assert!(empty.page_label().is_none() && empty.caption().is_none());
    assert_eq!(empty.empty_hint(), "Add folders to the workspace, then click RUN.");
    s.focused_result = None;
    assert_eq!(s.empty_hint(), "Click a result block on the right to view it.");
}

#[test]
fn picture_is_loaded_when_it_changes() {
    let mut s = viewing();
    let (key, path) = s.texture_wanted().unwrap();
    assert_eq!((key, path.as_str()), (TextureKey { result: 0, frame: 0, bw: true }, "0.png"));
    s.texture_loaded(key);
    assert!(s.texture_wanted().is_none());
    s.viewer.bw_mode = false;
    assert!(s.texture_wanted().is_some());
    s.viewer.bw_mode = true;
    s.show_next();
    assert_eq!(s.texture_wanted().unwrap().1, "1.png");
    s.focused_result = Some(7);
    assert!(s.texture_wanted().is_none());
}

#[test]
fn pixels_in_black_and_white() {
    let luma = |c: (u8, u8, u8)| {
        (0.299 * c.0 as f32 + 0.587 * c.1 as f32 + 0.114 * c.2 as f32).round().clamp(0.0, 255.0) as u8
    };
    let rgba = vec![255, 0, 0, 9, 10, 20, 30, 255];
    assert_eq!(shown_pixels(&rgba, false, luma), rgba);
    assert_eq!(shown_pixels(&rgba, true, luma), vec![76, 76, 76, 9, 18, 18, 18, 255]);
}

#[test]
fn nearest_bubble_within_reach() {
    let r = |d: f32, reach: f32| Reach { distance: sc(d), reach: sc(reach) };
    let e = entry("e", vec![frame("0", vec![spot(0.0, 1.0, true, false), spot(5.0, 1.0, true, false)])]);
    let under = |x: f32| {
        bubble_under(&e.results.frames[0], |s: Spot| Reach { distance: sc((fl(s.x) - x).abs()), reach: sc(3.0) })
    };
    assert_eq!((under(1.0), under(4.0), under(40.0)), (Some(0), Some(1), None));
    assert_eq!(closest_bubble(&vec![]), None);
    assert_eq!(closest_bubble(&vec![r(9.0, 8.0)]), None);
    assert_eq!(closest_bubble(&vec![r(8.0, 8.0), r(9.0, 8.0), r(3.0, 8.0), r(3.0, 20.0), r(1.0, 0.5)]), Some(2));
    assert_eq!(closest_bubble(&vec![r(f32::NAN, 8.0), r(5.0, 8.0)]), Some(1));
}

#[test]
fn zoom_limits() {
    assert_eq!(limit_zoom(sc(0.5)), sc(1.0));
    assert_eq!(limit_zoom(sc(2.5)), sc(2.5));
    assert_eq!(limit_zoom(sc(9.0)), sc(8.0));
    let mut s = viewing();
    s.zoom_out(|z: Scalar| sc(fl(z) * 0.8));
    assert_eq!(s.viewer.zoom, sc(1.0));
    s.viewer.zoom = sc(7.0);
    s.zoom_in(|z: Scalar| sc(fl(z) * 1.25));
    assert_eq!(s.viewer.zoom, sc(8.0));
    s.zoom_out(|z: Scalar| sc(fl(z) * 0.8));
    assert_eq!(s.viewer.zoom, sc(6.4));
    s.viewer.pan_x = sc(3.0);
    s.zoom_to_fit();
    assert_eq!((s.viewer.zoom, s.viewer.pan_x, s.viewer.pan_y), (sc(1.0), sc(0.0), sc(0.0)));
}

#[test]
fn editing_needs_a_frame() {
    let mut s = loaded();
    s.toggle_edit();
    assert!(!s.viewer.edit_mode);
    let mut t = viewing();
    t.toggle_edit();
    assert!(t.viewer.edit_mode);
    t.toggle_edit();
    assert!(!t.viewer.edit_mode);
    t.toggle_overlays();
    assert!(!t.viewer.show_overlays);
}

#[test]
fn marks_on_the_screen() {
    let mut s = viewing();
    let marks = |s: &AppState| draw_overlays(&s.viewer, &s.results_list[0].results.frames[0]);
    let m = marks(&s);
    assert_eq!(m.len(), 1);
    assert_eq!((m[0].bubble, m[0].dashed, m[0].labelled, m[0].hint), (0, false, true, None));
    s.viewer.show_rejected = true;
    s.viewer.show_static = true;
    let m = marks(&s);
    assert_eq!(m.iter().map(|m| m.color.red).collect::<Vec<u8>>(), vec![0, 255, 255]);
    assert!(m[2].dashed && !m[2].labelled);
    s.viewer.show_rejected = false;
    s.viewer.show_static = false;
    s.viewer.edit_mode = true;
    s.hover(Some(2));
    let m = marks(&s);
    assert_eq!(m[1].hint, Some(HoverHint::Accept));
    assert!(!m[1].dashed && m[1].color.green == 200);
    s.hover(Some(0));
    let m = marks(&s);
    assert_eq!(m[0].hint, Some(HoverHint::Reject));
    assert_eq!((m[0].color.red, m[0].color.green, m[0].labelled), (255, 40, false));
}

fn close(p: (Spot, Spot)) -> Closeness {
    let dx = fl(p.0.x) - fl(p.1.x);
    let d = fl(p.0.diameter);
    Closeness { distance_sq: sc(dx * dx), diameter_diff: sc((d - fl(p.1.diameter)).abs() / d) }
}

fn run_limits(p: (StaticFilterConfig, usize)) -> (usize, Scalar) {
    let tol = fl(p.0.tol_px);
    ((fl(p.0.min_frame_frac) * p.1 as f32).ceil() as usize, sc(tol * tol))
}

/// Runs a plan to its end; every image shows the same dirt and a bubble of its own.
fn run_to_end(plan: RunPlan) -> Vec<WorkerMsg> {
    let mut out = Vec::new();
    let mut w = Worker::new(plan);
    let mut n = 0.0f32;
    loop {
        match w.next() {
            WorkStep::Predict(path) => {
                out.push(w.progress(path.rsplit('/').next().unwrap_or("").to_string()));
                n += 100.0;
                w.accept(frame(&path, vec![spot(0.0, 5.0, true, false), spot(n, 5.0, true, false)]));
            }
            WorkStep::Finish => {
                let entry = w.finish(|p: (StaticFilterConfig, usize)| run_limits(p), |p: (Spot, Spot)| close(p));
                out.push(WorkerMsg::FolderDone(entry));
            }
            WorkStep::Done => {
                out.push(WorkerMsg::AllDone);
                return out;
            }
        }
    }
}

#[test]
fn run_from_start_to_end() {
    let mut s = loaded();
    s.add_folder(&vec![listing("/w/a", &["1.png", "2.png", "3.png"]), listing("/w/b", &["9.png"])]);
    assert_eq!(s.status, "Added 2 folder(s), 4 images");
    s.results_list.push(entry("a", vec![]));
    s.results_list.push(entry("old", vec![]));
    assert!(s.can_run());
    assert_eq!(s.run_text(), "RUN");
    let plan = s.start_run().unwrap();
    assert_eq!(s.status, "Running inference on 2 folder(s)…");
    assert_eq!(s.run_text(), "Running…");
    assert!(s.in_progress && !s.model.ready && !s.can_run());
    assert!(s.start_run().is_none());
    let left: Vec<&str> = s.results_list.iter().map(|r| r.name.as_str()).collect();
    assert_eq!(left, vec!["old"]);
    let mut said: Vec<String> = Vec::new();
    let mut shown: Vec<Option<String>> = Vec::new();
    for msg in run_to_end(plan) {
        s.drain_worker(msg, 1234);
        said.push(s.status.clone());
        shown.push(s.progress_text());
    }
    assert_eq!(
        said,
        vec![
            "[1/2] a  —  frame [1/3] 1.png",
            "[1/2] a  —  frame [2/3] 2.png",
            "[1/2] a  —  frame [3/3] 3.png",
            "a: static filter rejected 3 detection(s) across 1 cluster(s)",
            "[2/2] b  —  frame [1/1] 9.png",
            "b: static filter rejected 2 detection(s) across 2 cluster(s)",
            "Done — 2 sample(s), 3 bubbles total in 1234 ms",
        ]
    );
    assert_eq!(shown[1].as_ref().unwrap(), "1/2 folders · 2/3 frames");
    assert!(shown[6].is_none());
    assert!(!s.in_progress && s.model.ready);
    assert_eq!(s.focused_result, Some(2));
    let names: Vec<&str> = s.results_list.iter().map(|r| r.name.as_str()).collect();
    assert_eq!(names, vec!["old", "a", "b"]);
    assert_eq!(s.results_list[1].source_path, "/w/a");
    assert_eq!(s.results_list.iter().filter(|r| r.source_path == "/w/a").count(), 1);
    assert_eq!(s.viewer.current_frame, 0);
    assert_eq!(s.results_list[1].results.frames.len(), 3);
    assert!(s.results_list.iter().all(|r| !r.visible && r.selection_order.is_none()));
    for r in s.results_list.iter() {
        for f in r.results.frames.iter() {
            assert_eq!(f.num_valid, f.bubbles.iter().filter(|b| b.is_valid).count());
            assert_eq!(f.num_rejected, f.bubbles.iter().filter(|b| !b.is_valid).count());
        }
    }
    s.maybe_invalidate_results();
    assert_eq!(s.results_list.len(), 3);
}

#[test]
fn settings_changed_during_a_run_give_its_results_up() {
    let mut s = loaded();
    s.add_folder(&vec![listing("/w/a", &["1.png", "2.png"])]);
    let started = s.snapshot_settings();
    let plan = s.start_run().unwrap();
    assert_eq!(s.run_settings, Some(started));
    for msg in run_to_end(plan) {
        s.settings.conf = sc(0.9);
        s.maybe_invalidate_results();
        s.drain_worker(msg, 5);
    }
    assert_eq!(s.results_list.len(), 1);
    assert_eq!(s.last_settings, Some(started));
    assert!(started != s.snapshot_settings());
    s.maybe_invalidate_results();
    assert!(s.results_list.is_empty());
    assert_eq!(s.status, "Settings changed — previous results cleared.");
    assert_eq!((s.last_settings, s.run_settings), (Some(s.snapshot_settings()), None));
}

#[test]
fn settings_changed_back_during_a_run_keep_its_results() {
    let mut s = loaded();
    s.add_folder(&vec![listing("/w/a", &["1.png", "2.png"])]);
    let before = s.settings.iou;
    let plan = s.start_run().unwrap();
    s.settings.iou = sc(0.1);
    s.maybe_invalidate_results();
    s.settings.iou = before;
    for msg in run_to_end(plan) {
        s.drain_worker(msg, 5);
    }
    s.maybe_invalidate_results();
    assert_eq!(s.results_list.len(), 1);
}

#[test]
fn run_without_the_static_filter() {
    let mut s = loaded();
    s.settings.reject_static = false;
    s.add_folder(&vec![listing("/w/a", &["1.png", "2.png"])]);
    let plan = s.start_run().unwrap();
    for msg in run_to_end(plan) {
        s.drain_worker(msg, 5);
    }
    assert_eq!(s.results_list[0].results.total_bubbles(), 4);
    assert!(s.results_list[0].static_note.is_none());
}

#[test]
fn run_needs_a_model_and_folders() {
    let mut s = fresh();
    s.add_folder(&vec![listing("/w/a", &["1.png"])]);
    assert!(s.start_run().is_none());
    assert_eq!(s.status, "Added 1 folder(s), 1 images");
    let mut t = loaded();
    assert!(!t.can_run());
    assert!(t.start_run().is_none());
    assert_eq!(t.status, "Nothing to run — tick at least one folder in the workspace.");
    assert!(t.model.ready && !t.in_progress);
}

#[test]
fn failed_run_gives_the_model_back() {
    let mut s = loaded();
    s.add_folder(&vec![listing("/w/a", &["1.png"])]);
    let plan = s.start_run().unwrap();
    assert_eq!(plan.folders.len(), 1);
    s.drain_worker(Worker::failed(&"/w/a/1.png".to_string(), &"decoding image /w/a/1.png".to_string()), 5);
    assert_eq!(s.status, "Inference failed: /w/a/1.png: decoding image /w/a/1.png");
    assert!(s.model.ready && !s.in_progress);
    // Nothing more is listened to.
    s.drain_worker(WorkerMsg::AllDone, 6);
    assert_eq!(s.status, "Inference failed: /w/a/1.png: decoding image /w/a/1.png");
}

#[test]
fn folder_is_taken_out_of_the_workspace() {
    let mut s = loaded();
    s.add_folder(&vec![listing("/w/a", &["1.png"]), listing("/w/b", &["1.png"])]);
    s.remove_folder(0);
    assert_eq!(s.workspace.len(), 1);
    assert_eq!(s.workspace[0].path, "/w/b");
    s.add_folder(&vec![]);
    assert_eq!(s.status, "Added 2 folder(s), 2 images");
}

#[test]
fn directories_of_export_steps() {
    let list = vec![entry("mb", vec![]), entry("nb", vec![])];
    let none: Vec<String> = vec![];
    assert_eq!(step_dir(&list, ExportStep::Metadata(1)), vec!["nb"]);
    assert_eq!(step_dir(&list, ExportStep::SampleDir(0)), vec!["mb"]);
    assert_eq!(step_dir(&list, ExportStep::OverlayDir(0)), vec!["mb", "overlays"]);
    assert_eq!(step_dir(&list, ExportStep::Overlay(1, 7)), vec!["nb", "overlays"]);
    assert_eq!(step_dir(&list, ExportStep::CombinedSummary), none);
    assert_eq!(step_dir(&list, ExportStep::CombinedHistogram), none);
    assert_eq!((step_sample(ExportStep::Csv(1)), step_sample(ExportStep::CombinedSummary)), (Some(1), None));
}

#[test]
fn proposed_export_names() {
    let mut s = loaded();
    let ts = "20240102-030405".to_string();
    let percent = |c: Scalar| (fl(c) * 100.0).round() as u32;
    assert!(s.propose_export(percent, &ts).is_none());
    assert_eq!(s.status, "Nothing visible to export.");
    s.results_list.push(entry("mb", vec![]));
    s.results_list.push(entry("nb", vec![]));
    s.set_visible(1, true);
    assert_eq!(s.propose_export(percent, &ts).unwrap(), "nb_count_conf55_20240102-030405");
    s.settings.conf = sc(0.05);
    assert_eq!(s.propose_export(percent, &ts).unwrap(), "nb_count_conf05_20240102-030405");
    s.set_visible(0, true);
    s.settings.conf = sc(1.0);
    assert_eq!(s.propose_export(percent, &ts).unwrap(), "bsnobs_run_conf100_20240102-030405");
}

#[test]
fn export_steps_of_one_sample() {
    let mut s = viewing();
    s.set_visible(0, true);
    s.export.png = true;
    let opts = s.export_opts();
    assert!(opts.csv && opts.png && opts.hist && opts.show_bubbles && !opts.show_rejected && !opts.show_static);
    let run = ExportRun::new(&s.results_list, &s.visible_order(), &opts);
    assert_eq!(
        run.steps,
        vec![
            ExportStep::SampleDir(0),
            ExportStep::Metadata(0),
            ExportStep::Summary(0),
            ExportStep::Csv(0),
            ExportStep::HistogramCsv(0),
            ExportStep::Histogram(0),
            ExportStep::OverlayDir(0),
            ExportStep::Overlay(0, 0),
            ExportStep::Overlay(0, 1),
            ExportStep::Overlay(0, 2),
            ExportStep::CombinedSummary,
        ]
    );
    assert_eq!(run.total_frames, 3);
}

#[test]
fn export_steps_of_two_samples() {
    let mut s = viewing();
    s.results_list.push(entry("b", three_frames()));
    s.set_visible(1, true);
    s.set_visible(0, true);
    s.export.csv = false;
    let run = ExportRun::new(&s.results_list, &s.visible_order(), &s.export_opts());
    assert_eq!(
        run.steps,
        vec![
            ExportStep::SampleDir(1),
            ExportStep::Metadata(1),
            ExportStep::Summary(1),
            ExportStep::Histogram(1),
            ExportStep::SampleDir(0),
            ExportStep::Metadata(0),
            ExportStep::Summary(0),
            ExportStep::Histogram(0),
            ExportStep::CombinedSummary,
            ExportStep::CombinedHistogram,
        ]
    );
    assert_eq!(run.total_frames, 0);
}

#[test]
fn export_tells_every_tenth_overlay() {
    let mut s = loaded();
    s.results_list.push(entry("a", (0..21).map(|i| frame(&format!("{i}.png"), vec![])).collect()));
    s.set_visible(0, true);
    s.export.csv = false;
    s.export.hist = false;
    s.export.png = true;
    let mut run = ExportRun::new(&s.results_list, &s.visible_order(), &s.export_opts());
    let mut said: Vec<String> = Vec::new();
    while run.next().is_some() {
        if let Some(text) = run.done() {
            said.push(text);
        }
    }
    assert_eq!(said, vec!["Exporting overlays… 10/21", "Exporting overlays… 20/21"]);
}

#[test]
fn failed_steps_are_told() {
    let (name, dir, e) = ("mb".to_string(), "/o/mb".to_string(), "denied".to_string());
    let said = |step: ExportStep| step_failure(step, &name, &dir, &e);
    assert_eq!(said(ExportStep::SampleDir(0)), "Could not create /o/mb: denied");
    assert_eq!(said(ExportStep::Metadata(0)), "Metadata write failed for mb: denied");
    assert_eq!(said(ExportStep::Summary(0)), "Summary write failed for mb: denied");
    assert_eq!(said(ExportStep::Csv(0)), "CSV export failed for mb: denied");
    assert_eq!(said(ExportStep::HistogramCsv(0)), "Histogram CSV failed for mb: denied");
    assert_eq!(said(ExportStep::Histogram(0)), "Histogram export failed for mb: denied");
    assert_eq!(said(ExportStep::OverlayDir(0)), "Could not create /o/mb: denied");
    assert_eq!(said(ExportStep::Overlay(0, 1)), "PNG overlay failed for mb: denied");
    assert_eq!(said(ExportStep::CombinedSummary), "Combined summary CSV failed: denied");
    assert_eq!(said(ExportStep::CombinedHistogram), "Combined histogram failed: denied");
    assert_eq!(target_failure(&dir, &e), "Could not create /o/mb: denied");
    assert_eq!(export_done(3, &dir), "Exported 3 sample(s) to /o/mb");
    assert_eq!(histogram_file(&name), "mb_histogram.png");
    assert_eq!(overlay_file(&Some("img_1".to_string())), "img_1_overlay.png");
    assert_eq!(overlay_file(&None), "frame_overlay.png");
}

#[test]
fn metadata_of_a_run() {
    let s = viewing();
    let m = s.run_metadata(0);
    assert_eq!(m.file_name, "a_run_metadata.json");
    assert_eq!((m.image_dir.as_str(), m.weights.as_str(), m.weights_bundled), ("/w/a", "<embedded>", true));
    assert_eq!((m.device, m.imgsz, m.settings.max_det), ("auto", 640, 1000));
    assert_eq!(
        (m.n_frames, m.n_bubbles_accepted, m.n_bubbles_rejected, m.n_static_rejected),
        (3, 2, 2, 1)
    );
}

#[test]
fn update_check_is_made_once_at_the_start() {
    let mut s = fresh();
    assert!(s.auto_check());
    assert!(s.updater.busy);
    assert!(!s.auto_check());
    assert_eq!(s.drain_updater(None), None);
    assert!(s.updater.busy);
    assert_eq!(s.drain_updater(Some(UpdateMessage::UpToDate)), None);
    let w = s.update_widget();
    assert!(!w.busy && w.up_to_date && !w.offer);
    assert_eq!(w.version, "v0.1.0");
    assert_eq!(UpdateUi::current_version(), "0.1.0");
}

#[test]
fn update_is_offered_and_installed() {
    let mut s = fresh();
    s.auto_check();
    s.drain_updater(Some(run_check(CheckOutcome::Needed(true))));
    assert!(s.show_update_modal);
    assert!(s.update_widget().offer);
    assert_eq!(s.offer_text(), "A newer version of BSnoBS is available.\nYou are running v0.1.0.");
    assert!(!s.answer_offer(true, false, true));
    assert!(!s.show_update_modal);
    s.show_offer();
    assert!(!s.answer_offer(true, false, false));
    assert!(s.show_update_modal);
    assert!(s.answer_offer(true, true, false));
    assert!(!s.show_update_modal && s.updater.busy);
    assert!(!s.answer_offer(true, true, false));
    s.drain_updater(Some(run_install(InstallOutcome::Installed("0.2.0".to_string()))));
    assert!(s.show_restart_modal && !s.update_widget().offer);
    assert_eq!(s.restart_text(), "BSnoBS v0.2.0 has been installed.");
    s.answer_restart(true);
    assert!(s.show_restart_modal);
    s.answer_restart(false);
    assert!(!s.show_restart_modal);
    assert_eq!(fresh().restart_text(), "BSnoBS vthe new version has been installed.");
}

#[test]
fn failed_update_check_is_logged() {
    let mut s = fresh();
    s.auto_check();
    let warning = s.drain_updater(Some(run_check(CheckOutcome::Failed("offline".to_string()))));
    assert_eq!(warning.unwrap(), "update check failed: offline");
    assert!(!s.show_update_modal && !s.updater.busy);
    assert_eq!(s.drain_updater(Some(UpdateMessage::Error("late".to_string()))), None);
}

#[test]
fn outcomes_of_updates() {
    assert!(matches!(run_check(CheckOutcome::Needed(false)), UpdateMessage::UpToDate));
    assert!(matches!(run_check(CheckOutcome::NoRelease), UpdateMessage::UpToDate));
    assert!(matches!(run_check(CheckOutcome::Needed(true)), UpdateMessage::Available { latest } if latest == "newer"));
    assert!(matches!(run_check(CheckOutcome::NotReady("x".to_string())), UpdateMessage::Error(e) if e == "x"));
    assert!(matches!(run_install(InstallOutcome::NothingDone), UpdateMessage::NoUpdateApplied));
    assert!(matches!(run_install(InstallOutcome::Failed("y".to_string())), UpdateMessage::Error(e) if e == "y"));
    assert!(matches!(run_install(InstallOutcome::NotReady("z".to_string())), UpdateMessage::Error(e) if e == "z"));
}

#[test]
fn update_state_on_its_own() {
    let mut u = UpdateUi::default();
    assert!(!u.poll(Some(UpdateMessage::UpToDate)));
    assert!(u.last.is_none());
    assert!(u.check());
    assert!(!u.check() && !u.install());
    assert!(!u.poll(None));
    assert!(u.poll(Some(UpdateMessage::Available { latest: "newer".to_string() })));
    assert_eq!(u.available.as_deref(), Some("newer"));
    assert!(u.install());
    assert!(u.last.is_none() && u.available.is_some());
    assert!(u.poll(Some(UpdateMessage::Error("no".to_string()))));
    assert_eq!(u.available.as_deref(), Some("newer"));
    u.install();
    assert!(u.poll(Some(UpdateMessage::NoUpdateApplied)));
    assert!(u.available.is_none());
}
