use bsnobs::scalar::Scalar;
use bsnobs::static_filter::apply;
use bsnobs::static_filter::Closeness;
use bsnobs::static_filter::FilterSummary;
use bsnobs::static_filter::Spot;
use bsnobs::static_filter::StaticFilterConfig;
use bsnobs::types::AnalysisParameters;
use bsnobs::types::AnalysisResults;
use bsnobs::types::BubbleData;
use bsnobs::types::FrameResult;

fn px(x: f32) -> Scalar {
    Scalar::from_bits(x.to_bits())
}

fn back(s: Scalar) -> f32 {
    f32::from_bits(s.bits)
}

fn closeness(p: (Spot, Spot)) -> Closeness {
    let (a, b) = p;
    let dx = back(a.x) - back(b.x);
    let dy = back(a.y) - back(b.y);
    let da = back(a.diameter);
    Closeness { distance_sq: px(dx * dx + dy * dy), diameter_diff: px((da - back(b.diameter)).abs() / da) }
}

fn bubble(x: f32, y: f32, d: f32, valid: bool) -> BubbleData {
    BubbleData {
        frame_name: "f".to_string(),
        bubble_id: 1,
        diameter_um: px(d),
        volume_um3: px(0.0),
        area_px: px(0.0),
        centroid_x: px(x),
        centroid_y: px(y),
        is_valid: valid,
        is_static: false,
    }
}

fn sample(frames: Vec<Vec<BubbleData>>) -> AnalysisResults {
    AnalysisResults {
        sample_name: "s".to_string(),
        parameters: AnalysisParameters::default(),
        frames: frames
            .into_iter()
            .map(|bubbles| {
                let n = bubbles.iter().filter(|b| b.is_valid).count();
                FrameResult {
                    image_path: "i".to_string(),
                    num_valid: n,
                    num_rejected: bubbles.len() - n,
                    bubbles,
                }
            })
            .collect(),
    }
}

fn limits(p: (StaticFilterConfig, usize)) -> (usize, Scalar) {
    let (cfg, n) = p;
    let tol = back(cfg.tol_px);
    ((back(cfg.min_frame_frac) * n as f32).ceil() as usize, px(tol * tol))
}

fn run_filter(r: &mut AnalysisResults, frac: f32, tol: f32, diam: f32) -> FilterSummary {
    let cfg = StaticFilterConfig { min_frame_frac: px(frac), tol_px: px(tol), diameter_tol_frac: px(diam) };
    apply(r, &cfg, |p: (StaticFilterConfig, usize)| limits(p), |p: (Spot, Spot)| closeness(p))
}

fn flags(r: &AnalysisResults) -> Vec<Vec<(bool, bool)>> {
    r.frames.iter().map(|f| f.bubbles.iter().map(|b| (b.is_valid, b.is_static)).collect()).collect()
}

#[test]
fn no_frames_no_rejections() {
    let mut r = sample(vec![]);
    let s = run_filter(&mut r, 0.4, 6.0, 0.5);
    assert_eq!((s.n_rejected, s.n_clusters), (0, 0));
}

#[test]
fn dirt_in_every_frame_is_rejected() {
    let mut r = sample(vec![
        vec![bubble(100.0, 100.0, 5.0, true), bubble(10.0, 10.0, 5.0, true)],
        vec![bubble(101.0, 99.0, 5.0, true), bubble(50.0, 60.0, 5.0, true)],
        vec![bubble(99.0, 100.0, 5.0, true), bubble(200.0, 10.0, 5.0, true)],
        vec![bubble(300.0, 300.0, 5.0, true)],
        vec![bubble(400.0, 20.0, 5.0, true)],
    ]);
    let before: usize = r.total_bubbles();
    let s = run_filter(&mut r, 0.4, 6.0, 0.5);
    assert_eq!((s.n_rejected, s.n_clusters), (3, 1));
    assert_eq!(flags(&r)[0], vec![(false, true), (true, false)]);
    assert_eq!(flags(&r)[3], vec![(true, false)]);
    assert_eq!(r.frames[0].num_valid, 1);
    assert_eq!(r.frames[0].num_rejected, 1);
    assert_eq!(r.total_bubbles() + s.n_rejected, before);
    assert_eq!(r.total_static(), 3);
    assert_eq!(r.total_rejected(), 3);
}

#[test]
fn threshold_counts_frames_not_sightings() {
    let mut r = sample(vec![
        vec![bubble(1.0, 1.0, 5.0, true), bubble(2.0, 1.0, 5.0, true), bubble(3.0, 1.0, 5.0, true)],
        vec![bubble(100.0, 1.0, 5.0, true)],
        vec![bubble(200.0, 1.0, 5.0, true)],
    ]);
    let s = run_filter(&mut r, 0.5, 6.0, 0.0);
    assert_eq!(s.n_rejected, 0);
}

#[test]
fn distance_at_the_tolerance_counts() {
    let frames = || vec![vec![bubble(0.0, 0.0, 5.0, true)], vec![bubble(6.0, 0.0, 5.0, true)]];
    let mut near = sample(frames());
    assert_eq!(run_filter(&mut near, 1.0, 6.0, 0.5).n_rejected, 2);
    let mut far = sample(frames());
    assert_eq!(run_filter(&mut far, 1.0, 5.9, 0.5).n_rejected, 0);
}

#[test]
fn other_diameters_are_no_sightings() {
    let frames = || vec![vec![bubble(0.0, 0.0, 4.0, true)], vec![bubble(0.0, 0.0, 6.5, true)]];
    let mut r = sample(frames());
    // 2.5 of 4 is more than half, 2.5 of 6.5 is less.
    let s = run_filter(&mut r, 1.0, 6.0, 0.5);
    assert_eq!(s.n_rejected, 1);
    assert_eq!(flags(&r), vec![vec![(true, false)], vec![(false, true)]]);
    let mut ignored = sample(frames());
    assert_eq!(run_filter(&mut ignored, 1.0, 6.0, 0.0).n_rejected, 2);
}

#[test]
fn rejected_bubbles_do_not_count() {
    let mut r = sample(vec![vec![bubble(0.0, 0.0, 5.0, true)], vec![bubble(0.0, 0.0, 5.0, false)]]);
    let s = run_filter(&mut r, 1.0, 6.0, 0.5);
    assert_eq!(s.n_rejected, 0);
    assert_eq!(flags(&r), vec![vec![(true, false)], vec![(false, false)]]);
}

#[test]
fn clusters_are_counted_greedily() {
    // Four places in a row, each within reach of its neighbours only: the first covers the
    // second, the third starts a cluster of its own and covers the fourth.
    let row = || {
        vec![
            bubble(0.0, 0.0, 5.0, true),
            bubble(5.0, 0.0, 5.0, true),
            bubble(10.0, 0.0, 5.0, true),
            bubble(15.0, 0.0, 5.0, true),
        ]
    };
    let mut r = sample(vec![row(), row()]);
    let s = run_filter(&mut r, 1.0, 6.0, 0.0);
    assert_eq!((s.n_rejected, s.n_clusters), (8, 2));
}

#[test]
fn clusters_of_places_together_and_apart() {
    // All within reach of each other.
    let heap = || vec![bubble(0.0, 0.0, 5.0, true), bubble(2.0, 0.0, 5.0, true), bubble(4.0, 0.0, 5.0, true)];
    let mut together = sample(vec![heap()]);
    let s = run_filter(&mut together, 1.0, 6.0, 0.0);
    assert_eq!((s.n_rejected, s.n_clusters), (3, 1));
    // None within reach of another.
    let spread = || vec![bubble(0.0, 0.0, 5.0, true), bubble(20.0, 0.0, 5.0, true), bubble(40.0, 0.0, 5.0, true)];
    let mut apart = sample(vec![spread()]);
    let s = run_filter(&mut apart, 1.0, 6.0, 0.0);
    assert_eq!((s.n_rejected, s.n_clusters), (3, 3));
}

#[test]
fn larger_fractions_reject_less() {
    let frames = || {
        sample(vec![
            vec![bubble(0.0, 0.0, 5.0, true), bubble(50.0, 0.0, 5.0, true), bubble(99.0, 0.0, 5.0, true)],
            vec![bubble(1.0, 0.0, 5.0, true), bubble(50.0, 1.0, 5.0, true)],
            vec![bubble(2.0, 0.0, 5.0, true)],
        ])
    };
    let count = |frac: f32| run_filter(&mut frames(), frac, 6.0, 0.5).n_rejected;
    assert_eq!((count(0.3), count(0.6), count(0.9), count(2.0)), (6, 5, 3, 0));
    let (mut low, mut high) = (frames(), frames());
    run_filter(&mut low, 0.6, 6.0, 0.5);
    run_filter(&mut high, 0.9, 6.0, 0.5);
    for (a, b) in flags(&low).iter().flatten().zip(flags(&high).iter().flatten()) {
        assert!(a.1 || !b.1);
    }
}

#[test]
fn filtering_again_rejects_nothing() {
    let mut r = sample(vec![
        vec![bubble(0.0, 0.0, 5.0, true), bubble(50.0, 0.0, 5.0, true)],
        vec![bubble(1.0, 0.0, 5.0, true), bubble(90.0, 0.0, 5.0, true)],
        vec![bubble(2.0, 0.0, 5.0, true)],
    ]);
    assert_eq!(run_filter(&mut r, 0.6, 6.0, 0.5).n_rejected, 3);
    let once = flags(&r);
    let again = run_filter(&mut r, 0.6, 6.0, 0.5);
    assert_eq!((again.n_rejected, again.n_clusters), (0, 0));
    assert_eq!(flags(&r), once);
}

#[test]
fn threshold_of_zero_rejects_everything() {
    let mut r = sample(vec![vec![bubble(0.0, 0.0, 5.0, true)], vec![bubble(90.0, 0.0, 5.0, true)]]);
    let s = run_filter(&mut r, 0.0, 6.0, 0.5);
    assert_eq!((s.n_rejected, s.n_clusters), (2, 2));
}

#[test]
fn valid_count_does_not_go_below_zero() {
    let mut r = sample(vec![vec![bubble(0.0, 0.0, 5.0, true)]]);
    r.frames[0].num_valid = 0;
    let s = run_filter(&mut r, 1.0, 6.0, 0.5);
    assert_eq!(s.n_rejected, 1);
    assert_eq!(r.frames[0].num_valid, 0);
    assert_eq!(r.frames[0].num_rejected, 1);
}

#[test]
fn totals_and_diameters() {
    let r = sample(vec![
        vec![bubble(0.0, 0.0, 3.0, true), bubble(1.0, 0.0, 30.0, false)],
        vec![bubble(0.0, 0.0, 2.0, true)],
    ]);
    assert_eq!(r.total_bubbles(), 2);
    assert_eq!(r.total_rejected(), 1);
    assert_eq!(r.total_static(), 0);
    assert_eq!(r.diameters_valid(), vec![px(3.0), px(2.0)]);
}
