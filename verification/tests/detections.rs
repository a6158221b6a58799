use bsnobs::inference::decode_and_nms;
use bsnobs::inference::frame_from_detections;
use bsnobs::inference::predict_frame;
use bsnobs::inference::resolve_device;
use bsnobs::inference::Det;
use bsnobs::inference::Device;
use bsnobs::inference::Measurement;
use bsnobs::inference::Provider;
use bsnobs::scalar::Scalar;
use bsnobs::types::AnalysisParameters;

fn val(x: f32) -> Scalar {
    Scalar::from_bits(x.to_bits())
}

fn of(s: Scalar) -> f32 {
    f32::from_bits(s.bits)
}

fn overlap_of(a: Det, b: Det) -> Scalar {
    let (ax1, ay1) = (of(a.cx) - of(a.w) / 2.0, of(a.cy) - of(a.h) / 2.0);
    let (ax2, ay2) = (of(a.cx) + of(a.w) / 2.0, of(a.cy) + of(a.h) / 2.0);
    let (bx1, by1) = (of(b.cx) - of(b.w) / 2.0, of(b.cy) - of(b.h) / 2.0);
    let (bx2, by2) = (of(b.cx) + of(b.w) / 2.0, of(b.cy) + of(b.h) / 2.0);
    let iw = (ax2.min(bx2) - ax1.max(bx1)).max(0.0);
    let ih = (ay2.min(by2) - ay1.max(by1)).max(0.0);
    let inter = iw * ih;
    let union = of(a.w) * of(a.h) + of(b.w) * of(b.h) - inter;
    val(if union <= 0.0 { 0.0 } else { inter / union })
}

/// Rows of centres, sizes and confidences for squares of side ten on a line.
fn output(cols: &[(f32, f32)]) -> Vec<Vec<Scalar>> {
    let mut rows: Vec<Vec<Scalar>> = vec![Vec::new(), Vec::new(), Vec::new(), Vec::new(), Vec::new()];
    for (x, conf) in cols {
        rows[0].push(val(*x));
        rows[1].push(val(50.0));
        rows[2].push(val(10.0));
        rows[3].push(val(10.0));
        rows[4].push(val(*conf));
    }
    rows
}

fn kept(cols: &[(f32, f32)], conf: f32, iou: f32, max_det: usize) -> Vec<(f32, f32)> {
    decode_and_nms(&output(cols), val(conf), val(iou), max_det, |p: (Det, Det)| overlap_of(p.0, p.1))
        .into_iter()
        .map(|d| (of(d.cx), of(d.conf)))
        .collect()
}

#[test]
fn confidence_threshold_is_inclusive() {
    assert_eq!(kept(&[(10.0, 0.5), (40.0, 0.49), (80.0, 0.51)], 0.5, 0.45, 10), vec![(80.0, 0.51), (10.0, 0.5)]);
}

#[test]
fn overlapping_detection_gives_way_to_the_more_confident() {
    assert_eq!(kept(&[(10.0, 0.6), (11.0, 0.9), (40.0, 0.7)], 0.5, 0.45, 10), vec![(11.0, 0.9), (40.0, 0.7)]);
}

#[test]
fn overlap_at_the_threshold_is_kept() {
    // Two squares that share half of their area overlap by a third.
    let third = 50.0f32 / 150.0;
    assert_eq!(kept(&[(10.0, 0.9), (15.0, 0.8)], 0.5, third, 10).len(), 2);
    assert_eq!(kept(&[(10.0, 0.9), (15.0, 0.8)], 0.5, 0.3, 10).len(), 1);
}

#[test]
fn equally_confident_detections_keep_their_order() {
    assert_eq!(
        kept(&[(70.0, 0.6), (10.0, 0.6), (40.0, 0.6)], 0.5, 0.45, 10),
        vec![(70.0, 0.6), (10.0, 0.6), (40.0, 0.6)]
    );
}

#[test]
fn no_more_than_the_limit_is_kept() {
    assert_eq!(kept(&[(10.0, 0.6), (40.0, 0.9), (80.0, 0.7)], 0.5, 0.45, 2), vec![(40.0, 0.9), (80.0, 0.7)]);
    assert_eq!(kept(&[(10.0, 0.6)], 0.5, 0.45, 0), vec![]);
}

#[test]
fn confidence_that_is_no_number_is_dropped() {
    assert_eq!(kept(&[(10.0, f32::NAN), (40.0, 0.9)], 0.5, 0.45, 10), vec![(40.0, 0.9)]);
}

#[test]
fn empty_output_has_no_detections() {
    assert_eq!(kept(&[], 0.5, 0.45, 10), vec![]);
}

fn measured(d: Det) -> Measurement {
    let r = of(d.w) / 2.0;
    Measurement {
        centroid_x: d.cx,
        centroid_y: d.cy,
        area_px: val(3.0 * r * r),
        diameter_um: d.w,
        volume_um3: val(r * r * r),
    }
}

fn det(x: f32, w: f32, conf: f32) -> Det {
    Det { cx: val(x), cy: val(0.0), w: val(w), h: val(w), conf: val(conf) }
}

#[test]
fn bubbles_are_numbered_and_judged_by_size() {
    let dets = vec![det(1.0, 0.5, 0.9), det(2.0, 20.0, 0.8), det(3.0, 0.49, 0.7), det(4.0, 20.5, 0.6)];
    let frame = frame_from_detections(
        "/x/img_01.tif".to_string(),
        Some("img_01".to_string()),
        &dets,
        &AnalysisParameters::default(),
        |d: Det| measured(d),
    );
    assert_eq!(frame.image_path, "/x/img_01.tif");
    assert_eq!(frame.num_valid, 2);
    assert_eq!(frame.num_rejected, 2);
    let valid: Vec<bool> = frame.bubbles.iter().map(|b| b.is_valid).collect();
    assert_eq!(valid, vec![true, true, false, false]);
    let ids: Vec<usize> = frame.bubbles.iter().map(|b| b.bubble_id).collect();
    assert_eq!(ids, vec![1, 2, 3, 4]);
    assert!(frame.bubbles.iter().all(|b| b.frame_name == "img_01" && !b.is_static));
    assert_eq!(frame.bubbles[1].volume_um3, val(1000.0));
    assert_eq!(frame.bubbles[1].area_px, val(300.0));
    assert_eq!(frame.bubbles[2].centroid_x, val(3.0));
}

#[test]
fn frame_without_a_stem_is_named_frame() {
    let frame = frame_from_detections(
        "..".to_string(),
        None,
        &vec![det(1.0, 5.0, 0.9)],
        &AnalysisParameters::default(),
        |d: Det| measured(d),
    );
    assert_eq!(frame.bubbles[0].frame_name, "frame");
}

#[test]
fn predicted_frame_holds_the_kept_detections() {
    let frame = predict_frame(
        "a.png".to_string(),
        Some("a".to_string()),
        &output(&[(10.0, 0.6), (11.0, 0.9), (40.0, 0.7), (60.0, 0.1)]),
        &AnalysisParameters::default(),
        val(0.55),
        val(0.45),
        1000,
        |p: (Det, Det)| overlap_of(p.0, p.1),
        |d: Det| measured(d),
    );
    let xs: Vec<f32> = frame.bubbles.iter().map(|b| of(b.centroid_x)).collect();
    assert_eq!(xs, vec![11.0, 40.0]);
    assert_eq!(frame.num_valid, 2);
    assert_eq!(frame.num_rejected, 0);
}

#[test]
fn device_names() {
    assert_eq!(Device::Auto.label(), "auto");
    assert_eq!(Device::Cpu.label(), "cpu");
    assert_eq!(Device::CoreML.label(), "coreml");
}

#[test]
fn automatic_device_depends_on_the_system() {
    assert_eq!(resolve_device(Device::Auto, true), Device::CoreML);
    assert_eq!(resolve_device(Device::Auto, false), Device::Cpu);
    assert_eq!(resolve_device(Device::Cpu, true), Device::Cpu);
    assert_eq!(resolve_device(Device::CoreML, false), Device::CoreML);
}

#[test]
fn runtimes_of_devices() {
    assert_eq!(Device::Cpu.providers(), vec![Provider::Cpu]);
    assert_eq!(Device::Auto.providers(), vec![Provider::CoreML, Provider::Cpu]);
    assert_eq!(Device::CoreML.providers(), vec![Provider::CoreML, Provider::Cpu]);
}
