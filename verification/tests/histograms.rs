use bsnobs::exporter::export;
use bsnobs::exporter::export_csv_accepted;
use bsnobs::exporter::overlay_marks;
use bsnobs::exporter::paint_histogram;
use bsnobs::exporter::x_ticks;
use bsnobs::exporter::y_ticks;
use bsnobs::exporter::ExportOpts;
use bsnobs::histogram::bin_counts;
use bsnobs::histogram::global_diameter_range;
use bsnobs::histogram::global_y_max;
use bsnobs::histogram::scaled_value;
use bsnobs::histogram::sort_diameters;
use bsnobs::histogram::spread;
use bsnobs::histogram::HistAxisMode;
use bsnobs::histogram::Scaled;
use bsnobs::histogram::Slot;
use bsnobs::picture::blank_canvas;
use bsnobs::picture::Color;
use bsnobs::picture::Picture;
use bsnobs::scalar::Scalar;
use bsnobs::statistics::mean;
use bsnobs::statistics::standard_deviation;
use bsnobs::statistics::Arithmetic;
use bsnobs::types::AnalysisParameters;
use bsnobs::types::AnalysisResults;
use bsnobs::types::BubbleData;
use bsnobs::types::FrameResult;

fn um(x: f32) -> Scalar {
    Scalar::from_bits(x.to_bits())
}

fn ums(xs: &[f32]) -> Vec<Scalar> {
    xs.iter().map(|x| um(*x)).collect()
}

fn plain(s: Scalar) -> f32 {
    f32::from_bits(s.bits)
}

fn slot_of(s: Slot) -> usize {
    let bw = (plain(s.max) - plain(s.min)) / s.n_bins as f32;
    ((plain(s.diameter) - plain(s.min)) / bw) as usize
}

fn divided(s: Scaled) -> Scalar {
    um(s.count as f32 * s.factor as f32 / s.divisor as f32)
}

fn height_of(p: (Scalar, Scalar)) -> i32 {
    ((plain(p.0) / plain(p.1)).min(1.0) * 440.0) as i32
}

fn one_bubble(d: f32, valid: bool, is_static: bool) -> BubbleData {
    BubbleData {
        frame_name: "img".to_string(),
        bubble_id: 7,
        diameter_um: um(d),
        volume_um3: um(d * 2.0),
        area_px: um(0.0),
        centroid_x: um(d + 1.0),
        centroid_y: um(d + 2.0),
        is_valid: valid,
        is_static,
    }
}

fn results(name: &str, frames: Vec<Vec<BubbleData>>) -> AnalysisResults {
    AnalysisResults {
        sample_name: name.to_string(),
        parameters: AnalysisParameters::default(),
        frames: frames
            .into_iter()
            .map(|bubbles| {
                let n = bubbles.iter().filter(|b| b.is_valid).count();
                FrameResult { image_path: "p".to_string(), num_valid: n, num_rejected: bubbles.len() - n, bubbles }
            })
            .collect(),
    }
}

fn accepted(ds: &[f32]) -> Vec<BubbleData> {
    ds.iter().map(|d| one_bubble(*d, true, false)).collect()
}

#[test]
fn axis_captions() {
    assert_eq!(HistAxisMode::Counts.axis_label(), "count");
    assert_eq!(HistAxisMode::AvgPerImage.axis_label(), "avg / image");
    assert_eq!(HistAxisMode::Percent.axis_label(), "%");
}

#[test]
fn axis_numbers_have_decimals_where_they_are_small() {
    let avg = HistAxisMode::AvgPerImage;
    assert_eq!(avg.label_decimals(um(10.0)), 0);
    assert_eq!(avg.label_decimals(um(9.99)), 1);
    assert_eq!(avg.label_decimals(um(1.0)), 1);
    assert_eq!(avg.label_decimals(um(0.99)), 2);
    assert_eq!(HistAxisMode::Counts.label_decimals(um(0.5)), 0);
    assert_eq!(HistAxisMode::Percent.label_decimals(um(0.5)), 0);
    assert_eq!(HistAxisMode::Percent.label_suffix(), "%");
    assert_eq!(avg.label_suffix(), "");
}

#[test]
fn diameters_sorted_and_spread() {
    assert_eq!(sort_diameters(&ums(&[3.0, -1.0, 2.0, 3.0])), ums(&[-1.0, 2.0, 3.0, 3.0]));
    assert!(spread(&vec![]).is_none());
    let odd = spread(&ums(&[5.0, 1.0, 3.0])).unwrap();
    assert_eq!((odd.min, odd.median, odd.max), (um(1.0), um(3.0), um(5.0)));
    let even = spread(&ums(&[4.0, 1.0, 3.0, 2.0])).unwrap();
    assert_eq!((even.min, even.median, even.max), (um(1.0), um(3.0), um(4.0)));
}

#[test]
fn range_spans_all_samples() {
    let a = results("a", vec![accepted(&[3.0, 5.0]), vec![one_bubble(50.0, false, false)]]);
    let b = results("b", vec![accepted(&[1.5])]);
    assert_eq!(global_diameter_range(&vec![&a, &b]), (um(1.5), um(5.0)));
}

#[test]
fn range_of_one_diameter_or_none_is_zero_to_one() {
    let a = results("a", vec![accepted(&[3.0, 3.0])]);
    let b = results("b", vec![]);
    assert_eq!(global_diameter_range(&vec![&a]), (um(0.0), um(1.0)));
    assert_eq!(global_diameter_range(&vec![&b]), (um(0.0), um(1.0)));
    assert_eq!(global_diameter_range(&vec![]), (um(0.0), um(1.0)));
    let c = results("c", vec![accepted(&[1.0, f32::INFINITY])]);
    assert_eq!(global_diameter_range(&vec![&c]), (um(0.0), um(1.0)));
}

#[test]
fn diameters_fall_into_bins() {
    let f = |s: Slot| slot_of(s);
    let ds = ums(&[0.0, 0.9, 1.0, 2.5, 4.0, -0.1, 4.1]);
    assert_eq!(bin_counts(&ds, um(0.0), um(4.0), 4, &f), vec![2, 1, 1, 1]);
    assert_eq!(bin_counts(&ds, um(4.0), um(4.0), 4, &f), vec![0, 0, 0, 0]);
    assert_eq!(bin_counts(&ds, um(0.0), um(4.0), 0, &f), vec![]);
    let on_axis = bin_counts(&ds, um(0.0), um(4.0), 4, &f).iter().sum::<u32>();
    assert_eq!(on_axis, 5);
}

#[test]
fn counts_are_scaled() {
    assert_eq!(scaled_value(6, 24, 4, HistAxisMode::Counts), Scaled { count: 6, factor: 1, divisor: 1 });
    assert_eq!(divided(scaled_value(6, 24, 4, HistAxisMode::AvgPerImage)), um(1.5));
    assert_eq!(divided(scaled_value(6, 24, 0, HistAxisMode::AvgPerImage)), um(6.0));
    assert_eq!(divided(scaled_value(6, 24, 4, HistAxisMode::Percent)), um(25.0));
    assert_eq!(divided(scaled_value(6, 0, 4, HistAxisMode::Percent)), um(0.0));
}

#[test]
fn shared_axis_ends_at_the_tallest_bar() {
    let a = results("a", vec![accepted(&[1.0, 1.0, 1.0, 9.0]), vec![]]);
    let b = results("b", vec![accepted(&[1.0, 1.0])]);
    let (slot, eval) = (|s: Slot| slot_of(s), |s: Scaled| divided(s));
    let both = vec![&a, &b];
    assert_eq!(global_y_max(&both, um(1.0), um(9.0), HistAxisMode::Counts, &slot, &eval), um(3.0));
    assert_eq!(global_y_max(&both, um(1.0), um(9.0), HistAxisMode::AvgPerImage, &slot, &eval), um(2.0));
    assert_eq!(global_y_max(&both, um(1.0), um(9.0), HistAxisMode::Percent, &slot, &eval), um(100.0));
    assert_eq!(global_y_max(&vec![], um(1.0), um(9.0), HistAxisMode::Counts, &slot, &eval), um(1.0));
}

fn pixel(p: &Picture, x: u32, y: u32) -> (u8, u8, u8) {
    let i = 3 * (y as usize * p.width as usize + x as usize);
    (p.data[i], p.data[i + 1], p.data[i + 2])
}

const BAR: Color = Color { red: 60, green: 110, blue: 200 };

#[test]
fn bars_are_painted() {
    let mut img = blank_canvas();
    let ds = ums(&[0.0, 0.0, 30.0]);
    let plotted = paint_histogram(
        &mut img,
        &ds,
        1,
        um(0.0),
        um(30.0),
        um(2.0),
        HistAxisMode::Counts,
        BAR,
        &|s: Slot| slot_of(s),
        &|s: Scaled| divided(s),
        &|p: (Scalar, Scalar)| height_of(p),
    );
    assert!(plotted);
    let bar = (60, 110, 200);
    let white = (255, 255, 255);
    // The first bin is full, from column 71 to 95 and row 40 to 479.
    assert_eq!(pixel(&img, 70, 479), white);
    assert_eq!(pixel(&img, 71, 40), bar);
    assert_eq!(pixel(&img, 95, 479), bar);
    assert_eq!(pixel(&img, 96, 479), white);
    assert_eq!(pixel(&img, 71, 39), white);
    assert_eq!(pixel(&img, 71, 480), white);
    // The last one is half as high.
    assert_eq!(pixel(&img, 70 + 29 * 27 + 1, 260), bar);
    assert_eq!(pixel(&img, 70 + 29 * 27 + 1, 259), white);
    assert_eq!(img.data.chunks(3).filter(|c| **c == [60, 110, 200]).count(), 25 * (440 + 220));
}

#[test]
fn nothing_is_painted_without_an_axis() {
    let white = blank_canvas().data;
    for (x_max, y_max) in [(0.0, 1.0), (1.0, 0.0), (-1.0, 1.0)] {
        let mut img = blank_canvas();
        let plotted = paint_histogram(
            &mut img,
            &ums(&[0.5]),
            1,
            um(0.0),
            um(x_max),
            um(y_max),
            HistAxisMode::Counts,
            BAR,
            &|s: Slot| slot_of(s),
            &|s: Scaled| divided(s),
            &|p: (Scalar, Scalar)| height_of(p),
        );
        assert!(!plotted);
        assert!(img.data == white);
    }
}

#[test]
fn ticks_stand_where_the_fractions_of_the_plot_end() {
    let xs: Vec<i32> = (0..=6).map(|k| 70 + (k as f32 / 6.0 * 810.0) as i32).collect();
    let ys: Vec<i32> = (0..=5).map(|k| 480 - (k as f32 / 5.0 * 440.0) as i32).collect();
    assert_eq!(x_ticks(), xs);
    assert_eq!(y_ticks(), ys);
    assert_eq!(xs, vec![70, 205, 340, 475, 610, 745, 880]);
    assert_eq!(ys, vec![480, 392, 304, 216, 128, 40]);
}

#[test]
fn bars_stand_where_the_bins_end() {
    let bin_px = 810.0f32 / 30.0;
    for i in 0..30i32 {
        let x0 = 70 + (i as f32 * bin_px) as i32 + 1;
        let x1 = 70 + ((i + 1) as f32 * bin_px) as i32 - 1;
        assert_eq!(x0, 70 + 27 * i + 1);
        assert_eq!((x1 - x0).max(1), 25);
    }
}

fn calculate(a: Arithmetic) -> Scalar {
    um(match a {
        Arithmetic::Sum(x, y) => plain(x) + plain(y),
        Arithmetic::Share(x, n) => plain(x) / n as f32,
        Arithmetic::Deviation(x, y) => (plain(x) - plain(y)).powi(2),
        Arithmetic::Root(x) => plain(x).sqrt(),
        Arithmetic::Times(x, n) => plain(x) * n as f32,
        Arithmetic::Per(n, x) => n as f32 / plain(x),
    })
}

#[test]
fn mean_and_deviation() {
    let calc = |a: Arithmetic| calculate(a);
    let ds = ums(&[2.0, 4.0, 4.0, 4.0, 5.0, 5.0, 7.0, 9.0]);
    assert_eq!(mean(&calc, &ds), um(5.0));
    assert_eq!(standard_deviation(&calc, &ds), um(2.0));
    assert_eq!(standard_deviation(&calc, &ums(&[3.5])), um(0.0));
}

#[test]
fn exported_files_of_a_sample() {
    let r = results(
        "mb1",
        vec![
            vec![one_bubble(4.0, true, false), one_bubble(25.0, false, false)],
            vec![one_bubble(3.0, true, false), one_bubble(6.0, false, true), one_bubble(5.0, true, false)],
        ],
    );
    let files = export(&r, &|a: Arithmetic| calculate(a));
    assert_eq!(files.bubbles.file_name, "mb1_bubble_data_full.csv");
    let ds: Vec<f32> = files.bubbles.rows.iter().map(|b| plain(b.diameter_um)).collect();
    assert_eq!(ds, vec![4.0, 3.0, 5.0]);
    let first = &files.bubbles.rows[0];
    assert_eq!((first.frame.as_str(), first.bubble_id), ("img", 7));
    assert_eq!(
        (first.volume_um3, first.centroid_x_px, first.centroid_y_px),
        (um(8.0), um(5.0), um(6.0))
    );
    let statics = files.statics.unwrap();
    assert_eq!(statics.file_name, "mb1_static_rejects.csv");
    assert_eq!(statics.rows.len(), 1);
    assert_eq!((statics.rows[0].diameter_um, statics.rows[0].centroid_x_px), (um(6.0), um(7.0)));
    assert_eq!(files.summary_name, "mb1_summary.json");
    let s = files.summary;
    assert_eq!(s.sample, "mb1");
    assert_eq!((s.n_frames, s.n_bubbles_accepted, s.n_bubbles_rejected, s.n_static_rejected), (2, 3, 2, 1));
    assert_eq!((s.mean_diameter_um, s.std_diameter_um), (um(4.0), um((2.0f32 / 3.0).sqrt())));
    assert_eq!((s.min_diameter_um, s.median_diameter_um, s.max_diameter_um), (um(3.0), um(4.0), um(5.0)));
    assert_eq!((s.concentration_per_ul, s.total_sample_volume_ul), (um(3.0 / (0.00089 * 2.0)), um(0.00089 * 2.0)));
}

#[test]
fn summary_without_bubbles_or_volume_is_zero() {
    let mut r = results("empty", vec![vec![]]);
    r.parameters.sample_volume_per_frame_ul = um(0.0);
    let files = export(&r, &|a: Arithmetic| calculate(a));
    assert!(files.statics.is_none());
    let s = files.summary;
    let zero = um(0.0);
    assert_eq!((s.mean_diameter_um, s.median_diameter_um, s.std_diameter_um), (zero, zero, zero));
    assert_eq!((s.min_diameter_um, s.max_diameter_um, s.concentration_per_ul), (zero, zero, zero));
}

#[test]
fn accepted_table_of_an_export() {
    let r = results("mb2", vec![vec![one_bubble(4.0, true, false), one_bubble(25.0, false, false)]]);
    let t = export_csv_accepted(&r);
    assert_eq!(t.file_name, "mb2_bubble_data.csv");
    assert_eq!(t.rows.len(), 1);
    assert_eq!(t.rows.len(), r.total_bubbles());
}

fn opts(bubbles: bool, rejected: bool, statics: bool) -> ExportOpts {
    ExportOpts {
        csv: true,
        png: true,
        hist: true,
        show_bubbles: bubbles,
        show_rejected: rejected,
        show_static: statics,
    }
}

#[test]
fn overlay_marks_follow_the_switches() {
    let r = results(
        "o",
        vec![vec![one_bubble(1.0, true, false), one_bubble(2.0, false, false), one_bubble(3.0, false, true)]],
    );
    let frame = &r.frames[0];
    let all = overlay_marks(frame, &opts(true, true, true));
    let colours: Vec<(u8, u8, u8)> = all.iter().map(|m| (m.color.red, m.color.green, m.color.blue)).collect();
    assert_eq!(colours, vec![(0, 200, 0), (255, 23, 68), (255, 234, 0)]);
    assert_eq!(all.iter().map(|m| m.dashed).collect::<Vec<bool>>(), vec![false, false, true]);
    assert_eq!(all.iter().map(|m| m.labelled).collect::<Vec<bool>>(), vec![true, false, false]);
    let some = overlay_marks(frame, &opts(false, true, false));
    assert_eq!(some.iter().map(|m| m.bubble).collect::<Vec<usize>>(), vec![1]);
    assert!(overlay_marks(frame, &opts(false, false, false)).is_empty());
}
