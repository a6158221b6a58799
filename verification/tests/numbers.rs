use bsnobs::inference::Device;
use bsnobs::scalar::Scalar;
use bsnobs::settings::SavedDefaults;
use bsnobs::static_filter::StaticFilterConfig;
use bsnobs::text::count_text;
use bsnobs::text::decimal_text;
use bsnobs::text::join_text;
use bsnobs::text::sort_texts;
use bsnobs::text::two_digit_text;
use bsnobs::types::AnalysisParameters;

fn num(x: f32) -> Scalar {
    Scalar::from_bits(x.to_bits())
}

#[test]
fn comparisons_are_those_of_the_numbers() {
    let xs: Vec<f32> = vec![
        f32::NEG_INFINITY,
        -3.5,
        -1.0,
        -f32::MIN_POSITIVE,
        -1.0e-45,
        -0.0,
        0.0,
        1.0e-45,
        f32::MIN_POSITIVE,
        0.5,
        1.0,
        1.0000001,
        20.0,
        f32::MAX,
        f32::INFINITY,
        f32::NAN,
        -f32::NAN,
    ];
    for a in xs.iter() {
        for b in xs.iter() {
            assert_eq!(num(*a).lt(num(*b)), a < b);
            assert_eq!(num(*a).le(num(*b)), a <= b);
        }
        assert_eq!(num(*a).is_nan(), a.is_nan());
        assert_eq!(num(*a).is_finite(), a.is_finite());
    }
}

#[test]
fn ranks_order_numbers() {
    assert!(num(-2.0).rank() < num(-1.0).rank());
    assert!(num(-1.0).rank() < num(0.0).rank());
    assert_eq!(num(-0.0).rank(), num(0.0).rank());
    assert!(num(1.0).rank() < num(2.0).rank());
}

#[test]
fn default_parameters() {
    let p = AnalysisParameters::default();
    assert_eq!(p.scale_um_per_pixel, num(0.0825));
    assert_eq!(p.sample_volume_per_frame_ul, num(0.00089));
    assert_eq!(p.min_diameter_um, num(0.5));
    assert_eq!(p.max_diameter_um, num(20.0));
    assert_eq!(p.bin_size_um, num(0.165));
}

#[test]
fn default_static_filter() {
    let c = StaticFilterConfig::default();
    assert_eq!(c.min_frame_frac, num(0.4));
    assert_eq!(c.tol_px, num(6.0));
    assert_eq!(c.diameter_tol_frac, num(0.5));
}

#[test]
fn default_settings() {
    let d = SavedDefaults::default();
    assert_eq!(d.device, Device::Auto);
    assert_eq!(d.conf, num(0.55));
    assert_eq!(d.iou, num(0.45));
    assert_eq!(d.max_det, 1000);
    assert!(d.reject_static);
}

#[test]
fn numbers_in_decimal() {
    assert_eq!(count_text(0), "0");
    assert_eq!(count_text(9), "9");
    assert_eq!(count_text(10), "10");
    assert_eq!(count_text(90210), "90210");
    assert_eq!(decimal_text(u128::MAX), u128::MAX.to_string());
    assert_eq!(two_digit_text(5), "05");
    assert_eq!(two_digit_text(55), "55");
    assert_eq!(two_digit_text(100), "100");
}

#[test]
fn joined_texts() {
    let none: Vec<String> = Vec::new();
    assert_eq!(join_text(&none, "; "), "");
    assert_eq!(join_text(&vec!["a".to_string()], "; "), "a");
    assert_eq!(join_text(&vec!["a".to_string(), "b".to_string(), "c".to_string()], "; "), "a; b; c");
}

#[test]
fn sorted_texts_are_in_order() {
    let given: Vec<String> = vec!["b10", "b", "a", "B", "", "b1", "ü", "b"].into_iter().map(|t| t.to_string()).collect();
    let mut expected = given.clone();
    expected.sort();
    assert_eq!(sort_texts(given), expected);
}
