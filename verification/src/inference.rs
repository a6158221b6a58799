//! From the raw output of the detection model to the bubbles of a frame.
use crate::calc::answered;
use crate::calc::ask;
use crate::calc::computes;
use crate::calc::result_of;
use crate::scalar::lemma_rank_orders_values;
use crate::scalar::Scalar;
use crate::sorting::before;
use crate::sorting::is_order;
use crate::sorting::models;
use crate::sorting::order_by_key;
use crate::sorting::order_exists;
use crate::sorting::order_of;
use crate::text::opt_text;
use crate::types::counts_agree;
use crate::types::lemma_take_step;
use crate::types::valid_count;
use crate::types::AnalysisParameters;
use crate::types::BubbleData;
use crate::types::BubbleView;
use crate::types::FrameResult;
use vstd::prelude::*;

verus! {

/// The side of the square image that the model takes.
pub const INPUT_SIZE: u32 = 640;

/// The grey that pads an image to the model's square.
pub const PAD_GREY: u8 = 114;

/// Where inference runs.
#[derive(Clone, Copy, Debug, PartialEq, Eq, Structural)]
pub enum Device {
    Auto,
    Cpu,
    CoreML,
}

/// A runtime that can execute the model.
#[derive(Clone, Copy, Debug, PartialEq, Eq, Structural)]
pub enum Provider {
    CoreML,
    Cpu,
}

/// The name of a device.
pub open spec fn device_label(d: Device) -> Seq<char> {
    match d {
        Device::Auto => "auto"@,
        Device::Cpu => "cpu"@,
        Device::CoreML => "coreml"@,
    }
}

impl Device {
    /// The name of the device.
    pub fn label(self) -> (r: &'static str)
        ensures
            r@ == device_label(self),
            self == Device::Auto ==> r@ == "auto"@,
            self == Device::Cpu ==> r@ == "cpu"@,
            self == Device::CoreML ==> r@ == "coreml"@,
    {
        match self {
            Device::Auto => "auto",
            Device::Cpu => "cpu",
            Device::CoreML => "coreml",
        }
    }

    /// The runtimes to try, in order.
    pub fn providers(self) -> (r: Vec<Provider>)
        ensures
            r@ == (match self {
                Device::Cpu => seq![Provider::Cpu],
                _ => seq![Provider::CoreML, Provider::Cpu],
            }),
    {
        let mut out: Vec<Provider> = Vec::new();
        match self {
            Device::Cpu => {},
            Device::CoreML | Device::Auto => {
                out.push(Provider::CoreML);
            },
        }
        out.push(Provider::Cpu);
        assert(out@ =~= match self {
            Device::Cpu => seq![Provider::Cpu],
            _ => seq![Provider::CoreML, Provider::Cpu],
        });
        out
    }
}

/// The device that a choice stands for on this machine.
pub open spec fn resolved(d: Device, on_macos: bool) -> Device {
    match d {
        Device::Auto => if on_macos {
            Device::CoreML
        } else {
            Device::Cpu
        },
        _ => d,
    }
}

/// The device that a choice stands for: the automatic choice is CoreML on macOS and
/// the processor elsewhere.
pub fn resolve_device(d: Device, on_macos: bool) -> (r: Device)
    ensures
        r == resolved(d, on_macos),
        d != Device::Auto ==> r == d,
        d == Device::Auto && on_macos ==> r == Device::CoreML,
        d == Device::Auto && !on_macos ==> r == Device::Cpu,
{
    match d {
        Device::Auto => {
            if on_macos {
                Device::CoreML
            } else {
                Device::Cpu
            }
        },
        other => other,
    }
}

/// A detection in the coordinates of the model's square.
#[derive(Clone, Copy, Debug)]
pub struct Det {
    pub cx: Scalar,
    pub cy: Scalar,
    pub w: Scalar,
    pub h: Scalar,
    pub conf: Scalar,
}

/// Column `i` of the model's output.
pub open spec fn column(preds: Seq<Seq<Scalar>>, i: int) -> Det {
    Det { cx: preds[0][i], cy: preds[1][i], w: preds[2][i], h: preds[3][i], conf: preds[4][i] }
}

/// The output has the five rows of a detection, with `n` columns each.
pub open spec fn has_columns(preds: Seq<Seq<Scalar>>, n: int) -> bool {
    &&& preds.len() >= 5
    &&& forall|r: int| 0 <= r < 5 ==> (#[trigger] preds[r]).len() == n
}

/// Those of the first `n` columns whose confidence reaches the threshold.
pub open spec fn candidates(preds: Seq<Seq<Scalar>>, n: int, conf_thr: Scalar) -> Seq<Det>
    decreases n,
{
    if n <= 0 {
        Seq::empty()
    } else if conf_thr.at_most(preds[4][n - 1]) {
        candidates(preds, n - 1, conf_thr).push(column(preds, n - 1))
    } else {
        candidates(preds, n - 1, conf_thr)
    }
}

/// Keys that put the most confident detection first.
pub open spec fn confidence_keys(dets: Seq<Det>) -> Seq<i64> {
    Seq::new(dets.len(), |i: int| (-dets[i].conf.rank_spec()) as i64)
}

/// The detections from the most to the least confident, equal ones in their given order.
pub open spec fn by_confidence(dets: Seq<Det>) -> Seq<Det> {
    Seq::new(dets.len(), |i: int| dets[order_of(confidence_keys(dets))[i] as int])
}

/// `d` overlaps none of `kept` by more than `iou_thr`.
pub open spec fn clear_of<F: Fn((Det, Det)) -> Scalar>(overlap: F, iou_thr: Scalar, d: Det, kept: Seq<Det>) -> bool {
    forall|j: int| 0 <= j < kept.len() ==> result_of(overlap, (d, #[trigger] kept[j])).at_most(iou_thr)
}

/// What remains of the first `n` detections when each is kept that is clear of those
/// kept before it, up to `max_det` of them.
pub open spec fn suppressed<F: Fn((Det, Det)) -> Scalar>(
    overlap: F,
    iou_thr: Scalar,
    max_det: int,
    dets: Seq<Det>,
    n: int,
) -> Seq<Det>
    decreases n,
{
    if n <= 0 {
        Seq::empty()
    } else {
        let kept = suppressed(overlap, iou_thr, max_det, dets, n - 1);
        if kept.len() < max_det && clear_of(overlap, iou_thr, dets[n - 1], kept) {
            kept.push(dets[n - 1])
        } else {
            kept
        }
    }
}

/// `overlap` was asked about `d` and each of `kept` up to the first overlap too large.
pub open spec fn consulted<F: Fn((Det, Det)) -> Scalar>(overlap: F, iou_thr: Scalar, d: Det, kept: Seq<Det>) -> bool {
    forall|j: int|
        0 <= j < kept.len() && clear_of(overlap, iou_thr, d, kept.take(j)) ==> answered(overlap, (d, #[trigger] kept[j]))
}

/// Whether `d` is clear of all of `kept`.
fn is_clear<F: Fn((Det, Det)) -> Scalar>(overlap: &F, iou_thr: Scalar, d: Det, kept: &Vec<Det>) -> (r: bool)
    requires
        computes(*overlap),
    ensures
        r == clear_of(*overlap, iou_thr, d, kept@),
        consulted(*overlap, iou_thr, d, kept@),
{
    let n: usize = kept.len();
    let mut j: usize = 0;
    while j < n
        invariant
            j <= n,
            n == kept@.len(),
            computes(*overlap),
            forall|i: int| 0 <= i < j ==> result_of(*overlap, (d, #[trigger] kept@[i])).at_most(iou_thr),
            forall|i: int| 0 <= i < j ==> answered(*overlap, (d, #[trigger] kept@[i])),
        decreases n - j,
    {
        let v = ask(overlap, (d, kept[j]));
        if !v.le(iou_thr) {
            assert forall|i: int|
                0 <= i < kept@.len() && clear_of(*overlap, iou_thr, d, kept@.take(i)) implies answered(
                *overlap,
                (d, #[trigger] kept@[i]),
            ) by {
                if i > j {
                    assert(kept@.take(i)[j as int] == kept@[j as int]);
                }
            }
            assert(!result_of(*overlap, (d, kept@[j as int])).at_most(iou_thr));
            return false;
        }
        j += 1;
    }
    true
}

/// The columns whose confidence reaches the threshold.
fn decode(preds: &Vec<Vec<Scalar>>, conf_thr: Scalar) -> (raw: Vec<Det>)
    requires
        has_columns(preds@.map_values(|r: Vec<Scalar>| r@), preds@[0]@.len() as int),
    ensures
        raw@ == candidates(preds@.map_values(|r: Vec<Scalar>| r@), preds@[0]@.len() as int, conf_thr),
{
    let ghost rows = preds@.map_values(|r: Vec<Scalar>| r@);
    assert(rows[0].len() == preds@[0]@.len());
    assert(rows[1].len() == preds@[1]@.len());
    assert(rows[2].len() == preds@[2]@.len());
    assert(rows[3].len() == preds@[3]@.len());
    assert(rows[4].len() == preds@[4]@.len());
    let n: usize = preds[0].len();
    let mut raw: Vec<Det> = Vec::new();
    let mut i: usize = 0;
    while i < n
        invariant
            i <= n,
            rows == preds@.map_values(|r: Vec<Scalar>| r@),
            preds@.len() >= 5,
            preds@[0]@.len() == n,
            preds@[1]@.len() == n,
            preds@[2]@.len() == n,
            preds@[3]@.len() == n,
            preds@[4]@.len() == n,
            raw@ == candidates(rows, i as int, conf_thr),
        decreases n - i,
    {
        let conf = preds[4][i];
        if conf_thr.le(conf) {
            raw.push(Det { cx: preds[0][i], cy: preds[1][i], w: preds[2][i], h: preds[3][i], conf });
        }
        i += 1;
    }
    raw
}

/// Sorts detections from the most to the least confident.
fn sort_by_confidence(raw: &Vec<Det>) -> (sorted: Vec<Det>)
    ensures
        sorted@ == by_confidence(raw@),
{
    let n: usize = raw.len();
    let mut keys: Vec<i64> = Vec::new();
    let mut i: usize = 0;
    while i < n
        invariant
            i <= n,
            n == raw@.len(),
            keys@ == confidence_keys(raw@).take(i as int),
        decreases n - i,
    {
        let rank: i64 = raw[i].conf.rank();
        keys.push(-rank);
        proof {
            lemma_take_step(confidence_keys(raw@), i as int);
            assert(keys@ =~= confidence_keys(raw@).take(i + 1));
        }
        i += 1;
    }
    assert(keys@ =~= confidence_keys(raw@));
    assert(models(keys@) =~= keys@);
    let order = order_by_key(&keys);
    let mut sorted: Vec<Det> = Vec::new();
    let mut k: usize = 0;
    while k < n
        invariant
            k <= n,
            n == raw@.len(),
            is_order(confidence_keys(raw@), order@),
            order@ == order_of(confidence_keys(raw@)),
            sorted@ == by_confidence(raw@).take(k as int),
        decreases n - k,
    {
        sorted.push(raw[order[k]]);
        proof {
            lemma_take_step(by_confidence(raw@), k as int);
            assert(sorted@ =~= by_confidence(raw@).take(k + 1));
        }
        k += 1;
    }
    assert(sorted@ =~= by_confidence(raw@));
    sorted
}

/// Picks the detections of a frame out of the model's output, `preds`, whose rows are
/// the centres, the sizes and the confidences.
///
/// Columns below `conf_thr` are dropped. The others are taken from the most to the
/// least confident, and each is kept whose overlap with every one kept so far is at
/// most `iou_thr`, until `max_det` are kept. `overlap` gives the overlap of two.
pub fn decode_and_nms<F: Fn((Det, Det)) -> Scalar>(
    preds: &Vec<Vec<Scalar>>,
    conf_thr: Scalar,
    iou_thr: Scalar,
    max_det: usize,
    overlap: F,
) -> (kept: Vec<Det>)
    requires
        computes(overlap),
        preds@.len() >= 5,
        has_columns(preds@.map_values(|r: Vec<Scalar>| r@), preds@[0]@.len() as int),
    ensures
        ({
            let dets = by_confidence(
                candidates(preds@.map_values(|r: Vec<Scalar>| r@), preds@[0]@.len() as int, conf_thr),
            );
            &&& kept@ == suppressed(overlap, iou_thr, max_det as int, dets, dets.len() as int)
            &&& forall|n: int|
                0 <= n < dets.len() && suppressed(overlap, iou_thr, max_det as int, dets, n).len() < max_det
                    ==> consulted(
                    overlap,
                    iou_thr,
                    #[trigger] dets[n],
                    suppressed(overlap, iou_thr, max_det as int, dets, n),
                )
        }),
        kept@.len() <= max_det,
        forall|k: int|
            0 <= k < kept@.len() ==> conf_thr.at_most((#[trigger] kept@[k]).conf) && exists|i: int|
                0 <= i < preds@[0]@.len() && kept@[k].cx == #[trigger] preds@[0]@[i] && kept@[k].cy == preds@[1]@[i]
                    && kept@[k].w == preds@[2]@[i] && kept@[k].h == preds@[3]@[i] && kept@[k].conf == preds@[4]@[i],
        forall|k: int, l: int|
            0 <= k < l < kept@.len() ==> (#[trigger] kept@[l]).conf.at_most((#[trigger] kept@[k]).conf) && result_of(
                overlap,
                (kept@[l], kept@[k]),
            ).at_most(iou_thr),
{
    let raw = decode(preds, conf_thr);
    let dets = sort_by_confidence(&raw);
    let total: usize = dets.len();
    let mut kept: Vec<Det> = Vec::new();
    let mut n: usize = 0;
    while n < total && kept.len() < max_det
        invariant
            n <= total,
            total == dets@.len(),
            computes(overlap),
            kept@ == suppressed(overlap, iou_thr, max_det as int, dets@, n as int),
            forall|m: int|
                0 <= m < n && suppressed(overlap, iou_thr, max_det as int, dets@, m).len() < max_det ==> consulted(
                    overlap,
                    iou_thr,
                    #[trigger] dets@[m],
                    suppressed(overlap, iou_thr, max_det as int, dets@, m),
                ),
        decreases total - n,
    {
        let d = dets[n];
        if is_clear(&overlap, iou_thr, d, &kept) {
            kept.push(d);
        }
        n += 1;
    }
    proof {
        if n < total {
            lemma_full(overlap, iou_thr, max_det as int, dets@, n as int, total as int);
            assert forall|m: int|
                0 <= m < total && suppressed(overlap, iou_thr, max_det as int, dets@, m).len() < max_det implies consulted(
                overlap,
                iou_thr,
                #[trigger] dets@[m],
                suppressed(overlap, iou_thr, max_det as int, dets@, m),
            ) by {
                if m >= n {
                    lemma_full(overlap, iou_thr, max_det as int, dets@, n as int, m);
                }
            }
        }
        let rows = preds@.map_values(|r: Vec<Scalar>| r@);
        lemma_kept_in_rows(overlap, iou_thr, max_det as int, preds@, rows, conf_thr, kept@);
    }
    kept
}

/// Once `max_det` are kept, nothing more is.
proof fn lemma_full<F: Fn((Det, Det)) -> Scalar>(
    overlap: F,
    iou_thr: Scalar,
    max_det: int,
    dets: Seq<Det>,
    n: int,
    m: int,
)
    requires
        0 <= n <= m,
        suppressed(overlap, iou_thr, max_det, dets, n).len() >= max_det,
    ensures
        suppressed(overlap, iou_thr, max_det, dets, m) == suppressed(overlap, iou_thr, max_det, dets, n),
    decreases m - n,
{
    if n < m {
        lemma_full(overlap, iou_thr, max_det, dets, n, m - 1);
    }
}

/// What is measured of a detection, in the coordinates of the source image.
#[derive(Clone, Copy, Debug)]
pub struct Measurement {
    pub centroid_x: Scalar,
    pub centroid_y: Scalar,
    pub area_px: Scalar,
    pub diameter_um: Scalar,
    pub volume_um3: Scalar,
}

/// The diameter lies within the limits of the analysis.
pub open spec fn within_limits(params: AnalysisParameters, diameter: Scalar) -> bool {
    params.min_diameter_um.at_most(diameter) && diameter.at_most(params.max_diameter_um)
}

/// The bubble made of the detection at position `i`: numbered from one, and accepted
/// where its diameter lies within the limits.
pub open spec fn bubble_of(name: Seq<char>, params: AnalysisParameters, m: Measurement, i: int) -> BubbleView {
    BubbleView {
        frame_name: name,
        bubble_id: (i + 1) as usize,
        diameter_um: m.diameter_um,
        volume_um3: m.volume_um3,
        area_px: m.area_px,
        centroid_x: m.centroid_x,
        centroid_y: m.centroid_y,
        is_valid: within_limits(params, m.diameter_um),
        is_static: false,
    }
}

/// The name given to the bubbles of an image: the stem of its file name.
pub open spec fn frame_name_of(stem: Option<Seq<char>>) -> Seq<char> {
    match stem {
        Some(s) => s,
        None => "frame"@,
    }
}

/// The bubbles that the detections of one image make.
pub open spec fn bubbles_of<M: Fn(Det) -> Measurement>(
    name: Seq<char>,
    params: AnalysisParameters,
    measure: M,
    dets: Seq<Det>,
) -> Seq<BubbleView> {
    Seq::new(dets.len(), |i: int| bubble_of(name, params, result_of(measure, dets[i]), i))
}

/// Makes the result of a frame out of its detections, which `measure` measures.
pub fn frame_from_detections<M: Fn(Det) -> Measurement>(
    image_path: String,
    stem: Option<String>,
    detections: &Vec<Det>,
    params: &AnalysisParameters,
    measure: M,
) -> (frame: FrameResult)
    requires
        computes(measure),
        detections@.len() < usize::MAX,
    ensures
        frame@.image_path == image_path@,
        frame@.bubbles == bubbles_of(
            frame_name_of(opt_text(stem)),
            *params,
            measure,
            detections@,
        ),
        counts_agree(frame@),
        forall|i: int| 0 <= i < detections@.len() ==> answered(measure, #[trigger] detections@[i]),
        frame.image_path@ == image_path@,
        frame.bubbles@.len() == detections@.len(),
        forall|i: int|
            #![trigger frame.bubbles@[i]]
            #![trigger detections@[i]]
            0 <= i < detections@.len() ==> {
                let b = frame.bubbles@[i];
                let m = result_of(measure, detections@[i]);
                &&& b.bubble_id == i + 1
                &&& stem is Some ==> b.frame_name@ == stem->Some_0@
                &&& stem is None ==> b.frame_name@ == "frame"@
                &&& b.centroid_x == m.centroid_x
                &&& b.centroid_y == m.centroid_y
                &&& b.area_px == m.area_px
                &&& b.diameter_um == m.diameter_um
                &&& b.volume_um3 == m.volume_um3
                &&& b.is_valid == (params.min_diameter_um.at_most(m.diameter_um) && m.diameter_um.at_most(
                    params.max_diameter_um,
                ))
                &&& !b.is_static
            },
{
    let ghost name = frame_name_of(opt_text(stem));
    let frame_name: String = match stem {
        Some(s) => s,
        None => "frame".to_owned(),
    };
    let n: usize = detections.len();
    let mut bubbles: Vec<BubbleData> = Vec::new();
    let mut num_valid: usize = 0;
    let mut num_rejected: usize = 0;
    let ghost all = bubbles_of(name, *params, measure, detections@);
    let mut i: usize = 0;
    while i < n
        invariant
            i <= n,
            n == detections@.len(),
            n < usize::MAX,
            computes(measure),
            frame_name@ == name,
            all == bubbles_of(name, *params, measure, detections@),
            bubbles@.map_values(|b: BubbleData| b@) == all.take(i as int),
            num_valid == valid_count(all.take(i as int)),
            num_rejected == i - num_valid,
            num_valid <= i,
            forall|k: int| 0 <= k < i ==> answered(measure, #[trigger] detections@[k]),
        decreases n - i,
    {
        let m = ask(&measure, detections[i]);
        let is_valid: bool = params.min_diameter_um.le(m.diameter_um) && m.diameter_um.le(params.max_diameter_um);
        if is_valid {
            num_valid += 1;
        } else {
            num_rejected += 1;
        }
        let ghost was = bubbles@;
        bubbles.push(
            BubbleData {
                frame_name: frame_name.clone(),
                bubble_id: i + 1,
                diameter_um: m.diameter_um,
                volume_um3: m.volume_um3,
                area_px: m.area_px,
                centroid_x: m.centroid_x,
                centroid_y: m.centroid_y,
                is_valid,
                is_static: false,
            },
        );
        proof {
            lemma_take_step(all, i as int);
            let now = bubbles@.map_values(|b: BubbleData| b@);
            assert(now[i as int] == all[i as int]);
            assert(now =~= all.take(i + 1));
        }
        i += 1;
    }
    assert(all.take(n as int) =~= all);
    proof {
        let shown = bubbles@.map_values(|b: BubbleData| b@);
        assert(shown.len() == bubbles@.len());
        assert forall|i: int| 0 <= i < n implies shown[i] == (#[trigger] bubbles@[i])@ by {}
        assert forall|i: int| 0 <= i < n implies shown[i] == bubble_of(
            name,
            *params,
            result_of(measure, #[trigger] detections@[i]),
            i,
        ) by {}
    }
    FrameResult { image_path, num_valid, num_rejected, bubbles }
}

/// The bubbles of one image, from the model's output for it.
pub fn predict_frame<F: Fn((Det, Det)) -> Scalar, M: Fn(Det) -> Measurement>(
    image_path: String,
    stem: Option<String>,
    preds: &Vec<Vec<Scalar>>,
    params: &AnalysisParameters,
    conf_thr: Scalar,
    iou_thr: Scalar,
    max_det: usize,
    overlap: F,
    measure: M,
) -> (frame: FrameResult)
    requires
        computes(overlap),
        computes(measure),
        preds@.len() >= 5,
        has_columns(preds@.map_values(|r: Vec<Scalar>| r@), preds@[0]@.len() as int),
        preds@[0]@.len() < usize::MAX,
    ensures
        ({
            let dets = by_confidence(
                candidates(preds@.map_values(|r: Vec<Scalar>| r@), preds@[0]@.len() as int, conf_thr),
            );
            let kept = suppressed(overlap, iou_thr, max_det as int, dets, dets.len() as int);
            &&& frame@.image_path == image_path@
            &&& frame@.bubbles == bubbles_of(
                frame_name_of(opt_text(stem)),
                *params,
                measure,
                kept,
            )
            &&& counts_agree(frame@)
            &&& forall|n: int|
                0 <= n < dets.len() && suppressed(overlap, iou_thr, max_det as int, dets, n).len() < max_det
                    ==> consulted(
                    overlap,
                    iou_thr,
                    #[trigger] dets[n],
                    suppressed(overlap, iou_thr, max_det as int, dets, n),
                )
            &&& forall|i: int| 0 <= i < kept.len() ==> answered(measure, #[trigger] kept[i])
        }),
        frame.image_path@ == image_path@,
        frame.bubbles@.len() <= max_det,
        forall|j: int|
            0 <= j < frame.bubbles@.len() ==> exists|i: int|
                {
                    let b = #[trigger] frame.bubbles@[j];
                    let m = result_of(
                        measure,
                        Det {
                            cx: #[trigger] preds@[0]@[i],
                            cy: preds@[1]@[i],
                            w: preds@[2]@[i],
                            h: preds@[3]@[i],
                            conf: preds@[4]@[i],
                        },
                    );
                    &&& 0 <= i < preds@[0]@.len()
                    &&& conf_thr.at_most(preds@[4]@[i])
                    &&& b.bubble_id == j + 1
                    &&& stem is Some ==> b.frame_name@ == stem->Some_0@
                    &&& stem is None ==> b.frame_name@ == "frame"@
                    &&& b.centroid_x == m.centroid_x
                    &&& b.centroid_y == m.centroid_y
                    &&& b.area_px == m.area_px
                    &&& b.diameter_um == m.diameter_um
                    &&& b.volume_um3 == m.volume_um3
                    &&& b.is_valid == (params.min_diameter_um.at_most(m.diameter_um) && m.diameter_um.at_most(
                        params.max_diameter_um,
                    ))
                    &&& !b.is_static
                },
{
    let kept = decode_and_nms(preds, conf_thr, iou_thr, max_det, overlap);
    proof {
        let rows = preds@.map_values(|r: Vec<Scalar>| r@);
        let n = preds@[0]@.len() as int;
        let dets = by_confidence(candidates(rows, n, conf_thr));
        lemma_candidates_bound(rows, n, conf_thr);
        lemma_suppressed_bound(overlap, iou_thr, max_det as int, dets, dets.len() as int);
    }
    frame_from_detections(image_path, stem, &kept, params, measure)
}

proof fn lemma_candidates_bound(preds: Seq<Seq<Scalar>>, n: int, conf_thr: Scalar)
    requires
        n >= 0,
    ensures
        candidates(preds, n, conf_thr).len() <= n,
    decreases n,
{
    if n > 0 {
        lemma_candidates_bound(preds, n - 1, conf_thr);
    }
}

proof fn lemma_suppressed_bound<F: Fn((Det, Det)) -> Scalar>(
    overlap: F,
    iou_thr: Scalar,
    max_det: int,
    dets: Seq<Det>,
    n: int,
)
    requires
        n >= 0,
    ensures
        suppressed(overlap, iou_thr, max_det, dets, n).len() <= n,
    decreases n,
{
    if n > 0 {
        lemma_suppressed_bound(overlap, iou_thr, max_det, dets, n - 1);
    }
}

/// No more detections are kept than allowed, and no two of them overlap more than allowed.
pub proof fn kept_detections_stay_apart<F: Fn((Det, Det)) -> Scalar>(
    overlap: F,
    iou_thr: Scalar,
    max_det: int,
    dets: Seq<Det>,
    n: int,
)
    requires
        0 <= n <= dets.len(),
        0 <= max_det,
    ensures
        suppressed(overlap, iou_thr, max_det, dets, n).len() <= max_det,
        forall|i: int, j: int|
            0 <= i < j < suppressed(overlap, iou_thr, max_det, dets, n).len() ==> result_of(
                overlap,
                (
                    #[trigger] suppressed(overlap, iou_thr, max_det, dets, n)[j],
                    #[trigger] suppressed(overlap, iou_thr, max_det, dets, n)[i],
                ),
            ).at_most(iou_thr),
    decreases n,
{
    if n > 0 {
        kept_detections_stay_apart(overlap, iou_thr, max_det, dets, n - 1);
    }
}

/// `d` overlaps the kept detection at `k` by more than allowed.
pub open spec fn overlaps<F: Fn((Det, Det)) -> Scalar>(
    overlap: F,
    iou_thr: Scalar,
    d: Det,
    kept: Seq<Det>,
    k: int,
) -> bool {
    0 <= k < kept.len() && !result_of(overlap, (d, kept[k])).at_most(iou_thr)
}

/// What is kept of the first `n` detections are some of these.
proof fn lemma_kept_come_before<F: Fn((Det, Det)) -> Scalar>(
    overlap: F,
    iou_thr: Scalar,
    max_det: int,
    dets: Seq<Det>,
    n: int,
    k: int,
)
    requires
        0 <= n <= dets.len(),
        0 <= k < suppressed(overlap, iou_thr, max_det, dets, n).len(),
    ensures
        exists|p: int| 0 <= p < n && #[trigger] dets[p] == suppressed(overlap, iou_thr, max_det, dets, n)[k],
    decreases n,
{
    let kept = suppressed(overlap, iou_thr, max_det, dets, n);
    let before = suppressed(overlap, iou_thr, max_det, dets, n - 1);
    if k < before.len() {
        lemma_kept_come_before(overlap, iou_thr, max_det, dets, n - 1, k);
        let p = choose|p: int| 0 <= p < n - 1 && #[trigger] dets[p] == before[k];
        assert(dets[p] == kept[k]);
    } else {
        assert(dets[n - 1] == kept[k]);
    }
}

/// What is kept of some detections is kept of more of them.
proof fn lemma_kept_stay<F: Fn((Det, Det)) -> Scalar>(
    overlap: F,
    iou_thr: Scalar,
    max_det: int,
    dets: Seq<Det>,
    m: int,
    n: int,
    k: int,
)
    requires
        0 <= m <= n,
        0 <= k < suppressed(overlap, iou_thr, max_det, dets, m).len(),
    ensures
        k < suppressed(overlap, iou_thr, max_det, dets, n).len(),
        suppressed(overlap, iou_thr, max_det, dets, n)[k] == suppressed(overlap, iou_thr, max_det, dets, m)[k],
    decreases n,
{
    if m < n {
        lemma_kept_stay(overlap, iou_thr, max_det, dets, m, n - 1, k);
    }
}

/// A detection is given up only for one that is kept, is at least as confident and overlaps
/// it too much, unless as many are kept as allowed.
pub proof fn dropped_detections_overlap<F: Fn((Det, Det)) -> Scalar>(
    overlap: F,
    iou_thr: Scalar,
    max_det: int,
    preds: Seq<Seq<Scalar>>,
    n: int,
    conf_thr: Scalar,
    m: int,
)
    requires
        0 <= m < candidates(preds, n, conf_thr).len() <= usize::MAX,
        ({
            let dets = by_confidence(candidates(preds, n, conf_thr));
            suppressed(overlap, iou_thr, max_det, dets, dets.len() as int).len() < max_det
        }),
    ensures
        ({
            let dets = by_confidence(candidates(preds, n, conf_thr));
            let kept = suppressed(overlap, iou_thr, max_det, dets, dets.len() as int);
            kept.contains(dets[m]) || exists|k: int|
                #[trigger] overlaps(overlap, iou_thr, dets[m], kept, k) && dets[m].conf.at_most(kept[k].conf)
        }),
{
    let dets = by_confidence(candidates(preds, n, conf_thr));
    let total = dets.len() as int;
    let kept = suppressed(overlap, iou_thr, max_det, dets, total);
    let before = suppressed(overlap, iou_thr, max_det, dets, m);
    let after = suppressed(overlap, iou_thr, max_det, dets, m + 1);
    if before.len() >= max_det {
        lemma_full(overlap, iou_thr, max_det, dets, m, total);
    }
    if clear_of(overlap, iou_thr, dets[m], before) {
        lemma_kept_stay(overlap, iou_thr, max_det, dets, m + 1, total, after.len() - 1);
        assert(kept[after.len() - 1] == dets[m]);
    } else {
        let k = choose|k: int|
            0 <= k < before.len() && !result_of(overlap, (dets[m], #[trigger] before[k])).at_most(iou_thr);
        lemma_kept_stay(overlap, iou_thr, max_det, dets, m, total, k);
        lemma_kept_come_before(overlap, iou_thr, max_det, dets, m, k);
        let p = choose|p: int| 0 <= p < m && #[trigger] dets[p] == before[k];
        confident_detections_come_first(preds, n, conf_thr, p, m);
        assert(overlaps(overlap, iou_thr, dets[m], kept, k));
    }
}

/// Detections are taken from the most to the least confident, and each is one of those
/// whose confidence reaches the threshold.
pub proof fn confident_detections_come_first(preds: Seq<Seq<Scalar>>, n: int, conf_thr: Scalar, i: int, j: int)
    requires
        0 <= i <= j < candidates(preds, n, conf_thr).len() <= usize::MAX,
    ensures
        ({
            let dets = by_confidence(candidates(preds, n, conf_thr));
            &&& dets[j].conf.at_most(dets[i].conf)
            &&& conf_thr.at_most(dets[j].conf)
            &&& candidates(preds, n, conf_thr).contains(dets[j])
        }),
{
    let raw = candidates(preds, n, conf_thr);
    let keys = confidence_keys(raw);
    order_exists(keys);
    let order = order_of(keys);
    assert(is_order(keys, order));
    let a = order[i] as int;
    let b = order[j] as int;
    assert(a < raw.len() && b < raw.len());
    if i < j {
        assert(before(keys, order[i], order[j]));
    }
    lemma_candidate_confidence(preds, n, conf_thr, a);
    lemma_candidate_confidence(preds, n, conf_thr, b);
    lemma_rank_orders_values(raw[a].conf, raw[b].conf);
    lemma_rank_orders_values(raw[b].conf, raw[a].conf);
    assert(raw[b] == by_confidence(raw)[j]);
}

proof fn lemma_candidate_confidence(preds: Seq<Seq<Scalar>>, n: int, conf_thr: Scalar, k: int)
    requires
        0 <= k < candidates(preds, n, conf_thr).len(),
    ensures
        conf_thr.at_most(candidates(preds, n, conf_thr)[k].conf),
    decreases n,
{
    if n > 0 {
        if k < candidates(preds, n - 1, conf_thr).len() {
            lemma_candidate_confidence(preds, n - 1, conf_thr, k);
        }
    }
}

/// The columns that reach the threshold, from the first to the last, and none besides.
proof fn lemma_candidate_columns(preds: Seq<Seq<Scalar>>, n: int, conf_thr: Scalar) -> (at: Seq<int>)
    requires
        0 <= n,
    ensures
        at.len() == candidates(preds, n, conf_thr).len(),
        forall|k: int|
            0 <= k < at.len() ==> 0 <= #[trigger] at[k] < n && conf_thr.at_most(preds[4][at[k]]) && candidates(
                preds,
                n,
                conf_thr,
            )[k] == (Det {
                cx: preds[0][at[k]],
                cy: preds[1][at[k]],
                w: preds[2][at[k]],
                h: preds[3][at[k]],
                conf: preds[4][at[k]],
            }),
        forall|k: int, l: int| 0 <= k < l < at.len() ==> #[trigger] at[k] < #[trigger] at[l],
        forall|i: int| 0 <= i < n && conf_thr.at_most(#[trigger] preds[4][i]) ==> at.contains(i),
    decreases n,
{
    if n <= 0 {
        Seq::empty()
    } else {
        let before = lemma_candidate_columns(preds, n - 1, conf_thr);
        if conf_thr.at_most(preds[4][n - 1]) {
            let at = before.push(n - 1);
            assert forall|i: int| 0 <= i < n && conf_thr.at_most(#[trigger] preds[4][i]) implies at.contains(i) by {
                if i < n - 1 {
                    assert(before.contains(i));
                    let k = before.index_of(i);
                    assert(at[k] == i);
                } else {
                    assert(at[at.len() - 1] == i);
                }
            }
            at
        } else {
            before
        }
    }
}

/// The places of the kept detections among the first `n`.
spec fn kept_at<F: Fn((Det, Det)) -> Scalar>(
    overlap: F,
    iou_thr: Scalar,
    max_det: int,
    dets: Seq<Det>,
    n: int,
) -> Seq<int>
    decreases n,
{
    if n <= 0 {
        Seq::empty()
    } else {
        let kept = suppressed(overlap, iou_thr, max_det, dets, n - 1);
        let at = kept_at(overlap, iou_thr, max_det, dets, n - 1);
        if kept.len() < max_det && clear_of(overlap, iou_thr, dets[n - 1], kept) {
            at.push(n - 1)
        } else {
            at
        }
    }
}

proof fn lemma_kept_places<F: Fn((Det, Det)) -> Scalar>(
    overlap: F,
    iou_thr: Scalar,
    max_det: int,
    dets: Seq<Det>,
    n: int,
)
    requires
        0 <= n <= dets.len(),
        0 <= max_det,
    ensures
        ({
            let at = kept_at(overlap, iou_thr, max_det, dets, n);
            let kept = suppressed(overlap, iou_thr, max_det, dets, n);
            &&& at.len() == kept.len()
            &&& at.len() <= max_det
            &&& forall|k: int| 0 <= k < at.len() ==> 0 <= #[trigger] at[k] < n && kept[k] == dets[at[k]]
            &&& forall|k: int, l: int| 0 <= k < l < at.len() ==> #[trigger] at[k] < #[trigger] at[l]
        }),
    decreases n,
{
    if n > 0 {
        lemma_kept_places(overlap, iou_thr, max_det, dets, n - 1);
    }
}

/// The kept detection at `k` of `at` comes before detection `m` and overlaps it too much.
spec fn gives_way<F: Fn((Det, Det)) -> Scalar>(
    overlap: F,
    iou_thr: Scalar,
    dets: Seq<Det>,
    at: Seq<int>,
    m: int,
    k: int,
) -> bool {
    0 <= k < at.len() && at[k] < m && !result_of(overlap, (dets[m], dets[at[k]])).at_most(iou_thr)
}

/// Why detection `m` is not kept.
proof fn lemma_given_up<F: Fn((Det, Det)) -> Scalar>(
    overlap: F,
    iou_thr: Scalar,
    max_det: int,
    dets: Seq<Det>,
    n: int,
    m: int,
)
    requires
        0 <= m < n <= dets.len(),
        0 <= max_det,
    ensures
        ({
            let at = kept_at(overlap, iou_thr, max_det, dets, n);
            ||| at.contains(m)
            ||| at.len() == max_det && forall|k: int| 0 <= k < at.len() ==> #[trigger] at[k] < m
            ||| exists|k: int| #[trigger] gives_way(overlap, iou_thr, dets, at, m, k)
        }),
    decreases n,
{
    let at = kept_at(overlap, iou_thr, max_det, dets, n);
    let before = kept_at(overlap, iou_thr, max_det, dets, n - 1);
    let kept = suppressed(overlap, iou_thr, max_det, dets, n - 1);
    lemma_kept_places(overlap, iou_thr, max_det, dets, n - 1);
    if m < n - 1 {
        lemma_given_up(overlap, iou_thr, max_det, dets, n - 1, m);
        if before.contains(m) {
            assert(at[before.index_of(m)] == m);
        } else if exists|k: int| #[trigger] gives_way(overlap, iou_thr, dets, before, m, k) {
            let k = choose|k: int| #[trigger] gives_way(overlap, iou_thr, dets, before, m, k);
            assert(gives_way(overlap, iou_thr, dets, at, m, k));
        }
    } else if kept.len() < max_det {
        if clear_of(overlap, iou_thr, dets[m], kept) {
            assert(at[at.len() - 1] == m);
        } else {
            let k = choose|k: int|
                0 <= k < kept.len() && !result_of(overlap, (dets[m], #[trigger] kept[k])).at_most(iou_thr);
            assert(kept[k] == dets[before[k]]);
            assert(gives_way(overlap, iou_thr, dets, at, m, k));
        }
    }
}

/// Of two detections in the order of confidence, the first is more confident, or as confident
/// and earlier in the output.
proof fn lemma_confidence_order(preds: Seq<Seq<Scalar>>, n: int, conf_thr: Scalar, from: Seq<int>, p: int, q: int)
    requires
        0 <= p < q < candidates(preds, n, conf_thr).len() <= usize::MAX,
        from.len() == candidates(preds, n, conf_thr).len(),
        forall|k: int|
            0 <= k < from.len() ==> candidates(preds, n, conf_thr)[k].conf == preds[4][#[trigger] from[k]] && conf_thr.at_most(
                preds[4][from[k]],
            ),
        forall|k: int, l: int| 0 <= k < l < from.len() ==> #[trigger] from[k] < #[trigger] from[l],
    ensures
        ({
            let order = order_of(confidence_keys(candidates(preds, n, conf_thr)));
            let i = from[order[p] as int];
            let j = from[order[q] as int];
            preds[4][j].less(preds[4][i]) || (preds[4][j].at_most(preds[4][i]) && i < j)
        }),
{
    let raw = candidates(preds, n, conf_thr);
    let keys = confidence_keys(raw);
    order_exists(keys);
    let order = order_of(keys);
    assert(is_order(keys, order));
    assert(before(keys, order[p], order[q]));
    let a = order[p] as int;
    let b = order[q] as int;
    assert(0 <= a < raw.len() && 0 <= b < raw.len());
    assert(raw[a].conf == preds[4][from[a]] && raw[b].conf == preds[4][from[b]]);
    lemma_rank_orders_values(raw[a].conf, raw[b].conf);
    lemma_rank_orders_values(raw[b].conf, raw[a].conf);
}

/// The kept detections are columns of the output, row by row, each column at most once and none
/// below the threshold. They stand from the most to the least confident, equally confident ones
/// in the order of the output, and no two overlap more than allowed.
pub proof fn kept_detections_are_columns<F: Fn((Det, Det)) -> Scalar>(
    overlap: F,
    iou_thr: Scalar,
    max_det: int,
    preds: Seq<Seq<Scalar>>,
    n: int,
    conf_thr: Scalar,
) -> (at: Seq<int>)
    requires
        0 <= n,
        candidates(preds, n, conf_thr).len() <= usize::MAX,
        0 <= max_det,
    ensures
        ({
            let dets = by_confidence(candidates(preds, n, conf_thr));
            let kept = suppressed(overlap, iou_thr, max_det, dets, dets.len() as int);
            &&& at.len() == kept.len()
            &&& kept.len() <= max_det
            &&& forall|k: int|
                0 <= k < at.len() ==> 0 <= #[trigger] at[k] < n && conf_thr.at_most(preds[4][at[k]]) && kept[k] == (Det {
                    cx: preds[0][at[k]],
                    cy: preds[1][at[k]],
                    w: preds[2][at[k]],
                    h: preds[3][at[k]],
                    conf: preds[4][at[k]],
                })
            &&& forall|k: int, l: int|
                0 <= k < l < at.len() ==> preds[4][#[trigger] at[l]].less(preds[4][#[trigger] at[k]]) || (
                preds[4][at[l]].at_most(preds[4][at[k]]) && at[k] < at[l])
            &&& forall|k: int, l: int|
                0 <= k < l < kept.len() ==> result_of(overlap, (#[trigger] kept[l], #[trigger] kept[k])).at_most(iou_thr)
        }),
{
    let raw = candidates(preds, n, conf_thr);
    let dets = by_confidence(raw);
    let total = dets.len() as int;
    let kept = suppressed(overlap, iou_thr, max_det, dets, total);
    let from = lemma_candidate_columns(preds, n, conf_thr);
    let places = kept_at(overlap, iou_thr, max_det, dets, total);
    lemma_kept_places(overlap, iou_thr, max_det, dets, total);
    let keys = confidence_keys(raw);
    order_exists(keys);
    let order = order_of(keys);
    assert(is_order(keys, order));
    let at = Seq::new(places.len(), |k: int| from[order[places[k]] as int]);
    assert forall|k: int| 0 <= k < at.len() implies 0 <= #[trigger] at[k] < n && conf_thr.at_most(preds[4][at[k]])
        && kept[k] == (Det {
        cx: preds[0][at[k]],
        cy: preds[1][at[k]],
        w: preds[2][at[k]],
        h: preds[3][at[k]],
        conf: preds[4][at[k]],
    }) by {
        let p = places[k];
        assert(0 <= p < total);
        assert(order[p] < raw.len());
        assert(kept[k] == dets[p] && dets[p] == raw[order[p] as int]);
        assert(at[k] == from[order[p] as int]);
    }
    assert forall|k: int, l: int| 0 <= k < l < at.len() implies preds[4][#[trigger] at[l]].less(
        preds[4][#[trigger] at[k]],
    ) || (preds[4][at[l]].at_most(preds[4][at[k]]) && at[k] < at[l]) by {
        let p = places[k];
        let q = places[l];
        assert(0 <= p < q < total);
        lemma_confidence_order(preds, n, conf_thr, from, p, q);
    }
    kept_detections_stay_apart(overlap, iou_thr, max_det, dets, total);
    at
}

/// The kept detections, in terms of the rows themselves.
proof fn lemma_kept_in_rows<F: Fn((Det, Det)) -> Scalar>(
    overlap: F,
    iou_thr: Scalar,
    max_det: int,
    preds: Seq<Vec<Scalar>>,
    rows: Seq<Seq<Scalar>>,
    conf_thr: Scalar,
    kept: Seq<Det>,
)
    requires
        preds.len() >= 5,
        rows == preds.map_values(|r: Vec<Scalar>| r@),
        has_columns(rows, preds[0]@.len() as int),
        candidates(rows, preds[0]@.len() as int, conf_thr).len() <= usize::MAX,
        0 <= max_det,
        ({
            let dets = by_confidence(candidates(rows, preds[0]@.len() as int, conf_thr));
            kept == suppressed(overlap, iou_thr, max_det, dets, dets.len() as int)
        }),
    ensures
        kept.len() <= max_det,
        forall|k: int|
            0 <= k < kept.len() ==> conf_thr.at_most((#[trigger] kept[k]).conf) && exists|i: int|
                0 <= i < preds[0]@.len() && kept[k].cx == #[trigger] preds[0]@[i] && kept[k].cy == preds[1]@[i]
                    && kept[k].w == preds[2]@[i] && kept[k].h == preds[3]@[i] && kept[k].conf == preds[4]@[i],
        forall|k: int, l: int|
            0 <= k < l < kept.len() ==> (#[trigger] kept[l]).conf.at_most((#[trigger] kept[k]).conf) && result_of(
                overlap,
                (kept[l], kept[k]),
            ).at_most(iou_thr),
{
    let width = preds[0]@.len() as int;
    let at = kept_detections_are_columns(overlap, iou_thr, max_det, rows, width, conf_thr);
    assert forall|k: int| 0 <= k < kept.len() implies conf_thr.at_most((#[trigger] kept[k]).conf) && exists|i: int|
        0 <= i < preds[0]@.len() && kept[k].cx == #[trigger] preds[0]@[i] && kept[k].cy == preds[1]@[i] && kept[k].w
            == preds[2]@[i] && kept[k].h == preds[3]@[i] && kept[k].conf == preds[4]@[i] by {
        let i = at[k];
        assert(0 <= i < width);
        assert(kept[k].cx == preds[0]@[i]);
        assert(kept[k].cy == preds[1]@[i]);
        assert(kept[k].w == preds[2]@[i]);
        assert(kept[k].h == preds[3]@[i]);
        assert(kept[k].conf == preds[4]@[i]);
    }
    assert forall|k: int, l: int| 0 <= k < l < kept.len() implies (#[trigger] kept[l]).conf.at_most(
        (#[trigger] kept[k]).conf,
    ) && result_of(overlap, (kept[l], kept[k])).at_most(iou_thr) by {
        assert(0 <= at[k] < width && 0 <= at[l] < width);
    }
}

/// A column that reaches the threshold is kept, or gives way to one that comes before it and
/// that it overlaps too much, or comes after as many kept ones as allowed. One column comes
/// before another where it is more confident, or as confident and earlier in the output.
pub proof fn confident_column_is_kept_or_gives_way<F: Fn((Det, Det)) -> Scalar>(
    overlap: F,
    iou_thr: Scalar,
    max_det: int,
    preds: Seq<Seq<Scalar>>,
    n: int,
    conf_thr: Scalar,
    i: int,
)
    requires
        0 <= i < n,
        candidates(preds, n, conf_thr).len() <= usize::MAX,
        0 <= max_det,
        conf_thr.at_most(preds[4][i]),
    ensures
        ({
            let d = Det { cx: preds[0][i], cy: preds[1][i], w: preds[2][i], h: preds[3][i], conf: preds[4][i] };
            let dets = by_confidence(candidates(preds, n, conf_thr));
            let kept = suppressed(overlap, iou_thr, max_det, dets, dets.len() as int);
            ||| kept.contains(d)
            ||| kept.len() == max_det && forall|k: int| 0 <= k < kept.len() ==> d.conf.at_most((#[trigger] kept[k]).conf)
            ||| exists|k: int|
                0 <= k < kept.len() && d.conf.at_most((#[trigger] kept[k]).conf) && !result_of(
                    overlap,
                    (d, kept[k]),
                ).at_most(iou_thr)
        }),
{
    let d = Det { cx: preds[0][i], cy: preds[1][i], w: preds[2][i], h: preds[3][i], conf: preds[4][i] };
    let raw = candidates(preds, n, conf_thr);
    let dets = by_confidence(raw);
    let total = dets.len() as int;
    let kept = suppressed(overlap, iou_thr, max_det, dets, total);
    let from = lemma_candidate_columns(preds, n, conf_thr);
    let places = kept_at(overlap, iou_thr, max_det, dets, total);
    lemma_kept_places(overlap, iou_thr, max_det, dets, total);
    let keys = confidence_keys(raw);
    order_exists(keys);
    let order = order_of(keys);
    assert(is_order(keys, order));
    assert(from.contains(i));
    let c = from.index_of(i);
    assert(raw[c] == d);
    assert(order.contains(c as usize));
    let m = order.index_of(c as usize);
    assert(dets[m] == d);
    lemma_given_up(overlap, iou_thr, max_det, dets, total, m);
    if places.contains(m) {
        assert(kept[places.index_of(m)] == d);
    } else if exists|k: int| #[trigger] gives_way(overlap, iou_thr, dets, places, m, k) {
        let k = choose|k: int| #[trigger] gives_way(overlap, iou_thr, dets, places, m, k);
        assert(kept[k] == dets[places[k]]);
        confident_detections_come_first(preds, n, conf_thr, places[k], m);
    } else {
        assert forall|k: int| 0 <= k < kept.len() implies d.conf.at_most((#[trigger] kept[k]).conf) by {
            assert(places[k] < m);
            confident_detections_come_first(preds, n, conf_thr, places[k], m);
        }
    }
}

/// A bubble of a new frame is accepted just where its diameter lies within the limits, and
/// none is static.
pub proof fn new_bubbles_are_judged_by_size<M: Fn(Det) -> Measurement>(
    name: Seq<char>,
    params: AnalysisParameters,
    measure: M,
    dets: Seq<Det>,
    i: int,
)
    requires
        0 <= i < dets.len(),
    ensures
        ({
            let b = bubbles_of(name, params, measure, dets)[i];
            &&& b.is_valid <==> params.min_diameter_um.at_most(b.diameter_um) && b.diameter_um.at_most(
                params.max_diameter_um,
            )
            &&& !b.is_static
        }),
{
}

} // verus!
