//! Looking at frames and correcting what was detected.
use crate::app::AppState;
use crate::app::AppView;
use crate::calc::answered;
use crate::calc::ask;
use crate::calc::computes;
use crate::calc::result_of;
use crate::decoding::can_convert;
use crate::decoding::decode_image;
use crate::decoding::dimensions;
use crate::decoding::image_dims;
use crate::decoding::is_convertible;
use crate::decoding::may_decode;
use crate::decoding::rgba_bytes;
use crate::decoding::rgba_pixels;
use crate::picture::Color;
use crate::results::focused;
use crate::results::focused_frames;
use crate::results::result_views;
use crate::results::HistMode;
use crate::results::ResultEntry;
use crate::results::ResultView;
use crate::scalar::lemma_rank_orders_values;
use crate::scalar::ONE_BITS;
use crate::scalar::Scalar;
use crate::static_filter::spot_of;
use crate::static_filter::Spot;
use crate::text::count_text;
use crate::text::decimal;
use crate::text::opt_text;
use crate::types::all_counts_agree;
use crate::types::counts_agree;
use crate::types::counts_pick_by_marks;
use crate::types::lemma_valid_count_bound;
use crate::types::valid_count;
use crate::types::BubbleView;
use crate::types::FrameResult;
use crate::types::FrameView;
use crate::types::ResultsView;
use image::DynamicImage;
use vstd::prelude::*;
use vstd::string::StringExecFns;

verus! {

/// Which picture is shown: of which result and frame, and whether in black and white.
#[derive(Clone, Copy, Debug, PartialEq, Eq, Structural)]
pub struct TextureKey {
    pub result: usize,
    pub frame: usize,
    pub bw: bool,
}

/// What is shown and how.
#[derive(Clone, Copy, Debug)]
pub struct ViewerState {
    pub current_frame: usize,
    pub texture_for: Option<TextureKey>,
    pub zoom: Scalar,
    pub pan_x: Scalar,
    pub pan_y: Scalar,
    pub bw_mode: bool,
    pub show_overlays: bool,
    pub show_bubbles: bool,
    pub show_rejected: bool,
    pub show_static: bool,
    pub hist_mode: HistMode,
    pub edit_mode: bool,
    pub hovered_bubble: Option<usize>,
    pub suppress_hover_bubble: Option<usize>,
}

/// How to take back a correction.
#[derive(Debug)]
pub enum UndoAction {
    ToggleBubble { result_idx: usize, frame_idx: usize, bubble_idx: usize, was_valid: bool, was_static: bool },
    DiscardFrame { result_idx: usize, frame_idx: usize, frame: FrameResult },
}

/// How to take back a correction, with frames by their views.
pub enum UndoView {
    ToggleBubble { result_idx: usize, frame_idx: usize, bubble_idx: usize, was_valid: bool, was_static: bool },
    DiscardFrame { result_idx: usize, frame_idx: usize, frame: FrameView },
}

impl View for UndoAction {
    type V = UndoView;

    open spec fn view(&self) -> UndoView {
        match *self {
            UndoAction::ToggleBubble { result_idx, frame_idx, bubble_idx, was_valid, was_static } => {
                UndoView::ToggleBubble { result_idx, frame_idx, bubble_idx, was_valid, was_static }
            },
            UndoAction::DiscardFrame { result_idx, frame_idx, frame } => {
                UndoView::DiscardFrame { result_idx, frame_idx, frame: frame@ }
            },
        }
    }
}

/// Corrections by their views.
pub open spec fn undo_views(stack: Seq<UndoAction>) -> Seq<UndoView> {
    stack.map_values(|a: UndoAction| a@)
}

/// The frame that is shown is one of the result in focus, where that has any.
pub open spec fn in_range(s: AppView) -> bool {
    focused_frames(s) > 0 ==> s.viewer.current_frame < focused_frames(s)
}

/// The picture that the state calls for.
pub open spec fn wanted_key(s: AppView) -> TextureKey {
    TextureKey { result: s.focused_result.unwrap(), frame: s.viewer.current_frame, bw: s.viewer.bw_mode }
}

/// Another picture has to be loaded than the one that is shown.
pub open spec fn wants_texture(s: AppView) -> bool {
    focused_frames(s) > 0 && s.viewer.texture_for != Some(wanted_key(s))
}

impl AppState {
    /// Whether the frame that is shown is one of the result in focus.
    pub fn is_in_range(&self) -> (r: bool)
        ensures
            r == in_range(self@),
            r == (focused_frames(self@) == 0 || self.viewer.current_frame < focused_frames(self@)),
    {
        let n: usize = self.frame_count();
        n == 0 || self.viewer.current_frame < n
    }

    /// The picture to load in place of the one that is shown, and its path.
    pub fn texture_wanted(&self) -> (r: Option<(TextureKey, String)>)
        requires
            in_range(self@),
        ensures
            r is Some <==> wants_texture(self@),
            r matches Some((key, path)) ==> {
                &&& key == wanted_key(self@)
                &&& path@ == focused(self@).unwrap().results.frames[self@.viewer.current_frame as int].image_path
                &&& self.focused_result == Some(key.result)
                &&& key.frame == self.viewer.current_frame
                &&& key.bw == self.viewer.bw_mode
                &&& key.result < self.results_list@.len()
                &&& key.frame < self.results_list@[key.result as int].results.frames@.len()
                &&& path@ == self.results_list@[key.result as int].results.frames@[key.frame as int].image_path@
            },
            r is None && (self.focused_result matches Some(i) && i < self.results_list@.len()
                && self.results_list@[i as int].results.frames@.len() > 0) ==> self.viewer.texture_for == Some(
                TextureKey {
                    result: self.focused_result.unwrap(),
                    frame: self.viewer.current_frame,
                    bw: self.viewer.bw_mode,
                },
            ),
    {
        match self.focused_result {
            Some(i) => {
                if i >= self.results_list.len() {
                    return None;
                }
                assert(self@.results_list[i as int] == self.results_list@[i as int]@);
                let results = &self.results_list[i].results;
                assert(results@.frames.len() == results.frames.len());
                if results.frames.len() == 0 {
                    return None;
                }
                let key = TextureKey { result: i, frame: self.viewer.current_frame, bw: self.viewer.bw_mode };
                let shown: bool = match self.viewer.texture_for {
                    Some(k) => k == key,
                    None => false,
                };
                if shown {
                    return None;
                }
                assert(results@.frames[self.viewer.current_frame as int]
                    == results.frames@[self.viewer.current_frame as int]@);
                Some((key, results.frames[self.viewer.current_frame].image_path.clone()))
            },
            None => None,
        }
    }

    /// Notes which picture is shown now.
    pub fn texture_loaded(&mut self, key: TextureKey)
        ensures
            final(self)@ == (AppView {
                viewer: ViewerState { texture_for: Some(key), ..old(self)@.viewer },
                ..old(self)@
            }),
    {
        self.viewer.texture_for = Some(key);
    }
}

/// The colour of pixel `q`.
pub open spec fn colour_at(rgba: Seq<u8>, q: int) -> (u8, u8, u8) {
    (rgba[4 * q], rgba[4 * q + 1], rgba[4 * q + 2])
}

/// A byte of the picture that is shown: in black and white the three colours of a pixel
/// take its brightness.
pub open spec fn shown_byte<L: Fn((u8, u8, u8)) -> u8>(rgba: Seq<u8>, bw: bool, luma: L, i: int) -> u8 {
    if bw && i % 4 != 3 {
        result_of(luma, colour_at(rgba, i / 4))
    } else {
        rgba[i]
    }
}

/// The picture as it is shown, in colour or in black and white. `luma` gives the
/// brightness of a colour.
pub fn shown_pixels<L: Fn((u8, u8, u8)) -> u8>(rgba: &Vec<u8>, bw: bool, luma: L) -> (r: Vec<u8>)
    requires
        rgba@.len() % 4 == 0,
        computes(luma),
    ensures
        r@ == Seq::new(rgba@.len(), |i: int| shown_byte(rgba@, bw, luma, i)),
        bw ==> forall|q: int| 0 <= q < rgba@.len() / 4 ==> answered(luma, #[trigger] colour_at(rgba@, q)),
{
    let n: usize = rgba.len() / 4;
    let ghost all = Seq::new(rgba@.len(), |i: int| shown_byte(rgba@, bw, luma, i));
    let mut out: Vec<u8> = Vec::new();
    let mut q: usize = 0;
    while q < n
        invariant
            q <= n,
            4 * n == rgba@.len(),
            computes(luma),
            all == Seq::new(rgba@.len(), |i: int| shown_byte(rgba@, bw, luma, i)),
            out@ == all.take(4 * q),
            bw ==> forall|k: int| 0 <= k < q ==> answered(luma, #[trigger] colour_at(rgba@, k)),
        decreases n - q,
    {
        assert(4 * n == rgba.len());
        let p: usize = 4 * q;
        let red: u8 = rgba[p];
        let green: u8 = rgba[p + 1];
        let blue: u8 = rgba[p + 2];
        let alpha: u8 = rgba[p + 3];
        assert(colour_at(rgba@, q as int) == (red, green, blue));
        let (r, g, b): (u8, u8, u8) = if bw {
            let l: u8 = ask(&luma, (red, green, blue));
            (l, l, l)
        } else {
            (red, green, blue)
        };
        out.push(r);
        out.push(g);
        out.push(b);
        out.push(alpha);
        proof {
            assert(all[p as int] == r && all[p + 1] == g && all[p + 2] == b && all[p + 3] == alpha);
            assert(out@ =~= all.take(p + 4));
        }
        q += 1;
    }
    assert(out@ =~= all);
    out
}

/// A picture ready to be shown, four bytes to a pixel.
#[derive(Debug)]
pub struct ShownFrame {
    pub width: u32,
    pub height: u32,
    pub pixels: Vec<u8>,
}

/// The image can be shown: it was decoded, and its bytes fit into memory.
pub open spec fn can_show(decoded: Option<DynamicImage>) -> bool {
    decoded matches Some(img) && can_convert(image_dims(img))
}

/// What is shown of what decoding gave: every pixel of the image, in colour or in black and
/// white, or nothing where it cannot be shown.
pub open spec fn shown_as<L: Fn((u8, u8, u8)) -> u8>(
    decoded: Option<DynamicImage>,
    bw: bool,
    luma: L,
    r: Option<ShownFrame>,
) -> bool {
    if can_show(decoded) {
        let img = decoded.unwrap();
        let rgba = rgba_pixels(img);
        &&& r matches Some(f)
        &&& (f.width, f.height) == image_dims(img)
        &&& f.pixels@ == Seq::new(rgba.len(), |i: int| shown_byte(rgba, bw, luma, i))
        &&& f.pixels@.len() == 4 * (f.width * f.height)
        &&& bw ==> forall|q: int| 0 <= q < rgba.len() / 4 ==> answered(luma, #[trigger] colour_at(rgba, q))
    } else {
        r is None
    }
}

/// The picture to show of what decoding gave.
pub fn shown_image<L: Fn((u8, u8, u8)) -> u8>(decoded: Option<DynamicImage>, bw: bool, luma: L) -> (r: Option<
    ShownFrame,
>)
    requires
        computes(luma),
    ensures
        shown_as(decoded, bw, luma, r),
{
    match decoded {
        None => None,
        Some(img) => {
            let dims = dimensions(&img);
            if !is_convertible(dims) {
                return None;
            }
            let rgba = rgba_bytes(&img);
            Some(ShownFrame { width: dims.0, height: dims.1, pixels: shown_pixels(&rgba, bw, luma) })
        },
    }
}

/// The picture to show of the content of an image file with this extension, where it can be
/// decoded. `luma` gives the brightness of a colour.
pub fn shown_frame<L: Fn((u8, u8, u8)) -> u8>(
    data: &Vec<u8>,
    extension: &Option<String>,
    bw: bool,
    luma: L,
) -> (r: Option<ShownFrame>)
    requires
        computes(luma),
    ensures
        exists|decoded: Option<DynamicImage>|
            may_decode(data@, opt_text(*extension), decoded) && #[trigger] shown_as(decoded, bw, luma, r),
{
    let decoded = decode_image(data, extension);
    let ghost found = decoded;
    let r = shown_image(decoded, bw, luma);
    assert(shown_as(found, bw, luma, r));
    r
}

/// The frame with its counts made those of its bubbles.
pub open spec fn recounted(f: FrameView) -> FrameView {
    FrameView {
        num_valid: valid_count(f.bubbles) as usize,
        num_rejected: (f.bubbles.len() - valid_count(f.bubbles)) as usize,
        ..f
    }
}

/// The frame with one bubble marked, where it has such a bubble, and counted anew.
pub open spec fn marked(f: FrameView, b: int, valid: bool, is_static: bool) -> FrameView {
    if 0 <= b < f.bubbles.len() {
        recounted(
            FrameView {
                bubbles: f.bubbles.update(b, BubbleView { is_valid: valid, is_static, ..f.bubbles[b] }),
                ..f
            },
        )
    } else {
        recounted(f)
    }
}

/// The results with the frames of one of them replaced.
pub open spec fn with_frames(list: Seq<ResultView>, r: int, frames: Seq<FrameView>) -> Seq<ResultView> {
    list.update(r, ResultView { results: ResultsView { frames, ..list[r].results }, ..list[r] })
}

/// The results with one frame replaced.
pub open spec fn with_frame(list: Seq<ResultView>, r: int, f: int, frame: FrameView) -> Seq<ResultView> {
    with_frames(list, r, list[r].results.frames.update(f, frame))
}

/// The results with one bubble marked, where there is such a result and frame.
pub open spec fn list_marked(
    list: Seq<ResultView>,
    r: int,
    f: int,
    b: int,
    valid: bool,
    is_static: bool,
) -> Seq<ResultView> {
    if 0 <= r < list.len() && 0 <= f < list[r].results.frames.len() {
        with_frame(list, r, f, marked(list[r].results.frames[f], b, valid, is_static))
    } else {
        list
    }
}

/// The results with a frame put back, at its place or at the end, where there is such a
/// result.
pub open spec fn list_reinserted(list: Seq<ResultView>, r: int, f: int, frame: FrameView) -> Seq<ResultView> {
    if 0 <= r < list.len() {
        let frames = list[r].results.frames;
        with_frames(
            list,
            r,
            frames.insert(
                if f <= frames.len() {
                    f
                } else {
                    frames.len() as int
                },
                frame,
            ),
        )
    } else {
        list
    }
}

/// The state once a correction is taken back. A bubble gets its marks again, a frame its
/// place, and if its result is in focus it is shown.
pub open spec fn taken_back(s: AppView, action: UndoView) -> AppView {
    match action {
        UndoView::ToggleBubble { result_idx, frame_idx, bubble_idx, was_valid, was_static } => AppView {
            results_list: list_marked(
                s.results_list,
                result_idx as int,
                frame_idx as int,
                bubble_idx as int,
                was_valid,
                was_static,
            ),
            ..s
        },
        UndoView::DiscardFrame { result_idx, frame_idx, frame } => AppView {
            results_list: list_reinserted(s.results_list, result_idx as int, frame_idx as int, frame),
            viewer: if result_idx < s.results_list.len() && s.focused_result == Some(result_idx) {
                ViewerState { current_frame: frame_idx, texture_for: None, ..s.viewer }
            } else {
                s.viewer
            },
            ..s
        },
    }
}

/// The state once the last correction is taken back.
pub open spec fn undone(s: AppView) -> AppView {
    if s.undo_stack.len() == 0 {
        s
    } else {
        taken_back(AppView { undo_stack: s.undo_stack.drop_last(), ..s }, s.undo_stack.last())
    }
}

/// Marks one bubble of a result, where it has such a frame.
fn mark_in_result(entry: &mut ResultEntry, frame_idx: usize, bubble_idx: usize, valid: bool, is_static: bool)
    ensures
        final(entry)@ == (if frame_idx < old(entry)@.results.frames.len() {
            ResultView {
                results: ResultsView {
                    frames: old(entry)@.results.frames.update(
                        frame_idx as int,
                        marked(
                            old(entry)@.results.frames[frame_idx as int],
                            bubble_idx as int,
                            valid,
                            is_static,
                        ),
                    ),
                    ..old(entry)@.results
                },
                ..old(entry)@
            }
        } else {
            old(entry)@
        }),
{
    let ghost start = entry@;
    assert(start.results.frames.len() == entry.results.frames.len());
    if frame_idx < entry.results.frames.len() {
        assert(start.results.frames[frame_idx as int] == entry.results.frames@[frame_idx as int]@);
        let frame = &mut entry.results.frames[frame_idx];
        set_marks(frame, bubble_idx, valid, is_static);
        assert(entry@.results.frames =~= start.results.frames.update(
            frame_idx as int,
            marked(start.results.frames[frame_idx as int], bubble_idx as int, valid, is_static),
        ));
    }
}

/// Puts a frame back into a result, at its place or at the end.
fn reinsert(entry: &mut ResultEntry, frame_idx: usize, frame: FrameResult)
    ensures
        final(entry)@ == (ResultView {
            results: ResultsView {
                frames: old(entry)@.results.frames.insert(
                    if frame_idx <= old(entry)@.results.frames.len() {
                        frame_idx as int
                    } else {
                        old(entry)@.results.frames.len() as int
                    },
                    frame@,
                ),
                ..old(entry)@.results
            },
            ..old(entry)@
        }),
{
    let ghost start = entry@;
    assert(start.results.frames.len() == entry.results.frames.len());
    let n: usize = entry.results.frames.len();
    let at: usize = if frame_idx <= n {
        frame_idx
    } else {
        n
    };
    let ghost view = frame@;
    entry.results.frames.insert(at, frame);
    assert(entry@.results.frames =~= start.results.frames.insert(at as int, view));
}

/// Marks one bubble in a list of results, where there is such a result and frame.
fn mark_in_list(
    list: &mut Vec<ResultEntry>,
    result_idx: usize,
    frame_idx: usize,
    bubble_idx: usize,
    valid: bool,
    is_static: bool,
)
    ensures
        result_views(final(list)@) == list_marked(
            result_views(old(list)@),
            result_idx as int,
            frame_idx as int,
            bubble_idx as int,
            valid,
            is_static,
        ),
{
    let ghost start = list@;
    if result_idx < list.len() {
        assert(result_views(start)[result_idx as int] == start[result_idx as int]@);
        let entry = &mut list[result_idx];
        mark_in_result(entry, frame_idx, bubble_idx, valid, is_static);
        assert(result_views(list@) =~= result_views(start).update(result_idx as int, list@[result_idx as int]@));
        assert(result_views(list@) =~= list_marked(
            result_views(start),
            result_idx as int,
            frame_idx as int,
            bubble_idx as int,
            valid,
            is_static,
        ));
    }
}

/// Puts a frame back into a list of results, where there is such a result.
fn reinsert_in_list(list: &mut Vec<ResultEntry>, result_idx: usize, frame_idx: usize, frame: FrameResult)
    ensures
        result_views(final(list)@) == list_reinserted(
            result_views(old(list)@),
            result_idx as int,
            frame_idx as int,
            frame@,
        ),
{
    let ghost start = list@;
    let ghost view = frame@;
    if result_idx < list.len() {
        assert(result_views(start)[result_idx as int] == start[result_idx as int]@);
        let entry = &mut list[result_idx];
        reinsert(entry, frame_idx, frame);
        assert(result_views(list@) =~= result_views(start).update(result_idx as int, list@[result_idx as int]@));
        assert(result_views(list@) =~= list_reinserted(
            result_views(start),
            result_idx as int,
            frame_idx as int,
            view,
        ));
    }
}

/// Removes a frame from a list of results.
fn remove_from_list(list: &mut Vec<ResultEntry>, result_idx: usize, frame_idx: usize) -> (removed: FrameResult)
    requires
        result_idx < old(list)@.len(),
        frame_idx < old(list)@[result_idx as int].results.frames@.len(),
    ensures
        ({
            let frames = result_views(old(list)@)[result_idx as int].results.frames;
            &&& removed@ == frames[frame_idx as int]
            &&& result_views(final(list)@) == with_frames(
                result_views(old(list)@),
                result_idx as int,
                frames.remove(frame_idx as int),
            )
        }),
{
    let ghost start = list@;
    assert(result_views(start)[result_idx as int] == start[result_idx as int]@);
    let entry = &mut list[result_idx];
    let ghost frames = entry@.results.frames;
    assert(frames[frame_idx as int] == entry.results.frames@[frame_idx as int]@);
    let removed = entry.results.frames.remove(frame_idx);
    assert(entry@.results.frames =~= frames.remove(frame_idx as int));
    assert(result_views(list@) =~= with_frames(
        result_views(start),
        result_idx as int,
        frames.remove(frame_idx as int),
    ));
    removed
}

impl AppState {
    /// Takes the last correction back.
    pub fn undo(&mut self)
        ensures
            final(self)@ == undone(old(self)@),
    {
        let ghost start = self@;
        let ghost stack = self.undo_stack@;
        match self.undo_stack.pop() {
            None => {
                assert(self@.undo_stack =~= start.undo_stack);
            },
            Some(action) => {
                assert(undo_views(stack).last() == action@);
                assert(self@.undo_stack =~= start.undo_stack.drop_last());
                self.take_back(action);
            },
        }
    }

    /// Takes one correction back.
    fn take_back(&mut self, action: UndoAction)
        ensures
            final(self)@ == taken_back(old(self)@, action@),
    {
        match action {
            UndoAction::ToggleBubble { result_idx, frame_idx, bubble_idx, was_valid, was_static } => {
                mark_in_list(&mut self.results_list, result_idx, frame_idx, bubble_idx, was_valid, was_static);
            },
            UndoAction::DiscardFrame { result_idx, frame_idx, frame } => {
                let in_focus: bool = match self.focused_result {
                    Some(i) => i == result_idx && i < self.results_list.len(),
                    None => false,
                };
                reinsert_in_list(&mut self.results_list, result_idx, frame_idx, frame);
                if in_focus {
                    self.viewer.current_frame = frame_idx;
                    self.viewer.texture_for = None;
                }
            },
        }
    }
}

/// Marks one bubble of a frame, where it has such a bubble, and counts anew.
fn set_marks(frame: &mut FrameResult, b: usize, valid: bool, is_static: bool)
    ensures
        final(frame)@ == marked(old(frame)@, b as int, valid, is_static),
{
    let ghost start = frame@;
    assert(start.bubbles.len() == frame.bubbles.len());
    if b < frame.bubbles.len() {
        assert(start.bubbles[b as int] == frame.bubbles@[b as int]@);
        let bubble = &mut frame.bubbles[b];
        bubble.is_valid = valid;
        bubble.is_static = is_static;
        assert(frame@.bubbles =~= start.bubbles.update(
            b as int,
            BubbleView { is_valid: valid, is_static, ..start.bubbles[b as int] },
        ));
    }
    frame.recount();
}

/// The bubble as a click leaves it: an accepted one rejected, any other accepted and no
/// longer static.
pub open spec fn clicked_marks(b: BubbleView) -> (bool, bool) {
    if b.is_valid {
        (false, b.is_static)
    } else {
        (true, false)
    }
}

/// The state after a click on the frame that is shown: the bubble under the pointer
/// changes sides, which can be taken back, and is no longer pointed out.
pub open spec fn clicked(s: AppView) -> AppView {
    match s.viewer.hovered_bubble {
        None => s,
        Some(bi) => {
            let r = s.focused_result.unwrap() as int;
            let fi = s.viewer.current_frame;
            let frame = s.results_list[r].results.frames[fi as int];
            let t = AppView {
                viewer: ViewerState { suppress_hover_bubble: Some(bi), hovered_bubble: None, ..s.viewer },
                ..s
            };
            if bi < frame.bubbles.len() {
                let b = frame.bubbles[bi as int];
                AppView {
                    results_list: with_frame(
                        s.results_list,
                        r,
                        fi as int,
                        marked(frame, bi as int, clicked_marks(b).0, clicked_marks(b).1),
                    ),
                    undo_stack: s.undo_stack.push(
                        UndoView::ToggleBubble {
                            result_idx: r as usize,
                            frame_idx: fi,
                            bubble_idx: bi,
                            was_valid: b.is_valid,
                            was_static: b.is_static,
                        },
                    ),
                    ..t
                }
            } else {
                AppView { results_list: with_frame(s.results_list, r, fi as int, recounted(frame)), ..t }
            }
        },
    }
}

/// The state once the frame that is shown is removed: the next one is shown, or the last.
pub open spec fn discarded(s: AppView) -> AppView {
    match s.focused_result {
        None => s,
        Some(r) => {
            let fi = s.viewer.current_frame;
            if r < s.results_list.len() && fi < s.results_list[r as int].results.frames.len() {
                let frames = s.results_list[r as int].results.frames;
                let left = frames.remove(fi as int);
                AppView {
                    results_list: with_frames(s.results_list, r as int, left),
                    undo_stack: s.undo_stack.push(
                        UndoView::DiscardFrame { result_idx: r, frame_idx: fi, frame: frames[fi as int] },
                    ),
                    viewer: ViewerState {
                        current_frame: if left.len() == 0 {
                            0
                        } else if fi < left.len() {
                            fi
                        } else {
                            (left.len() - 1) as usize
                        },
                        texture_for: None,
                        ..s.viewer
                    },
                    ..s
                }
            } else {
                s
            }
        },
    }
}

/// The state with a bubble that was clicked no longer pointed out.
#[verifier::opaque]
spec fn left_alone(s: AppView, bi: usize) -> AppView {
    AppView { viewer: ViewerState { suppress_hover_bubble: Some(bi), hovered_bubble: None, ..s.viewer }, ..s }
}

/// The state with a bubble turned as a click does, where the frame has such a bubble.
#[verifier::opaque]
spec fn turned(s: AppView, r: usize, fi: usize, bi: usize) -> AppView {
    let frame = s.results_list[r as int].results.frames[fi as int];
    let b = frame.bubbles[bi as int];
    AppView {
        results_list: with_frame(
            s.results_list,
            r as int,
            fi as int,
            if bi < frame.bubbles.len() {
                marked(frame, bi as int, clicked_marks(b).0, clicked_marks(b).1)
            } else {
                recounted(frame)
            },
        ),
        ..s
    }
}

/// The marks of a bubble, where the frame has such a bubble.
#[verifier::opaque]
spec fn marks_at(s: AppView, r: usize, fi: usize, bi: usize) -> Option<(bool, bool)> {
    let frame = s.results_list[r as int].results.frames[fi as int];
    let b = frame.bubbles[bi as int];
    if bi < frame.bubbles.len() {
        Some((b.is_valid, b.is_static))
    } else {
        None
    }
}

/// The state with what was done to a bubble noted, where something was.
#[verifier::opaque]
spec fn noted(s: AppView, r: usize, fi: usize, bi: usize, was: Option<(bool, bool)>) -> AppView {
    AppView {
        undo_stack: match was {
            Some((was_valid, was_static)) => s.undo_stack.push(
                UndoView::ToggleBubble { result_idx: r, frame_idx: fi, bubble_idx: bi, was_valid, was_static },
            ),
            None => s.undo_stack,
        },
        ..s
    }
}

proof fn lemma_turned(s: AppView, r: usize, bi: usize)
    requires
        s.focused_result == Some(r),
        s.viewer.hovered_bubble == Some(bi),
    ensures
        ({
            let t = turned(s, r, s.viewer.current_frame, bi);
            t == (AppView { results_list: clicked(s).results_list, ..s })
        }),
{
    reveal(turned);
}

proof fn lemma_click_noted(s: AppView, r: usize, bi: usize)
    requires
        s.focused_result == Some(r),
        s.viewer.hovered_bubble == Some(bi),
    ensures
        ({
            let fi = s.viewer.current_frame;
            clicked(s).undo_stack == noted(s, r, fi, bi, marks_at(s, r, fi, bi)).undo_stack
        }),
{
    reveal(noted);
    reveal(marks_at);
}

proof fn lemma_click_changes(s: AppView, r: usize, bi: usize)
    requires
        s.focused_result == Some(r),
        s.viewer.hovered_bubble == Some(bi),
    ensures
        clicked(s) == (AppView {
            results_list: clicked(s).results_list,
            undo_stack: clicked(s).undo_stack,
            viewer: ViewerState { suppress_hover_bubble: Some(bi), hovered_bubble: None, ..s.viewer },
            ..s
        }),
{
}

proof fn lemma_noted_and_left(
    s: AppView,
    list: Seq<ResultView>,
    r: usize,
    fi: usize,
    bi: usize,
    was: Option<(bool, bool)>,
)
    ensures
        left_alone(noted(AppView { results_list: list, ..s }, r, fi, bi, was), bi) == (AppView {
            results_list: list,
            undo_stack: noted(s, r, fi, bi, was).undo_stack,
            viewer: ViewerState { suppress_hover_bubble: Some(bi), hovered_bubble: None, ..s.viewer },
            ..s
        }),
{
    reveal(left_alone);
    reveal(noted);
}

/// A click turns the bubble, notes how to take that back, and points the bubble no longer out.
proof fn lemma_clicked(s: AppView, r: usize, bi: usize, after: AppView)
    requires
        s.focused_result == Some(r),
        s.viewer.hovered_bubble == Some(bi),
        ({
            let fi = s.viewer.current_frame;
            after == left_alone(noted(turned(s, r, fi, bi), r, fi, bi, marks_at(s, r, fi, bi)), bi)
        }),
    ensures
        after == clicked(s),
{
    let fi = s.viewer.current_frame;
    lemma_turned(s, r, bi);
    lemma_click_noted(s, r, bi);
    lemma_click_changes(s, r, bi);
    lemma_noted_and_left(s, clicked(s).results_list, r, fi, bi, marks_at(s, r, fi, bi));
}

/// Turns one bubble in a list of results as a click does, where the frame has such a bubble, and
/// gives the marks that it had.
fn turn_bubble(list: &mut Vec<ResultEntry>, r: usize, fi: usize, bi: usize) -> (was: Option<(bool, bool)>)
    requires
        r < old(list)@.len(),
        fi < old(list)@[r as int].results.frames@.len(),
    ensures
        ({
            let views = result_views(old(list)@);
            let frame = views[r as int].results.frames[fi as int];
            let b = frame.bubbles[bi as int];
            &&& was == (if bi < frame.bubbles.len() {
                Some((b.is_valid, b.is_static))
            } else {
                None
            })
            &&& result_views(final(list)@) == with_frame(
                views,
                r as int,
                fi as int,
                if bi < frame.bubbles.len() {
                    marked(frame, bi as int, clicked_marks(b).0, clicked_marks(b).1)
                } else {
                    recounted(frame)
                },
            )
        }),
{
    let ghost views = result_views(list@);
    proof {
        assert(views[r as int] == list@[r as int]@);
        assert(views[r as int].results.frames[fi as int] == list@[r as int].results.frames@[fi as int]@);
    }
    let frame = &list[r].results.frames[fi];
    assert(frame@.bubbles.len() == frame.bubbles.len());
    if bi < frame.bubbles.len() {
        assert(frame@.bubbles[bi as int] == frame.bubbles@[bi as int]@);
        let was_valid: bool = frame.bubbles[bi].is_valid;
        let was_static: bool = frame.bubbles[bi].is_static;
        mark_in_list(list, r, fi, bi, !was_valid, was_valid && was_static);
        Some((was_valid, was_static))
    } else {
        mark_in_list(list, r, fi, bi, false, false);
        None
    }
}

impl AppState {
    /// Notes how to take back what was done to a bubble, where something was.
    fn note_toggle(&mut self, result_idx: usize, frame_idx: usize, bubble_idx: usize, was: Option<(bool, bool)>)
        ensures
            final(self)@ == noted(old(self)@, result_idx, frame_idx, bubble_idx, was),
    {
        reveal(noted);
        if let Some((was_valid, was_static)) = was {
            let ghost stack = self.undo_stack@;
            self.undo_stack.push(
                UndoAction::ToggleBubble { result_idx, frame_idx, bubble_idx, was_valid, was_static },
            );
            assert(undo_views(self.undo_stack@) =~= undo_views(stack).push(self.undo_stack@.last()@));
        }
    }

    /// Points the bubble that was clicked no longer out.
    fn leave_bubble(&mut self, bi: usize)
        ensures
            final(self)@ == left_alone(old(self)@, bi),
    {
        reveal(left_alone);
        self.viewer.suppress_hover_bubble = Some(bi);
        self.viewer.hovered_bubble = None;
    }

    /// Turns one bubble as a click does, where the frame has such a bubble, and gives the marks
    /// that it had.
    fn turn(&mut self, r: usize, fi: usize, bi: usize) -> (was: Option<(bool, bool)>)
        requires
            r < old(self).results_list@.len(),
            fi < old(self).results_list@[r as int].results.frames@.len(),
        ensures
            was == marks_at(old(self)@, r, fi, bi),
            final(self)@ == turned(old(self)@, r, fi, bi),
    {
        reveal(turned);
        reveal(marks_at);
        turn_bubble(&mut self.results_list, r, fi, bi)
    }

    /// Takes in a click on bubble `bi` of the frame that is shown, of result `r`.
    fn click_on(&mut self, r: usize, bi: usize)
        requires
            old(self)@.focused_result == Some(r),
            old(self)@.viewer.hovered_bubble == Some(bi),
            r < old(self).results_list@.len(),
            old(self).viewer.current_frame < old(self).results_list@[r as int].results.frames@.len(),
        ensures
            final(self)@ == clicked(old(self)@),
    {
        let ghost start = self@;
        let fi: usize = self.viewer.current_frame;
        let was = self.turn(r, fi, bi);
        self.note_toggle(r, fi, bi, was);
        self.leave_bubble(bi);
        proof {
            lemma_clicked(start, r, bi, self@);
        }
    }

    /// Takes in a click on the frame that is shown.
    pub fn click_bubble(&mut self)
        requires
            focused_frames(old(self)@) > 0,
            in_range(old(self)@),
        ensures
            final(self)@ == clicked(old(self)@),
    {
        match (self.viewer.hovered_bubble, self.focused_result) {
            (Some(bi), Some(r)) => {
                assert(self@.results_list[r as int] == self.results_list@[r as int]@);
                self.click_on(r, bi);
            },
            _ => {},
        }
    }

    /// Removes the frame that is shown from its result.
    pub fn discard_frame(&mut self)
        ensures
            final(self)@ == discarded(old(self)@),
    {
        if let Some(r) = self.focused_result {
            if r < self.results_list.len() {
                let ghost start = self@;
                let ghost stack = self.undo_stack@;
                assert(start.results_list[r as int] == self.results_list@[r as int]@);
                let fi: usize = self.viewer.current_frame;
                let n: usize = self.results_list[r].results.frames.len();
                assert(start.results_list[r as int].results.frames.len() == n);
                if fi < n {
                    let removed = remove_from_list(&mut self.results_list, r, fi);
                    self.undo_stack.push(UndoAction::DiscardFrame { result_idx: r, frame_idx: fi, frame: removed });
                    assert(undo_views(self.undo_stack@) =~= undo_views(stack).push(self.undo_stack@.last()@));
                    self.viewer.current_frame = if n == 1 {
                        0
                    } else if fi < n - 1 {
                        fi
                    } else {
                        n - 2
                    };
                    self.viewer.texture_for = None;
                }
            }
        }
    }
}

/// How far a bubble is from the pointer, and how far the pointer reaches for it.
#[derive(Clone, Copy, Debug)]
pub struct Reach {
    pub distance: Scalar,
    pub reach: Scalar,
}

/// The bubble is within reach.
pub open spec fn reached(r: Reach) -> bool {
    r.distance.at_most(r.reach)
}

/// The nearest of the first `n` bubbles within reach, the first of those equally near.
pub open spec fn nearest(reaches: Seq<Reach>, n: int) -> Option<int>
    decreases n,
{
    if n <= 0 {
        None
    } else {
        let r = reaches[n - 1];
        match nearest(reaches, n - 1) {
            None => if reached(r) {
                Some(n - 1)
            } else {
                None
            },
            Some(i) => if reached(r) && r.distance.less(reaches[i].distance) {
                Some(n - 1)
            } else {
                Some(i)
            },
        }
    }
}

proof fn lemma_nearest_in_range(reaches: Seq<Reach>, n: int)
    requires
        0 <= n <= reaches.len(),
    ensures
        nearest(reaches, n) matches Some(i) ==> 0 <= i < n && reached(reaches[i]),
    decreases n,
{
    if n > 0 {
        lemma_nearest_in_range(reaches, n - 1);
    }
}

/// The nearest bubble within reach of the pointer.
pub fn closest_bubble(reaches: &Vec<Reach>) -> (r: Option<usize>)
    ensures
        r is Some <==> nearest(reaches@, reaches@.len() as int) is Some,
        r matches Some(i) ==> nearest(reaches@, reaches@.len() as int) == Some(i as int) && i < reaches@.len(),
{
    let n: usize = reaches.len();
    let mut closest: Option<usize> = None;
    let mut i: usize = 0;
    while i < n
        invariant
            i <= n,
            n == reaches@.len(),
            closest is Some <==> nearest(reaches@, i as int) is Some,
            closest matches Some(c) ==> nearest(reaches@, i as int) == Some(c as int) && c < i,
        decreases n - i,
    {
        let r = reaches[i];
        if r.distance.le(r.reach) {
            let closer: bool = match closest {
                None => true,
                Some(c) => r.distance.lt(reaches[c].distance),
            };
            if closer {
                closest = Some(i);
            }
        }
        i += 1;
    }
    closest
}

/// How far each bubble is from the pointer, and how far the pointer reaches for it.
pub open spec fn reaches_of<R: Fn(Spot) -> Reach>(reach: R, bubbles: Seq<BubbleView>) -> Seq<Reach> {
    Seq::new(bubbles.len(), |i: int| result_of(reach, spot_of(bubbles[i])))
}

/// The bubble of a frame that the pointer is over. `reach` gives how far a bubble is from
/// the pointer and how far the pointer reaches for it.
pub fn bubble_under<R: Fn(Spot) -> Reach>(frame: &FrameResult, reach: R) -> (r: Option<usize>)
    requires
        computes(reach),
    ensures
        ({
            let bubbles = frame@.bubbles;
            let found = nearest(reaches_of(reach, bubbles), bubbles.len() as int);
            &&& r is Some <==> found is Some
            &&& r matches Some(i) ==> found == Some(i as int) && i < bubbles.len()
            &&& forall|i: int| 0 <= i < bubbles.len() ==> answered(reach, spot_of(#[trigger] bubbles[i]))
        }),
        r is None ==> forall|j: int|
            #![trigger frame.bubbles@[j]]
            0 <= j < frame.bubbles@.len() ==> {
                let b = frame.bubbles@[j];
                let q = result_of(reach, Spot { x: b.centroid_x, y: b.centroid_y, diameter: b.diameter_um });
                !q.distance.at_most(q.reach)
            },
        r matches Some(i) ==> i < frame.bubbles@.len() && ({
            let a = frame.bubbles@[i as int];
            let p = result_of(reach, Spot { x: a.centroid_x, y: a.centroid_y, diameter: a.diameter_um });
            &&& p.distance.at_most(p.reach)
            &&& forall|j: int|
                #![trigger frame.bubbles@[j]]
                0 <= j < frame.bubbles@.len() ==> {
                    let b = frame.bubbles@[j];
                    let q = result_of(reach, Spot { x: b.centroid_x, y: b.centroid_y, diameter: b.diameter_um });
                    q.distance.at_most(q.reach) ==> p.distance.at_most(q.distance) && (j < i ==> p.distance.less(
                        q.distance,
                    ))
                }
        }),
        forall|j: int|
            #![trigger frame.bubbles@[j]]
            0 <= j < frame.bubbles@.len() ==> answered(
                reach,
                Spot {
                    x: frame.bubbles@[j].centroid_x,
                    y: frame.bubbles@[j].centroid_y,
                    diameter: frame.bubbles@[j].diameter_um,
                },
            ),
{
    let ghost bubbles = frame@.bubbles;
    let ghost all = reaches_of(reach, bubbles);
    let n: usize = frame.bubbles.len();
    let mut reaches: Vec<Reach> = Vec::new();
    let mut i: usize = 0;
    while i < n
        invariant
            i <= n,
            n == frame.bubbles@.len(),
            bubbles == frame@.bubbles,
            all == reaches_of(reach, bubbles),
            computes(reach),
            reaches@ == all.take(i as int),
            forall|k: int| 0 <= k < i ==> answered(reach, spot_of(#[trigger] bubbles[k])),
        decreases n - i,
    {
        let b = &frame.bubbles[i];
        assert(b@ == bubbles[i as int]);
        reaches.push(ask(&reach, Spot { x: b.centroid_x, y: b.centroid_y, diameter: b.diameter_um }));
        assert(reaches@ =~= all.take(i + 1));
        i += 1;
    }
    assert(reaches@ =~= all);
    let r = closest_bubble(&reaches);
    proof {
        assert forall|j: int| 0 <= j < n implies bubbles[j] == (#[trigger] frame.bubbles@[j])@ && all[j] == result_of(
            reach,
            Spot {
                x: frame.bubbles@[j].centroid_x,
                y: frame.bubbles@[j].centroid_y,
                diameter: frame.bubbles@[j].diameter_um,
            },
        ) by {}
        assert forall|j: int|
            0 <= j < n && (#[trigger] all[j]).distance.at_most(all[j].reach) implies r is Some
            && all[r.unwrap() as int].distance.at_most(all[j].distance) && (j < r.unwrap() ==> all[r.unwrap() as int].distance.less(
            all[j].distance,
        )) by {
            nearest_is_nearest(all, n as int, j);
            nearest_comes_first(all, n as int, j);
        }
        lemma_nearest_in_range(all, n as int);
    }
    r
}

/// The bubble under the pointer is within reach and none within reach is nearer; there is
/// one just where some bubble is within reach.
pub proof fn nearest_is_nearest(reaches: Seq<Reach>, n: int, j: int)
    requires
        0 <= j < n <= reaches.len(),
        reached(reaches[j]),
    ensures
        nearest(reaches, n) matches Some(i) && 0 <= i < n && reached(reaches[i]) && reaches[i].distance.at_most(
            reaches[j].distance,
        ),
    decreases n,
{
    lemma_nearest_in_range(reaches, n);
    lemma_nearest_in_range(reaches, n - 1);
    if j < n - 1 {
        nearest_is_nearest(reaches, n - 1, j);
    }
}

/// Of bubbles equally near, the first one is under the pointer: those before it that are within
/// reach are farther away.
pub proof fn nearest_comes_first(reaches: Seq<Reach>, n: int, j: int)
    requires
        0 <= j < n <= reaches.len(),
        reaches[j].distance.at_most(reaches[j].reach),
    ensures
        nearest(reaches, n) matches Some(i) && (j < i ==> reaches[i].distance.less(reaches[j].distance)),
    decreases n,
{
    lemma_nearest_in_range(reaches, n - 1);
    if j < n - 1 {
        nearest_comes_first(reaches, n - 1, j);
        nearest_is_nearest(reaches, n - 1, j);
    }
}

/// The view once the pointer is over a bubble, or none. In edit mode that bubble is
/// pointed out, but one that was just clicked only once the pointer has left it.
pub open spec fn hovering(v: ViewerState, closest: Option<usize>) -> ViewerState {
    if !v.edit_mode {
        ViewerState { hovered_bubble: None, ..v }
    } else {
        match v.suppress_hover_bubble {
            Some(x) => if closest == Some(x) {
                ViewerState { hovered_bubble: None, ..v }
            } else {
                ViewerState { hovered_bubble: closest, suppress_hover_bubble: None, ..v }
            },
            None => ViewerState { hovered_bubble: closest, ..v },
        }
    }
}

impl AppState {
    /// Takes in which bubble the pointer is over.
    pub fn hover(&mut self, closest: Option<usize>)
        ensures
            final(self)@ == (AppView { viewer: hovering(old(self)@.viewer, closest), ..old(self)@ }),
            final(self).viewer == (ViewerState {
                hovered_bubble: final(self).viewer.hovered_bubble,
                suppress_hover_bubble: final(self).viewer.suppress_hover_bubble,
                ..old(self).viewer
            }),
            final(self).viewer.hovered_bubble is None || final(self).viewer.hovered_bubble == closest,
            final(self).viewer.hovered_bubble is Some ==> old(self).viewer.edit_mode,
            old(self).viewer.edit_mode && closest is Some && closest != old(self).viewer.suppress_hover_bubble
                ==> final(self).viewer.hovered_bubble == closest && final(self).viewer.suppress_hover_bubble is None,
            old(self).viewer.edit_mode && closest is None ==> final(self).viewer.suppress_hover_bubble is None,
            closest is Some && closest == old(self).viewer.suppress_hover_bubble ==> final(self).viewer.hovered_bubble is None && final(self).viewer.suppress_hover_bubble == closest,
            !old(self).viewer.edit_mode ==> final(self).viewer.suppress_hover_bubble == old(self).viewer.suppress_hover_bubble,
    {
        if !self.viewer.edit_mode {
            self.viewer.hovered_bubble = None;
            return;
        }
        match self.viewer.suppress_hover_bubble {
            Some(x) => {
                let same: bool = match closest {
                    Some(c) => c == x,
                    None => false,
                };
                if same {
                    self.viewer.hovered_bubble = None;
                } else {
                    self.viewer.hovered_bubble = closest;
                    self.viewer.suppress_hover_bubble = None;
                }
            },
            None => {
                self.viewer.hovered_bubble = closest;
            },
        }
    }

    /// Whether dragging moves the picture: not while a bubble is pointed out to be edited.
    pub fn may_drag(&self) -> (r: bool)
        ensures
            r == (!self@.viewer.edit_mode || self@.viewer.hovered_bubble is None),
    {
        !self.viewer.edit_mode || self.viewer.hovered_bubble.is_none()
    }

    /// Shows the frame before.
    pub fn show_previous(&mut self)
        ensures
            final(self)@ == (if old(self)@.viewer.current_frame > 0 {
                at_frame(old(self)@, old(self)@.viewer.current_frame - 1)
            } else {
                old(self)@
            }),
    {
        if self.viewer.current_frame > 0 {
            self.viewer.current_frame -= 1;
        }
    }

    /// Shows the frame after.
    pub fn show_next(&mut self)
        ensures
            final(self)@ == (if old(self)@.viewer.current_frame + 1 < focused_frames(old(self)@) {
                at_frame(old(self)@, old(self)@.viewer.current_frame + 1)
            } else {
                old(self)@
            }),
    {
        let n: usize = self.frame_count();
        if n > 0 && self.viewer.current_frame < n - 1 {
            self.viewer.current_frame += 1;
        }
    }

    /// Shows the frame that the slider stands at, or the nearest one there is.
    pub fn slide_to(&mut self, idx: i64)
        requires
            focused_frames(old(self)@) <= i64::MAX,
        ensures
            final(self)@ == (if focused_frames(old(self)@) == 0 {
                old(self)@
            } else {
                at_frame(
                    old(self)@,
                    if idx < 0 {
                        0
                    } else if idx < focused_frames(old(self)@) {
                        idx as int
                    } else {
                        focused_frames(old(self)@) - 1
                    },
                )
            }),
    {
        let n: usize = self.frame_count();
        if n > 0 {
            self.viewer.current_frame = if idx < 0 {
                0
            } else if idx < n as i64 {
                idx as usize
            } else {
                n - 1
            };
        }
    }

    /// What stands beside the slider: which frame is shown, of how many.
    pub fn page_label(&self) -> (r: Option<String>)
        requires
            self@.viewer.current_frame < usize::MAX,
        ensures
            opt_text(r) == (if focused_frames(self@) > 0 {
                Some(
                    decimal((self@.viewer.current_frame + 1) as nat) + "/"@ + decimal(focused_frames(self@)),
                )
            } else {
                None
            }),
    {
        let n: usize = self.frame_count();
        if n > 0 {
            let mut text = count_text(self.viewer.current_frame + 1);
            text.append("/");
            text.append(count_text(n).as_str());
            Some(text)
        } else {
            None
        }
    }

    /// What is said of the result in focus: its name and how many frames it has.
    pub fn caption(&self) -> (r: Option<String>)
        ensures
            opt_text(r) == (match focused(self@) {
                Some(e) => Some(e.name + "  ("@ + decimal(e.results.frames.len()) + " frames)"@),
                None => None,
            }),
    {
        match self.focused_results() {
            Some(e) => {
                assert(e@.results.frames.len() == e.results.frames.len());
                let mut text = e.name.clone();
                text.append("  (");
                text.append(count_text(e.results.frames.len()).as_str());
                text.append(" frames)");
                Some(text)
            },
            None => None,
        }
    }

    /// What is said where no result is in focus.
    pub fn empty_hint(&self) -> (r: &'static str)
        ensures
            r@ == (if self@.results_list.len() == 0 {
                "Add folders to the workspace, then click RUN."@
            } else {
                "Click a result block on the right to view it."@
            }),
    {
        assert(self@.results_list.len() == self.results_list.len());
        if self.results_list.len() == 0 {
            "Add folders to the workspace, then click RUN."
        } else {
            "Click a result block on the right to view it."
        }
    }

    /// Starts or ends editing, where there is a frame to edit.
    pub fn toggle_edit(&mut self)
        ensures
            final(self)@ == (if focused_frames(old(self)@) > 0 {
                AppView {
                    viewer: ViewerState { edit_mode: !old(self)@.viewer.edit_mode, ..old(self)@.viewer },
                    ..old(self)@
                }
            } else {
                old(self)@
            }),
    {
        if self.frame_count() > 0 {
            self.viewer.edit_mode = !self.viewer.edit_mode;
        }
    }

    /// Shows or hides the overlays.
    pub fn toggle_overlays(&mut self)
        ensures
            final(self)@ == (AppView {
                viewer: ViewerState { show_overlays: !old(self)@.viewer.show_overlays, ..old(self)@.viewer },
                ..old(self)@
            }),
    {
        self.viewer.show_overlays = !self.viewer.show_overlays;
    }
}

/// The state with another frame shown.
pub open spec fn at_frame(s: AppView, i: int) -> AppView {
    AppView { viewer: ViewerState { current_frame: i as usize, ..s.viewer }, ..s }
}

/// The bits of the number eight, the largest enlargement.
pub const EIGHT_BITS: u32 = 0x4100_0000;

/// The enlargement kept between one and eight.
pub open spec fn zoom_limited(z: Scalar) -> Scalar {
    let one = Scalar { bits: ONE_BITS };
    let eight = Scalar { bits: EIGHT_BITS };
    if z.less(one) {
        one
    } else if eight.less(z) {
        eight
    } else {
        z
    }
}

/// Keeps an enlargement between one and eight.
pub fn limit_zoom(z: Scalar) -> (r: Scalar)
    ensures
        r == zoom_limited(z),
        z.less(Scalar { bits: ONE_BITS }) ==> r.bits == ONE_BITS,
        (Scalar { bits: 0x4100_0000 }).less(z) ==> r.bits == 0x4100_0000,
        (Scalar { bits: ONE_BITS }).at_most(z) && z.at_most(Scalar { bits: 0x4100_0000 }) ==> r == z,
        z.nan() ==> r == z,
{
    let one = Scalar::from_bits(ONE_BITS);
    let eight = Scalar::from_bits(EIGHT_BITS);
    proof {
        lemma_rank_orders_values(one, eight);
    }
    if z.lt(one) {
        one
    } else if eight.lt(z) {
        eight
    } else {
        z
    }
}

/// An enlargement is kept between one and eight, and one that lies there is kept as it is.
pub proof fn zoom_stays_limited(z: Scalar)
    requires
        !z.nan(),
    ensures
        (Scalar { bits: ONE_BITS }).at_most(zoom_limited(z)),
        zoom_limited(z).at_most(Scalar { bits: EIGHT_BITS }),
        zoom_limited(zoom_limited(z)) == zoom_limited(z),
{
    lemma_rank_orders_values(Scalar { bits: ONE_BITS }, Scalar { bits: EIGHT_BITS });
}

impl AppState {
    /// Shows the picture smaller; `shrink` gives the enlargement to go down to.
    pub fn zoom_out<Z: Fn(Scalar) -> Scalar>(&mut self, shrink: Z)
        requires
            computes(shrink),
        ensures
            answered(shrink, old(self)@.viewer.zoom),
            final(self)@ == (AppView {
                viewer: ViewerState {
                    zoom: if (Scalar { bits: ONE_BITS }).less(result_of(shrink, old(self)@.viewer.zoom)) {
                        result_of(shrink, old(self)@.viewer.zoom)
                    } else {
                        Scalar { bits: ONE_BITS }
                    },
                    ..old(self)@.viewer
                },
                ..old(self)@
            }),
    {
        let one = Scalar::from_bits(ONE_BITS);
        let shrunk = ask(&shrink, self.viewer.zoom);
        self.viewer.zoom = if one.lt(shrunk) {
            shrunk
        } else {
            one
        };
    }

    /// Shows the picture larger; `grow` gives the enlargement to go up to.
    pub fn zoom_in<Z: Fn(Scalar) -> Scalar>(&mut self, grow: Z)
        requires
            computes(grow),
        ensures
            answered(grow, old(self)@.viewer.zoom),
            final(self)@ == (AppView {
                viewer: ViewerState {
                    zoom: if result_of(grow, old(self)@.viewer.zoom).less(Scalar { bits: EIGHT_BITS }) {
                        result_of(grow, old(self)@.viewer.zoom)
                    } else {
                        Scalar { bits: EIGHT_BITS }
                    },
                    ..old(self)@.viewer
                },
                ..old(self)@
            }),
    {
        let eight = Scalar::from_bits(EIGHT_BITS);
        let grown = ask(&grow, self.viewer.zoom);
        self.viewer.zoom = if grown.lt(eight) {
            grown
        } else {
            eight
        };
    }

    /// Shows the whole picture.
    pub fn zoom_to_fit(&mut self)
        ensures
            final(self)@ == (AppView {
                viewer: ViewerState {
                    zoom: Scalar { bits: ONE_BITS },
                    pan_x: Scalar { bits: 0 },
                    pan_y: Scalar { bits: 0 },
                    ..old(self)@.viewer
                },
                ..old(self)@
            }),
    {
        self.viewer.zoom = Scalar::from_bits(ONE_BITS);
        self.viewer.pan_x = Scalar::from_bits(0);
        self.viewer.pan_y = Scalar::from_bits(0);
    }
}

/// What a click on a bubble that is pointed out would do.
#[derive(Clone, Copy, Debug, PartialEq, Eq, Structural)]
pub enum HoverHint {
    Accept,
    Reject,
}

/// How a bubble is drawn on the screen.
#[derive(Clone, Copy, Debug, PartialEq, Eq, Structural)]
pub struct ScreenMark {
    pub bubble: usize,
    pub color: Color,
    pub dashed: bool,
    pub hint: Option<HoverHint>,
    pub labelled: bool,
}

/// The bubble is the one pointed out.
pub open spec fn pointed_out(v: ViewerState, i: int) -> bool {
    v.edit_mode && (v.hovered_bubble matches Some(h) && h == i)
}

/// The bubble is drawn: it is pointed out, or its kind is shown.
pub open spec fn on_screen(v: ViewerState, b: BubbleView, i: int) -> bool {
    pointed_out(v, i) || if b.is_static {
        v.show_static
    } else if b.is_valid {
        v.show_bubbles
    } else {
        v.show_rejected
    }
}

/// How the bubble at position `i` is drawn: one that is pointed out in the colour of what
/// a click would make it, any other in that of what it is.
pub open spec fn screen_mark(v: ViewerState, b: BubbleView, i: int) -> ScreenMark {
    let green = Color { red: 0, green: 200, blue: 0 };
    if pointed_out(v, i) {
        ScreenMark {
            bubble: i as usize,
            color: if b.is_valid {
                Color { red: 255, green: 40, blue: 40 }
            } else {
                green
            },
            dashed: false,
            hint: Some(
                if b.is_valid {
                    HoverHint::Reject
                } else {
                    HoverHint::Accept
                },
            ),
            labelled: false,
        }
    } else {
        ScreenMark {
            bubble: i as usize,
            color: if b.is_static {
                Color { red: 255, green: 234, blue: 0 }
            } else if b.is_valid {
                green
            } else {
                Color { red: 255, green: 23, blue: 68 }
            },
            dashed: b.is_static,
            hint: None,
            labelled: b.is_valid,
        }
    }
}

/// How the first `n` bubbles are drawn, in order.
pub open spec fn screen_marks(v: ViewerState, bubbles: Seq<BubbleView>, n: int) -> Seq<ScreenMark>
    decreases n,
{
    if n <= 0 {
        Seq::empty()
    } else if on_screen(v, bubbles[n - 1], n - 1) {
        screen_marks(v, bubbles, n - 1).push(screen_mark(v, bubbles[n - 1], n - 1))
    } else {
        screen_marks(v, bubbles, n - 1)
    }
}

/// How the bubbles of a frame are drawn on the screen.
pub fn draw_overlays(v: &ViewerState, frame: &FrameResult) -> (marks: Vec<ScreenMark>)
    ensures
        marks@ == screen_marks(*v, frame@.bubbles, frame@.bubbles.len() as int),
{
    let mut marks: Vec<ScreenMark> = Vec::new();
    let n: usize = frame.bubbles.len();
    let mut i: usize = 0;
    while i < n
        invariant
            i <= n,
            n == frame.bubbles@.len(),
            marks@ == screen_marks(*v, frame@.bubbles, i as int),
        decreases n - i,
    {
        let b = &frame.bubbles[i];
        assert(b@ == frame@.bubbles[i as int]);
        let is_hovered: bool = match v.hovered_bubble {
            Some(h) => v.edit_mode && h == i,
            None => false,
        };
        let green = Color { red: 0, green: 200, blue: 0 };
        if is_hovered {
            if b.is_valid {
                let red = Color { red: 255, green: 40, blue: 40 };
                marks.push(
                    ScreenMark { bubble: i, color: red, dashed: false, hint: Some(HoverHint::Reject), labelled: false },
                );
            } else {
                marks.push(
                    ScreenMark {
                        bubble: i,
                        color: green,
                        dashed: false,
                        hint: Some(HoverHint::Accept),
                        labelled: false,
                    },
                );
            }
        } else if b.is_static {
            if v.show_static {
                let yellow = Color { red: 255, green: 234, blue: 0 };
                marks.push(
                    ScreenMark { bubble: i, color: yellow, dashed: true, hint: None, labelled: b.is_valid },
                );
            }
        } else if b.is_valid {
            if v.show_bubbles {
                marks.push(ScreenMark { bubble: i, color: green, dashed: false, hint: None, labelled: true });
            }
        } else if v.show_rejected {
            let red = Color { red: 255, green: 23, blue: 68 };
            marks.push(ScreenMark { bubble: i, color: red, dashed: false, hint: None, labelled: false });
        }
        i += 1;
    }
    marks
}

/// The counts of every frame of every result are those of its bubbles.
pub open spec fn results_agree(list: Seq<ResultView>) -> bool {
    forall|r: int| 0 <= r < list.len() ==> all_counts_agree((#[trigger] list[r]).results.frames)
}

/// The frames put aside are counted right too.
pub open spec fn undo_agrees(stack: Seq<UndoView>) -> bool {
    forall|i: int|
        0 <= i < stack.len() ==> ((#[trigger] stack[i]) matches UndoView::DiscardFrame { frame, .. } ==> counts_agree(
            frame,
        ))
}

proof fn lemma_marked_agrees(f: FrameView, b: int, valid: bool, is_static: bool)
    requires
        f.bubbles.len() <= usize::MAX,
    ensures
        counts_agree(marked(f, b, valid, is_static)),
        counts_agree(recounted(f)),
        marked(f, b, valid, is_static).bubbles.len() == f.bubbles.len(),
{
    lemma_valid_count_bound(f.bubbles);
    lemma_valid_count_bound(marked(f, b, valid, is_static).bubbles);
}

proof fn lemma_frame_agrees(list: Seq<ResultView>, r: int, f: int, frame: FrameView)
    requires
        results_agree(list),
        0 <= r < list.len(),
        0 <= f < list[r].results.frames.len(),
        counts_agree(frame),
    ensures
        results_agree(with_frame(list, r, f, frame)),
{
    let now = with_frame(list, r, f, frame);
    assert forall|k: int| 0 <= k < now.len() implies all_counts_agree((#[trigger] now[k]).results.frames) by {
        assert(all_counts_agree(list[k].results.frames));
        assert forall|g: int| 0 <= g < now[k].results.frames.len() implies counts_agree(
            #[trigger] now[k].results.frames[g],
        ) by {
            if k != r || g != f {
                assert(now[k].results.frames[g] == list[k].results.frames[g]);
            }
        }
    }
}

/// Corrections keep the counts of all frames those of their bubbles: a click on a bubble
/// does.
pub proof fn clicking_keeps_counts(s: AppView)
    requires
        results_agree(s.results_list),
        undo_agrees(s.undo_stack),
        focused_frames(s) > 0,
        in_range(s),
        focused(s).unwrap().results.frames[s.viewer.current_frame as int].bubbles.len() <= usize::MAX,
    ensures
        results_agree(clicked(s).results_list),
        undo_agrees(clicked(s).undo_stack),
{
    if let Some(bi) = s.viewer.hovered_bubble {
        let r = s.focused_result.unwrap() as int;
        let f = s.viewer.current_frame as int;
        let frame = s.results_list[r].results.frames[f];
        if bi < frame.bubbles.len() {
            let b = frame.bubbles[bi as int];
            lemma_marked_agrees(frame, bi as int, clicked_marks(b).0, clicked_marks(b).1);
            lemma_frame_agrees(
                s.results_list,
                r,
                f,
                marked(frame, bi as int, clicked_marks(b).0, clicked_marks(b).1),
            );
            assert(undo_agrees(clicked(s).undo_stack));
        } else {
            lemma_marked_agrees(frame, bi as int, true, true);
            lemma_frame_agrees(s.results_list, r, f, recounted(frame));
        }
    }
}

/// Corrections keep the counts of all frames those of their bubbles: removing a frame
/// does.
pub proof fn discarding_keeps_counts(s: AppView)
    requires
        results_agree(s.results_list),
        undo_agrees(s.undo_stack),
    ensures
        results_agree(discarded(s).results_list),
        undo_agrees(discarded(s).undo_stack),
{
    if discarded(s) != s {
        let r = s.focused_result.unwrap() as int;
        let f = s.viewer.current_frame as int;
        let frames = s.results_list[r].results.frames;
        assert(all_counts_agree(s.results_list[r].results.frames));
        assert(counts_agree(frames[f]));
        let now = discarded(s).results_list;
        assert forall|k: int| 0 <= k < now.len() implies all_counts_agree((#[trigger] now[k]).results.frames) by {
            assert(all_counts_agree(s.results_list[k].results.frames));
            assert forall|g: int| 0 <= g < now[k].results.frames.len() implies counts_agree(
                #[trigger] now[k].results.frames[g],
            ) by {
                if k == r {
                    let old_g = if g < f {
                        g
                    } else {
                        g + 1
                    };
                    assert(now[k].results.frames[g] == frames[old_g]);
                } else {
                    assert(now[k].results.frames[g] == s.results_list[k].results.frames[g]);
                }
            }
        }
    }
}

/// Corrections keep the counts of all frames those of their bubbles: taking one back does.
pub proof fn undoing_keeps_counts(s: AppView)
    requires
        results_agree(s.results_list),
        undo_agrees(s.undo_stack),
        forall|r: int, f: int|
            0 <= r < s.results_list.len() && 0 <= f < s.results_list[r].results.frames.len() ==> (
            #[trigger] s.results_list[r].results.frames[f]).bubbles.len() <= usize::MAX,
    ensures
        results_agree(undone(s).results_list),
        undo_agrees(undone(s).undo_stack),
{
    if s.undo_stack.len() > 0 {
        let list = s.results_list;
        assert(undo_agrees(s.undo_stack.drop_last()));
        match s.undo_stack.last() {
            UndoView::ToggleBubble { result_idx, frame_idx, bubble_idx, was_valid, was_static } => {
                let r = result_idx as int;
                let f = frame_idx as int;
                if r < list.len() && f < list[r].results.frames.len() {
                    let frame = list[r].results.frames[f];
                    lemma_marked_agrees(frame, bubble_idx as int, was_valid, was_static);
                    lemma_frame_agrees(list, r, f, marked(frame, bubble_idx as int, was_valid, was_static));
                }
            },
            UndoView::DiscardFrame { result_idx, frame_idx, frame } => {
                let r = result_idx as int;
                if r < list.len() {
                    assert(s.undo_stack[s.undo_stack.len() - 1] == s.undo_stack.last());
                    assert(counts_agree(frame));
                    let now = undone(s).results_list;
                    let frames = list[r].results.frames;
                    let at = if frame_idx <= frames.len() {
                        frame_idx as int
                    } else {
                        frames.len() as int
                    };
                    assert forall|k: int| 0 <= k < now.len() implies all_counts_agree(
                        (#[trigger] now[k]).results.frames,
                    ) by {
                        assert(all_counts_agree(list[k].results.frames));
                        assert forall|g: int| 0 <= g < now[k].results.frames.len() implies counts_agree(
                            #[trigger] now[k].results.frames[g],
                        ) by {
                            if k == r {
                                if g < at {
                                    assert(now[k].results.frames[g] == frames[g]);
                                } else if g > at {
                                    assert(now[k].results.frames[g] == frames[g - 1]);
                                }
                            } else {
                                assert(now[k].results.frames[g] == list[k].results.frames[g]);
                            }
                        }
                    }
                }
            },
        }
    }
}

/// A click on a bubble and taking it back leave the results and what can be taken back as
/// they were.
pub proof fn undo_restores_click(s: AppView)
    requires
        results_agree(s.results_list),
        focused_frames(s) > 0,
        in_range(s),
        s.viewer.hovered_bubble matches Some(bi) && bi < focused(s).unwrap().results.frames[s.viewer.current_frame as int].bubbles.len(),
    ensures
        undone(clicked(s)).results_list == s.results_list,
        undone(clicked(s)).undo_stack == s.undo_stack,
{
    let bi = s.viewer.hovered_bubble.unwrap() as int;
    let r = s.focused_result.unwrap() as int;
    let f = s.viewer.current_frame as int;
    let list = s.results_list;
    let frame = list[r].results.frames[f];
    let b = frame.bubbles[bi];
    let c = clicked(s);
    let once = marked(frame, bi, clicked_marks(b).0, clicked_marks(b).1);
    assert(c.results_list[r].results.frames[f] == once);
    let twice = marked(once, bi, b.is_valid, b.is_static);
    assert(twice.bubbles =~= frame.bubbles);
    assert(all_counts_agree(list[r].results.frames));
    assert(counts_agree(frame));
    assert(twice == frame);
    assert(c.undo_stack.drop_last() =~= s.undo_stack);
    let back = undone(c).results_list;
    assert(back[r].results.frames =~= list[r].results.frames);
    assert(back =~= list);
}

/// Removing a frame and taking that back leave the results, what can be taken back and the
/// frame that is shown as they were.
pub proof fn undo_restores_discard(s: AppView)
    requires
        focused_frames(s) > 0,
        in_range(s),
    ensures
        undone(discarded(s)).results_list == s.results_list,
        undone(discarded(s)).undo_stack == s.undo_stack,
        undone(discarded(s)).viewer.current_frame == s.viewer.current_frame,
        in_range(undone(discarded(s))),
{
    let r = s.focused_result.unwrap() as int;
    let f = s.viewer.current_frame as int;
    let list = s.results_list;
    let frames = list[r].results.frames;
    let d = discarded(s);
    assert(d.undo_stack.drop_last() =~= s.undo_stack);
    assert(frames.remove(f).insert(f, frames[f]) =~= frames);
    let back = undone(d).results_list;
    assert(back =~= list);
}

/// Whatever is shown next is a frame of the result in focus: after the one before, the one
/// after, the slider and the removal of a frame.
pub proof fn shown_frame_stays_in_range(s: AppView, idx: int)
    requires
        in_range(s),
        focused_frames(s) <= usize::MAX,
        0 <= idx < focused_frames(s),
    ensures
        s.viewer.current_frame > 0 ==> in_range(at_frame(s, s.viewer.current_frame - 1)),
        s.viewer.current_frame + 1 < focused_frames(s) ==> in_range(at_frame(s, s.viewer.current_frame + 1)),
        in_range(at_frame(s, idx)),
        in_range(discarded(s)),
        focused_frames(discarded(s)) == focused_frames(s) - 1,
{
    assert(focused(at_frame(s, idx)) == focused(s));
}

/// Two clicks on the same bubble bring an accepted one back and leave a rejected one
/// rejected, but no longer static once it was accepted in between.
pub proof fn two_clicks(b: BubbleView)
    ensures
        ({
            let once = BubbleView { is_valid: clicked_marks(b).0, is_static: clicked_marks(b).1, ..b };
            let twice = clicked_marks(once);
            &&& b.is_valid ==> twice == (true, false)
            &&& !b.is_valid ==> twice == (false, false)
        }),
{
}

/// A click turns the bubble that is pointed out, and nothing else: an accepted one is no longer
/// accepted, any other is accepted and no longer static. The frame is counted anew, what the
/// bubble was can be taken back, and the bubble is no longer pointed out.
pub proof fn click_turns_one_bubble(s: AppView)
    requires
        focused_frames(s) > 0,
        in_range(s),
        s.results_list[s.focused_result.unwrap() as int].results.frames[s.viewer.current_frame as int].bubbles.len()
            <= usize::MAX,
    ensures
        s.viewer.hovered_bubble is None ==> clicked(s) == s,
        s.viewer.hovered_bubble matches Some(bi) ==> ({
            let t = clicked(s);
            let r = s.focused_result.unwrap() as int;
            let f = s.viewer.current_frame as int;
            let before = s.results_list[r].results.frames[f];
            let after = t.results_list[r].results.frames[f];
            &&& t == (AppView {
                results_list: t.results_list,
                undo_stack: t.undo_stack,
                viewer: ViewerState { hovered_bubble: None, suppress_hover_bubble: Some(bi), ..s.viewer },
                ..s
            })
            &&& t.results_list.len() == s.results_list.len()
            &&& forall|k: int| 0 <= k < s.results_list.len() && k != r ==> #[trigger] t.results_list[k] == s.results_list[k]
            &&& t.results_list[r] == (ResultView {
                results: ResultsView { frames: t.results_list[r].results.frames, ..s.results_list[r].results },
                ..s.results_list[r]
            })
            &&& t.results_list[r].results.frames.len() == s.results_list[r].results.frames.len()
            &&& forall|g: int|
                0 <= g < s.results_list[r].results.frames.len() && g != f ==> #[trigger] t.results_list[r].results.frames[g]
                    == s.results_list[r].results.frames[g]
            &&& after.image_path == before.image_path
            &&& after.bubbles.len() == before.bubbles.len()
            &&& forall|i: int|
                0 <= i < before.bubbles.len() && i != bi ==> #[trigger] after.bubbles[i] == before.bubbles[i]
            &&& after.num_valid == after.bubbles.filter(|b: BubbleView| b.is_valid).len()
            &&& after.num_valid + after.num_rejected == after.bubbles.len()
            &&& bi < before.bubbles.len() ==> {
                let b = before.bubbles[bi as int];
                &&& after.bubbles[bi as int] == (BubbleView {
                    is_valid: !b.is_valid,
                    is_static: b.is_valid && b.is_static,
                    ..b
                })
                &&& t.undo_stack == s.undo_stack.push(
                    UndoView::ToggleBubble {
                        result_idx: r as usize,
                        frame_idx: f as usize,
                        bubble_idx: bi,
                        was_valid: b.is_valid,
                        was_static: b.is_static,
                    },
                )
            }
            &&& bi >= before.bubbles.len() ==> t.undo_stack == s.undo_stack
        }),
{
    if let Some(bi) = s.viewer.hovered_bubble {
        let t = clicked(s);
        let r = s.focused_result.unwrap() as int;
        let f = s.viewer.current_frame as int;
        let after = t.results_list[r].results.frames[f];
        counts_pick_by_marks(after.bubbles);
        lemma_valid_count_bound(after.bubbles);
    }
}

/// Removing the frame that is shown leaves all other frames in their order, all other results,
/// and the rest of the state. What was removed can be taken back. The frame that comes next is
/// shown, or the last one that is left.
pub proof fn discard_removes_one_frame(s: AppView)
    requires
        focused_frames(s) > 0,
        in_range(s),
        focused_frames(s) <= usize::MAX,
    ensures
        ({
            let t = discarded(s);
            let r = s.focused_result.unwrap() as int;
            let f = s.viewer.current_frame as int;
            let before = s.results_list[r].results.frames;
            let after = t.results_list[r].results.frames;
            &&& t == (AppView {
                results_list: t.results_list,
                undo_stack: t.undo_stack,
                viewer: ViewerState { current_frame: t.viewer.current_frame, texture_for: None, ..s.viewer },
                ..s
            })
            &&& t.results_list.len() == s.results_list.len()
            &&& forall|k: int| 0 <= k < s.results_list.len() && k != r ==> #[trigger] t.results_list[k] == s.results_list[k]
            &&& t.results_list[r] == (ResultView {
                results: ResultsView { frames: after, ..s.results_list[r].results },
                ..s.results_list[r]
            })
            &&& after.len() == before.len() - 1
            &&& forall|g: int| 0 <= g < f ==> #[trigger] after[g] == before[g]
            &&& forall|g: int| f <= g < after.len() ==> #[trigger] after[g] == before[g + 1]
            &&& t.undo_stack == s.undo_stack.push(
                UndoView::DiscardFrame { result_idx: r as usize, frame_idx: f as usize, frame: before[f] },
            )
            &&& f < after.len() ==> t.viewer.current_frame == f
            &&& f == after.len() && f > 0 ==> t.viewer.current_frame == f - 1
            &&& after.len() == 0 ==> t.viewer.current_frame == 0
        }),
{
}

/// Without a result in focus, or with a frame beyond its last, there is nothing to remove, and
/// without a correction nothing to take back.
pub proof fn nothing_to_correct(s: AppView)
    ensures
        focused_frames(s) == 0 || s.viewer.current_frame >= focused_frames(s) ==> discarded(s) == s,
        s.undo_stack.len() == 0 ==> undone(s) == s,
{
}

/// Taking back a click gives one bubble the marks that it had, counts its frame anew and leaves
/// everything else; where there is no such result, frame or bubble, no bubble changes.
pub proof fn undo_marks_one_bubble(s: AppView)
    requires
        s.undo_stack.len() > 0,
        s.undo_stack.last() is ToggleBubble,
    ensures
        s.undo_stack.last() matches UndoView::ToggleBubble { result_idx, frame_idx, bubble_idx, was_valid, was_static } ==> ({
            let t = undone(s);
            let r = result_idx as int;
            let f = frame_idx as int;
            let there = r < s.results_list.len() && f < s.results_list[r].results.frames.len();
            &&& t == (AppView { results_list: t.results_list, undo_stack: s.undo_stack.drop_last(), ..s })
            &&& !there ==> t.results_list == s.results_list
            &&& there ==> {
                let before = s.results_list[r].results.frames[f];
                let after = t.results_list[r].results.frames[f];
                &&& t.results_list.len() == s.results_list.len()
                &&& forall|k: int|
                    0 <= k < s.results_list.len() && k != r ==> #[trigger] t.results_list[k] == s.results_list[k]
                &&& t.results_list[r] == (ResultView {
                    results: ResultsView { frames: t.results_list[r].results.frames, ..s.results_list[r].results },
                    ..s.results_list[r]
                })
                &&& t.results_list[r].results.frames.len() == s.results_list[r].results.frames.len()
                &&& forall|g: int|
                    0 <= g < s.results_list[r].results.frames.len() && g != f ==> #[trigger] t.results_list[r].results.frames[g]
                        == s.results_list[r].results.frames[g]
                &&& after.image_path == before.image_path
                &&& after.bubbles.len() == before.bubbles.len()
                &&& forall|i: int|
                    0 <= i < before.bubbles.len() && i != bubble_idx ==> #[trigger] after.bubbles[i] == before.bubbles[i]
                &&& bubble_idx < before.bubbles.len() ==> after.bubbles[bubble_idx as int] == (BubbleView {
                    is_valid: was_valid,
                    is_static: was_static,
                    ..before.bubbles[bubble_idx as int]
                })
                &&& before.bubbles.len() <= usize::MAX ==> after.num_valid == after.bubbles.filter(
                    |b: BubbleView| b.is_valid,
                ).len() && after.num_valid + after.num_rejected == after.bubbles.len()
            }
        }),
{
    if let UndoView::ToggleBubble { result_idx, frame_idx, bubble_idx, was_valid, was_static } = s.undo_stack.last() {
        let t = undone(s);
        let r = result_idx as int;
        let f = frame_idx as int;
        if r < s.results_list.len() && f < s.results_list[r].results.frames.len() {
            let after = t.results_list[r].results.frames[f];
            counts_pick_by_marks(after.bubbles);
            lemma_valid_count_bound(after.bubbles);
        }
    }
}

/// Taking back a removal puts the frame at its place again, or behind the last where there are
/// fewer frames by now, and shows it where its result is in focus. All else stays.
pub proof fn undo_puts_one_frame_back(s: AppView)
    requires
        s.undo_stack.len() > 0,
        s.undo_stack.last() is DiscardFrame,
    ensures
        s.undo_stack.last() matches UndoView::DiscardFrame { result_idx, frame_idx, frame } ==> ({
            let t = undone(s);
            let r = result_idx as int;
            &&& t == (AppView {
                results_list: t.results_list,
                undo_stack: s.undo_stack.drop_last(),
                viewer: t.viewer,
                ..s
            })
            &&& s.focused_result == Some(result_idx) && r < s.results_list.len() ==> t.viewer == (ViewerState {
                current_frame: frame_idx,
                texture_for: None,
                ..s.viewer
            })
            &&& s.focused_result != Some(result_idx) || r >= s.results_list.len() ==> t.viewer == s.viewer
            &&& r >= s.results_list.len() ==> t.results_list == s.results_list
            &&& r < s.results_list.len() ==> {
                let before = s.results_list[r].results.frames;
                let after = t.results_list[r].results.frames;
                &&& t.results_list.len() == s.results_list.len()
                &&& forall|k: int|
                    0 <= k < s.results_list.len() && k != r ==> #[trigger] t.results_list[k] == s.results_list[k]
                &&& t.results_list[r] == (ResultView {
                    results: ResultsView { frames: after, ..s.results_list[r].results },
                    ..s.results_list[r]
                })
                &&& after.len() == before.len() + 1
                &&& frame_idx <= before.len() ==> after[frame_idx as int] == frame
                &&& frame_idx > before.len() ==> after[before.len() as int] == frame
                &&& forall|g: int| 0 <= g < before.len() && g < frame_idx ==> #[trigger] after[g] == before[g]
                &&& forall|g: int| frame_idx < g <= before.len() ==> #[trigger] after[g] == before[g - 1]
            }
        }),
{
}

/// Showing another frame changes nothing else.
pub proof fn moving_changes_only_the_frame(s: AppView, i: int)
    requires
        0 <= i <= usize::MAX,
    ensures
        at_frame(s, i).viewer.current_frame == i,
        at_frame(s, i) == (AppView {
            viewer: ViewerState { current_frame: at_frame(s, i).viewer.current_frame, ..s.viewer },
            ..s
        }),
{
}

/// In colour every byte is shown as it is. In black and white the three colours of a pixel take
/// its brightness, and its opacity stays.
pub proof fn pixels_are_shown_in_place<L: Fn((u8, u8, u8)) -> u8>(rgba: Seq<u8>, bw: bool, luma: L, q: int)
    requires
        0 <= q,
        4 * q + 3 < rgba.len(),
    ensures
        ({
            let shown = Seq::new(rgba.len(), |i: int| shown_byte(rgba, bw, luma, i));
            let l = result_of(luma, (rgba[4 * q], rgba[4 * q + 1], rgba[4 * q + 2]));
            &&& !bw ==> shown == rgba
            &&& bw ==> shown[4 * q] == l && shown[4 * q + 1] == l && shown[4 * q + 2] == l
            &&& shown[4 * q + 3] == rgba[4 * q + 3]
        }),
{
    let shown = Seq::new(rgba.len(), |i: int| shown_byte(rgba, bw, luma, i));
    if !bw {
        assert(shown =~= rgba);
    }
    assert((4 * q) / 4 == q && (4 * q + 1) / 4 == q && (4 * q + 2) / 4 == q);
    assert((4 * q) % 4 == 0 && (4 * q + 1) % 4 == 1 && (4 * q + 2) % 4 == 2 && (4 * q + 3) % 4 == 3);
}

/// What is shown of a decoded image has its size and all its pixels: in colour as they are, in
/// black and white with the brightness of each pixel for its three colours.
pub proof fn shown_image_is_the_decoded_one<L: Fn((u8, u8, u8)) -> u8>(
    decoded: Option<DynamicImage>,
    bw: bool,
    luma: L,
    r: Option<ShownFrame>,
    q: int,
)
    requires
        shown_as(decoded, bw, luma, r),
    ensures
        decoded is None ==> r is None,
        r matches Some(f) ==> decoded is Some && ({
            let img = decoded.unwrap();
            let rgba = rgba_pixels(img);
            &&& (f.width, f.height) == image_dims(img)
            &&& f.pixels@.len() == rgba.len()
            &&& !bw ==> f.pixels@ == rgba
            &&& bw && 0 <= q && 4 * q + 3 < rgba.len() ==> {
                let l = result_of(luma, (rgba[4 * q], rgba[4 * q + 1], rgba[4 * q + 2]));
                &&& f.pixels@[4 * q] == l
                &&& f.pixels@[4 * q + 1] == l
                &&& f.pixels@[4 * q + 2] == l
                &&& f.pixels@[4 * q + 3] == rgba[4 * q + 3]
            }
        }),
{
    if let Some(f) = r {
        let rgba = rgba_pixels(decoded.unwrap());
        if !bw {
            assert(f.pixels@ =~= rgba);
        }
        assert((4 * q) / 4 == q && (4 * q + 1) / 4 == q && (4 * q + 2) / 4 == q);
        assert((4 * q) % 4 == 0 && (4 * q + 1) % 4 == 1 && (4 * q + 2) % 4 == 2 && (4 * q + 3) % 4 == 3);
    }
}

proof fn lemma_screen_marks(v: ViewerState, bubbles: Seq<BubbleView>, n: int)
    requires
        0 <= n <= bubbles.len() <= usize::MAX,
    ensures
        ({
            let marks = screen_marks(v, bubbles, n);
            &&& forall|k: int|
                0 <= k < marks.len() ==> (#[trigger] marks[k]).bubble < n && on_screen(
                    v,
                    bubbles[marks[k].bubble as int],
                    marks[k].bubble as int,
                ) && marks[k] == screen_mark(v, bubbles[marks[k].bubble as int], marks[k].bubble as int)
            &&& forall|k: int, l: int|
                0 <= k < l < marks.len() ==> (#[trigger] marks[k]).bubble < (#[trigger] marks[l]).bubble
        }),
    decreases n,
{
    if n > 0 {
        lemma_screen_marks(v, bubbles, n - 1);
        let marks = screen_marks(v, bubbles, n);
        let before = screen_marks(v, bubbles, n - 1);
        assert forall|k: int| 0 <= k < marks.len() implies (#[trigger] marks[k]).bubble < n && on_screen(
            v,
            bubbles[marks[k].bubble as int],
            marks[k].bubble as int,
        ) && marks[k] == screen_mark(v, bubbles[marks[k].bubble as int], marks[k].bubble as int) by {
            if k < before.len() {
                assert(marks[k] == before[k]);
            }
        }
        assert forall|k: int, l: int| 0 <= k < l < marks.len() implies (#[trigger] marks[k]).bubble < (
        #[trigger] marks[l]).bubble by {
            assert(marks[k] == before[k]);
            if l < before.len() {
                assert(marks[l] == before[l]);
            }
        }
    }
}

proof fn lemma_on_screen(v: ViewerState, bubbles: Seq<BubbleView>, n: int, i: int)
    requires
        0 <= i < n <= bubbles.len() <= usize::MAX,
        on_screen(v, bubbles[i], i),
    ensures
        screen_marks(v, bubbles, n).contains(screen_mark(v, bubbles[i], i)),
    decreases n,
{
    let marks = screen_marks(v, bubbles, n);
    if i < n - 1 {
        lemma_on_screen(v, bubbles, n - 1, i);
        let before = screen_marks(v, bubbles, n - 1);
        assert(marks[before.index_of(screen_mark(v, bubbles[i], i))] == screen_mark(v, bubbles[i], i));
    } else {
        assert(marks[marks.len() - 1] == screen_mark(v, bubbles[i], i));
    }
}

/// On the screen the bubble that is pointed out while editing is always drawn, in the colour of
/// what a click would make it. Any other is drawn just where the switch for its sort is on: a
/// static one in dashed yellow, an accepted one in green, a rejected one in red; an accepted one
/// with its diameter. Each has at most one mark, and the marks follow the bubbles.
pub proof fn screen_shows_by_sort(v: ViewerState, bubbles: Seq<BubbleView>, i: int)
    requires
        0 <= i < bubbles.len() <= usize::MAX,
    ensures
        ({
            let marks = screen_marks(v, bubbles, bubbles.len() as int);
            let b = bubbles[i];
            let pointed = v.edit_mode && v.hovered_bubble == Some(i as usize);
            &&& pointed && b.is_valid ==> marks.contains(
                ScreenMark {
                    bubble: i as usize,
                    color: Color { red: 255, green: 40, blue: 40 },
                    dashed: false,
                    hint: Some(HoverHint::Reject),
                    labelled: false,
                },
            )
            &&& pointed && !b.is_valid ==> marks.contains(
                ScreenMark {
                    bubble: i as usize,
                    color: Color { red: 0, green: 200, blue: 0 },
                    dashed: false,
                    hint: Some(HoverHint::Accept),
                    labelled: false,
                },
            )
            &&& !pointed && b.is_static && v.show_static ==> marks.contains(
                ScreenMark {
                    bubble: i as usize,
                    color: Color { red: 255, green: 234, blue: 0 },
                    dashed: true,
                    hint: None,
                    labelled: b.is_valid,
                },
            )
            &&& !pointed && !b.is_static && b.is_valid && v.show_bubbles ==> marks.contains(
                ScreenMark {
                    bubble: i as usize,
                    color: Color { red: 0, green: 200, blue: 0 },
                    dashed: false,
                    hint: None,
                    labelled: true,
                },
            )
            &&& !pointed && !b.is_static && !b.is_valid && v.show_rejected ==> marks.contains(
                ScreenMark {
                    bubble: i as usize,
                    color: Color { red: 255, green: 23, blue: 68 },
                    dashed: false,
                    hint: None,
                    labelled: false,
                },
            )
            &&& (exists|k: int| 0 <= k < marks.len() && (#[trigger] marks[k]).bubble == i) ==> pointed || (b.is_static
                && v.show_static) || (!b.is_static && b.is_valid && v.show_bubbles) || (!b.is_static && !b.is_valid
                && v.show_rejected)
            &&& forall|k: int, l: int|
                0 <= k < l < marks.len() ==> (#[trigger] marks[k]).bubble < (#[trigger] marks[l]).bubble < bubbles.len()
        }),
{
    let n = bubbles.len() as int;
    lemma_screen_marks(v, bubbles, n);
    if on_screen(v, bubbles[i], i) {
        lemma_on_screen(v, bubbles, n, i);
    }
}

/// Corrections that can be taken back are spoken of by what their own fields hold.
pub proof fn correction_fields_are_spoken_of(stack: Seq<UndoAction>, i: int)
    requires
        0 <= i < stack.len(),
    ensures
        undo_views(stack).len() == stack.len(),
        stack[i] matches UndoAction::ToggleBubble { result_idx, frame_idx, bubble_idx, was_valid, was_static }
            ==> undo_views(stack)[i] == (UndoView::ToggleBubble {
            result_idx,
            frame_idx,
            bubble_idx,
            was_valid,
            was_static,
        }),
        stack[i] matches UndoAction::DiscardFrame { result_idx, frame_idx, frame } ==> undo_views(stack)[i] == (
        UndoView::DiscardFrame { result_idx, frame_idx, frame: frame@ }),
{
}

} // verus!
