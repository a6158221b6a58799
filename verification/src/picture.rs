//! Pictures as rows of red, green and blue bytes, and what is drawn on them.
use crate::decoding::can_convert;
use crate::decoding::decode_image_as;
use crate::decoding::decoded_view;
use crate::decoding::dimensions;
use crate::decoding::image_dims;
use crate::decoding::is_convertible;
use crate::decoding::may_decode_as;
use crate::decoding::rgb_bytes;
use crate::decoding::rgb_pixels;
use crate::text::opt_text;
use image::DynamicImage;
use image::Rgb;
use image::RgbImage;
use imageproc::drawing::draw_filled_rect_mut;
use imageproc::drawing::draw_hollow_circle_mut;
use imageproc::rect::Rect;
use vstd::arithmetic::div_mod::lemma_fundamental_div_mod_converse;
use vstd::prelude::*;

verus! {

/// A colour.
#[derive(Clone, Copy, Debug, PartialEq, Eq, Structural)]
pub struct Color {
    pub red: u8,
    pub green: u8,
    pub blue: u8,
}

/// A picture, row by row from the top, three bytes to a pixel.
#[derive(Debug)]
pub struct Picture {
    pub width: u32,
    pub height: u32,
    pub data: Vec<u8>,
}

/// The byte of a colour that stands at position `i` of a picture's data.
pub open spec fn channel(c: Color, i: int) -> u8 {
    if i % 3 == 0 {
        c.red
    } else if i % 3 == 1 {
        c.green
    } else {
        c.blue
    }
}

/// The column of the pixel that byte `i` belongs to.
pub open spec fn column_of(width: u32, i: int) -> int {
    (i / 3) % (width as int)
}

/// The row of the pixel that byte `i` belongs to.
pub open spec fn row_of(width: u32, i: int) -> int {
    (i / 3) / (width as int)
}

/// The number of bytes that a picture of this size takes.
pub open spec fn byte_count(width: u32, height: u32) -> int {
    3 * width * height
}

impl Picture {
    /// The data is that of a picture of this size.
    pub open spec fn wf(&self) -> bool {
        &&& self.data@.len() == byte_count(self.width, self.height)
        &&& 3 * self.width <= usize::MAX
    }
}

/// A rectangle of pixels.
#[derive(Clone, Copy, Debug, PartialEq, Eq, Structural)]
pub struct Area {
    pub left: i32,
    pub top: i32,
    pub width: u32,
    pub height: u32,
}

impl Area {
    /// The pixel at `x`, `y` lies in the rectangle.
    pub open spec fn holds(self, x: int, y: int) -> bool {
        self.left <= x < self.left + self.width && self.top <= y < self.top + self.height
    }

    /// The rectangle is not empty, and its far edges can be named.
    pub open spec fn wf(self) -> bool {
        &&& 0 < self.width && self.left + self.width <= i32::MAX
        &&& 0 < self.height && self.top + self.height <= i32::MAX
        &&& self.width <= i32::MAX && self.height <= i32::MAX
    }
}

/// The data of a picture with a rectangle filled.
pub open spec fn filled(width: u32, data: Seq<u8>, area: Area, color: Color) -> Seq<u8> {
    Seq::new(
        data.len(),
        |i: int|
            if area.holds(column_of(width, i), row_of(width, i)) {
                channel(color, i)
            } else {
                data[i]
            },
    )
}

/// Fills a rectangle, as far as it lies in the picture, through
/// `imageproc::drawing::draw_filled_rect_mut`. Claimed of it: the pixels of the
/// picture that lie in the rectangle take the colour, and no other pixel changes.
#[verifier::external_body]
fn draw_filled_rect(width: u32, height: u32, data: Vec<u8>, area: Area, color: Color) -> (r: Vec<u8>)
    requires
        data@.len() == byte_count(width, height),
        3 * width <= usize::MAX,
        0 < width <= i32::MAX,
        0 < height <= i32::MAX,
        area.wf(),
    ensures
        r@ == filled(width, data@, area, color),
{
    let mut image = RgbImage::from_raw(width, height, data).unwrap();
    let rect = Rect::at(area.left, area.top).of_size(area.width, area.height);
    draw_filled_rect_mut(&mut image, rect, Rgb([color.red, color.green, color.blue]));
    image.into_raw()
}

/// The data of a picture after `imageproc::drawing::draw_hollow_circle_mut` drew the
/// outline of a circle on it.
pub uninterp spec fn circle_drawn(
    width: u32,
    height: u32,
    data: Seq<u8>,
    cx: i32,
    cy: i32,
    radius: i32,
    red: u8,
    green: u8,
    blue: u8,
) -> Seq<u8>;

/// The largest radius of a circle that can be drawn without leaving the range of the
/// coordinates' arithmetic.
pub const MAX_RADIUS: i32 = 0x3fff_ffff;

/// Draws the outline of a circle, as far as it lies in the picture, through
/// `imageproc::drawing::draw_hollow_circle_mut`. Claimed of it: the outcome depends on
/// the picture, the circle and the colour alone, and every pixel either keeps its
/// bytes or takes the colour. Which pixels the outline covers is left unsaid.
#[verifier::external_body]
fn draw_hollow_circle(
    width: u32,
    height: u32,
    data: Vec<u8>,
    cx: i32,
    cy: i32,
    radius: i32,
    color: Color,
) -> (r: Vec<u8>)
    requires
        data@.len() == byte_count(width, height),
        3 * width <= usize::MAX,
        0 < radius <= MAX_RADIUS,
        i32::MIN <= cx - radius && cx + radius <= i32::MAX,
        i32::MIN <= cy - radius && cy + radius <= i32::MAX,
    ensures
        r@ == circle_drawn(width, height, data@, cx, cy, radius, color.red, color.green, color.blue),
        painted(data@, r@, color),
{
    let mut image = RgbImage::from_raw(width, height, data).unwrap();
    draw_hollow_circle_mut(&mut image, (cx, cy), radius, Rgb([color.red, color.green, color.blue]));
    image.into_raw()
}

/// Every pixel of `after` is that of `before` or has the colour.
pub open spec fn painted(before: Seq<u8>, after: Seq<u8>, color: Color) -> bool {
    &&& after.len() == before.len()
    &&& forall|p: int|
        0 <= p && 3 * p + 2 < after.len() ==> ({
            ||| #[trigger] after[3 * p] == before[3 * p] && after[3 * p + 1] == before[3 * p + 1] && after[3 * p + 2]
                == before[3 * p + 2]
            ||| after[3 * p] == color.red && after[3 * p + 1] == color.green && after[3 * p + 2] == color.blue
        })
}

/// The data of a picture with the circles of radius `lo` up to but not including `hi`
/// drawn about one centre.
pub open spec fn rings_drawn(
    width: u32,
    height: u32,
    data: Seq<u8>,
    cx: i32,
    cy: i32,
    lo: int,
    hi: int,
    color: Color,
) -> Seq<u8>
    decreases hi - lo,
{
    if hi <= lo {
        data
    } else {
        circle_drawn(
            width,
            height,
            rings_drawn(width, height, data, cx, cy, lo, hi - 1, color),
            cx,
            cy,
            (hi - 1) as i32,
            color.red,
            color.green,
            color.blue,
        )
    }
}

/// The smallest radius that a thick circle takes.
pub open spec fn inner_radius(r: int, thickness: int) -> int {
    if r - thickness / 2 >= 1 {
        r - thickness / 2
    } else {
        1
    }
}

/// The radius at which a thick circle ends.
pub open spec fn outer_radius(r: int, thickness: int) -> int {
    r + (thickness - thickness / 2)
}

impl Picture {
    /// Fills a rectangle, as far as it lies in the picture.
    pub fn fill(&mut self, area: Area, color: Color)
        requires
            old(self).wf(),
            0 < old(self).width <= i32::MAX,
            0 < old(self).height <= i32::MAX,
            area.wf(),
        ensures
            final(self).wf(),
            final(self).width == old(self).width,
            final(self).height == old(self).height,
            final(self).data@ == filled(old(self).width, old(self).data@, area, color),
    {
        let mut data: Vec<u8> = Vec::new();
        std::mem::swap(&mut data, &mut self.data);
        self.data = draw_filled_rect(self.width, self.height, data, area, color);
    }

    /// A picture of one colour.
    pub fn blank(width: u32, height: u32, color: Color) -> (r: Picture)
        requires
            0 < width <= i32::MAX,
            0 < height <= i32::MAX,
            byte_count(width, height) <= usize::MAX,
        ensures
            r.wf(),
            r.width == width,
            r.height == height,
            r.data@ == Seq::new(byte_count(width, height) as nat, |i: int| channel(color, i)),
    {
        assert(3 * width <= 3 * width * height) by (nonlinear_arith)
            requires
                0 < width,
                0 < height,
        ;
        assert(width * height <= byte_count(width, height)) by (nonlinear_arith)
            requires
                0 < width,
                0 < height,
                byte_count(width, height) == 3 * width * height,
        ;
        let pixels: usize = width as usize * height as usize;
        assert(3 * pixels == 3 * width * height) by (nonlinear_arith)
            requires
                pixels == width * height,
        ;
        let count: usize = 3 * pixels;
        let mut data: Vec<u8> = Vec::with_capacity(count);
        let mut i: usize = 0;
        while i < count
            invariant
                i <= count,
                data@.len() == i,
            decreases count - i,
        {
            data.push(0);
            i += 1;
        }
        let mut r = Picture { width, height, data };
        let ghost zeros = r.data@;
        r.fill(Area { left: 0, top: 0, width, height }, color);
        proof {
            assert forall|k: int| 0 <= k < byte_count(width, height) implies r.data@[k] == channel(color, k) by {
                assert(0 <= (k / 3) % (width as int) < width);
                assert(0 <= (k / 3) / (width as int) < height) by (nonlinear_arith)
                    requires
                        0 <= k < 3 * width * height,
                        0 < width,
                ;
            }
            assert(r.data@ =~= Seq::new(byte_count(width, height) as nat, |k: int| channel(color, k)));
        }
        r
    }

    /// Draws a circle of radius `r` with a line of the given thickness; a radius that
    /// is not positive draws nothing.
    pub fn draw_thick_circle(&mut self, cx: i32, cy: i32, r: i32, color: Color, thickness: i32)
        requires
            old(self).wf(),
            0 <= thickness,
            r + thickness <= MAX_RADIUS,
            r > 0 ==> i32::MIN <= cx - (r + thickness) && cx + (r + thickness) <= i32::MAX,
            r > 0 ==> i32::MIN <= cy - (r + thickness) && cy + (r + thickness) <= i32::MAX,
        ensures
            final(self).wf(),
            final(self).width == old(self).width,
            final(self).height == old(self).height,
            final(self).data@ == (if r <= 0 {
                old(self).data@
            } else {
                rings_drawn(
                    old(self).width,
                    old(self).height,
                    old(self).data@,
                    cx,
                    cy,
                    inner_radius(r as int, thickness as int),
                    outer_radius(r as int, thickness as int),
                    color,
                )
            }),
            painted(old(self).data@, final(self).data@, color),
    {
        if r <= 0 {
            return;
        }
        let half: i32 = thickness / 2;
        let lo: i32 = if r - half >= 1 {
            r - half
        } else {
            1
        };
        let hi: i32 = r + (thickness - half);
        let mut data: Vec<u8> = Vec::new();
        std::mem::swap(&mut data, &mut self.data);
        let ghost start = data@;
        let mut rr: i32 = lo;
        while rr < hi
            invariant
                1 <= lo <= rr,
                lo == inner_radius(r as int, thickness as int),
                hi == outer_radius(r as int, thickness as int),
                rr <= hi || rr == lo,
                hi <= r + thickness <= MAX_RADIUS,
                i32::MIN <= cx - (r + thickness) && cx + (r + thickness) <= i32::MAX,
                i32::MIN <= cy - (r + thickness) && cy + (r + thickness) <= i32::MAX,
                data@.len() == byte_count(self.width, self.height),
                3 * self.width <= usize::MAX,
                self.width == old(self).width,
                self.height == old(self).height,
                start == old(self).data@,
                painted(start, data@, color),
                data@ == rings_drawn(self.width, self.height, start, cx, cy, lo as int, rr as int, color),
            decreases hi - rr,
        {
            data = draw_hollow_circle(self.width, self.height, data, cx, cy, rr, color);
            rr += 1;
        }
        self.data = data;
    }
}

/// The picture that decoding gave: every pixel of the image, or the text of the error. An
/// image whose bytes do not fit into memory is an error too.
pub open spec fn read_as(decoded: Result<DynamicImage, Seq<char>>, r: Result<Picture, String>) -> bool {
    match decoded {
        Err(text) => r matches Err(e) && e@ == text,
        Ok(img) => if can_convert(image_dims(img)) {
            &&& r matches Ok(p)
            &&& p.wf()
            &&& (p.width, p.height) == image_dims(img)
            &&& p.data@ == rgb_pixels(img)
        } else {
            r matches Err(e) && e@ == "image too large"@
        },
    }
}

/// The picture that decoding gave.
pub fn decoded_picture(decoded: Result<DynamicImage, String>) -> (r: Result<Picture, String>)
    ensures
        read_as(decoded_view(decoded), r),
        decoded matches Err(e) ==> (r matches Err(text) && text@ == e@),
        decoded matches Ok(img) ==> {
            let (w, h) = image_dims(img);
            &&& r matches Ok(p) ==> p.width == w && p.height == h && p.data@.len() == 3 * w * h && p.data@ == rgb_pixels(img)
            &&& r is Ok <==> 4 * (w * h) <= isize::MAX && 4 * w <= isize::MAX
            &&& r matches Err(text) ==> text@ == "image too large"@
        },
{
    match decoded {
        Err(e) => Err(e),
        Ok(img) => {
            let (width, height) = dimensions(&img);
            if !is_convertible((width, height)) {
                return Err("image too large".to_owned());
            }
            Ok(Picture { width, height, data: rgb_bytes(&img) })
        },
    }
}

/// The extension that a format is looked up by: an empty one is none.
pub open spec fn given_extension(extension: Option<Seq<char>>) -> Option<Seq<char>> {
    match extension {
        Some(e) => if e.len() == 0 {
            None
        } else {
            Some(e)
        },
        None => None,
    }
}

/// The picture that an overlay is drawn on: the content of an image file, decoded in the
/// format of the file's extension.
pub fn overlay_picture(data: &Vec<u8>, extension: &Option<String>) -> (r: Result<Picture, String>)
    ensures
        exists|decoded: Result<DynamicImage, Seq<char>>|
            may_decode_as(data@, given_extension(opt_text(*extension)), decoded) && #[trigger] read_as(decoded, r),
{
    let given: Option<String> = match extension {
        Some(e) => {
            if e.as_str().is_empty() {
                None
            } else {
                Some(e.clone())
            }
        },
        None => None,
    };
    let decoded = decode_image_as(data, &given);
    let ghost found = decoded_view(decoded);
    let r = decoded_picture(decoded);
    assert(read_as(found, r));
    r
}

/// The width of one histogram.
pub const HIST_W: u32 = 900;

/// The height of one histogram.
pub const HIST_H: u32 = 540;

/// A white picture of the size of one histogram.
pub fn blank_canvas() -> (r: Picture)
    ensures
        r.wf(),
        r.width == HIST_W,
        r.height == HIST_H,
        r.data@ == Seq::new(byte_count(HIST_W, HIST_H) as nat, |i: int| 255u8),
        r.width == 900,
        r.height == 540,
{
    let r = Picture::blank(HIST_W, HIST_H, Color { red: 255, green: 255, blue: 255 });
    assert(r.data@ =~= Seq::new(byte_count(HIST_W, HIST_H) as nat, |i: int| 255u8));
    r
}

/// `cols` is the least number of columns whose square holds `n` tiles.
pub open spec fn is_column_count(n: int, cols: int) -> bool {
    cols >= 1 && cols * cols >= n && (cols - 1) * (cols - 1) < n
}

/// How many rows of `cols` tiles hold `n` of them.
pub open spec fn row_count(n: int, cols: int) -> int {
    (n + cols - 1) / cols
}

/// The number of columns and rows in which `n` tiles are laid out.
pub fn grid(n: usize) -> (r: (u32, u32))
    requires
        0 < n <= MAX_TILES,
    ensures
        is_column_count(n as int, r.0 as int),
        r.1 == row_count(n as int, r.0 as int),
        (r.0 - 1) * (r.0 - 1) < n <= r.0 * r.0,
        1 <= r.1 <= r.0 <= 2048,
        (r.1 - 1) * r.0 < n <= r.1 * r.0,
{
    let mut cols: u32 = 1;
    assert((1 - 1) * (1 - 1) == 0) by (nonlinear_arith);
    assert(1 * 1 == 1) by (nonlinear_arith);
    while (cols as usize) * (cols as usize) < n
        invariant
            1 <= cols <= 2048,
            0 < n <= MAX_TILES,
            cols * cols <= 0x40_0000,
            (cols - 1) * (cols - 1) < n,
        decreases 2048 - cols,
    {
        assert(cols < 2048) by (nonlinear_arith)
            requires
                cols * cols < n,
                n <= 0x40_0000,
                cols <= 2048,
        ;
        cols += 1;
        assert(cols * cols <= 0x40_0000) by (nonlinear_arith)
            requires
                1 <= cols <= 2048,
        ;
    }
    let rows: usize = (n + cols as usize - 1) / cols as usize;
    proof {
        let c = cols as int;
        let q = rows as int;
        assert(q == (n + c - 1) / c);
        assert((q - 1) * c < n <= q * c && 1 <= q <= c) by (nonlinear_arith)
            requires
                c >= 1,
                n >= 1,
                c * c >= n,
                q == (n + c - 1) / c,
        ;
    }
    (cols, rows as u32)
}

/// The most tiles that can be laid out on one canvas.
pub const MAX_TILES: usize = 0x40_0000;

/// A byte of the canvas on which `tiles` are laid out in `cols` columns: that of the
/// tile that stands there, or white where there is none.
pub open spec fn tiled_byte(tiles: Seq<Seq<u8>>, cols: int, y: int, x: int, k: int) -> u8 {
    let t = (y / HIST_H as int) * cols + x / HIST_W as int;
    if t < tiles.len() {
        tiles[t][3 * ((y % HIST_H as int) * HIST_W + x % HIST_W as int) + k]
    } else {
        255
    }
}

/// The canvas on which `tiles` are laid out in `cols` columns and `rows` rows.
pub open spec fn tiled(tiles: Seq<Seq<u8>>, cols: u32, rows: u32) -> Seq<u8> {
    Seq::new(
        byte_count((cols * HIST_W) as u32, (rows * HIST_H) as u32) as nat,
        |i: int|
            tiled_byte(
                tiles,
                cols as int,
                row_of((cols * HIST_W) as u32, i),
                column_of((cols * HIST_W) as u32, i),
                i % 3,
            ),
    )
}

/// Every tile has the size of a histogram.
pub open spec fn are_tiles(tiles: Seq<Picture>) -> bool {
    forall|t: int|
        0 <= t < tiles.len() ==> (#[trigger] tiles[t]).width == HIST_W && tiles[t].height == HIST_H && tiles[t].wf()
}

/// The bytes of the canvas for `n` tiles can be counted by a machine integer.
pub open spec fn canvas_fits(n: int) -> bool {
    forall|cols: int|
        n > 0 && is_column_count(n, cols) ==> 3 * (cols * HIST_W) * (#[trigger] row_count(n, cols) * HIST_H)
            <= usize::MAX
}

/// The place of a byte gives its row, its column and its channel.
pub proof fn lemma_pixel_place(width: u32, height: u32, y: int, x: int, k: int)
    requires
        0 <= y < height,
        0 <= x < width,
        0 <= k < 3,
    ensures
        ({
            let i = 3 * (y * width + x) + k;
            &&& row_of(width, i) == y
            &&& column_of(width, i) == x
            &&& i % 3 == k
            &&& 0 <= i < byte_count(width, height)
        }),
{
    let p = y * width + x;
    let i = 3 * p + k;
    assert(i / 3 == p && i % 3 == k);
    lemma_fundamental_div_mod_converse(p, width as int, y, x);
    assert(0 <= p < width * height) by (nonlinear_arith)
        requires
            p == y * width + x,
            0 <= y < height,
            0 <= x < width,
    ;
    assert(3 * width * height == 3 * (width * height)) by (nonlinear_arith);
}

/// Every byte of every tile is found on the canvas, at the tile's place in the grid.
pub proof fn tile_stands_on_canvas(tiles: Seq<Seq<u8>>, cols: u32, rows: u32, t: int, y: int, x: int, k: int)
    requires
        1 <= cols <= 2048,
        rows <= 2048,
        0 <= t < tiles.len() <= rows * cols,
        0 <= y < HIST_H,
        0 <= x < HIST_W,
        0 <= k < 3,
    ensures
        tiled(tiles, cols, rows)[3 * ((t / (cols as int) * HIST_H + y) * (cols * HIST_W) + (t % (cols as int) * HIST_W
            + x)) + k] == tiles[t][3 * (y * HIST_W + x) + k],
{
    let c = cols as int;
    let row = t / c;
    let col = t % c;
    assert(0 <= row < rows && 0 <= col < c && row * c + col == t) by (nonlinear_arith)
        requires
            1 <= c,
            0 <= t < rows * c,
            row == t / c,
            col == t % c,
    ;
    let width = (cols * HIST_W) as u32;
    let height = (rows * HIST_H) as u32;
    let cy = row * HIST_H + y;
    let cx = col * HIST_W + x;
    lemma_pixel_place(width, height, cy, cx, k);
    assert(cy / HIST_H as int == row && cy % HIST_H as int == y);
    assert(cx / HIST_W as int == col && cx % HIST_W as int == x);
}

/// Lays out histograms on one canvas, row by row in a grid as square as can be.
/// Nothing is made of no tiles.
pub fn combine(tiles: &Vec<Picture>) -> (r: Option<Picture>)
    requires
        are_tiles(tiles@),
        tiles@.len() <= MAX_TILES,
        canvas_fits(tiles@.len() as int),
    ensures
        r is None <==> tiles@.len() == 0,
        r matches Some(canvas) ==> {
            let n = tiles@.len() as int;
            let cols = canvas.width / HIST_W;
            let rows = canvas.height / HIST_H;
            &&& canvas.wf()
            &&& is_column_count(n, cols as int)
            &&& rows == row_count(n, cols as int)
            &&& canvas.width == cols * HIST_W
            &&& canvas.height == rows * HIST_H
            &&& canvas.data@ == tiled(tiles@.map_values(|t: Picture| t.data@), cols, rows)
            &&& (cols - 1) * (cols - 1) < n <= cols * cols
            &&& (rows - 1) * cols < n <= rows * cols
        },
{
    let n: usize = tiles.len();
    if n == 0 {
        return None;
    }
    let (cols, rows) = grid(n);
    let width: u32 = cols * HIST_W;
    let height: u32 = rows * HIST_H;
    let ghost all = tiled(tiles@.map_values(|t: Picture| t.data@), cols, rows);
    proof {
        assert(3 * (cols * HIST_W) * (row_count(n as int, cols as int) * HIST_H) <= usize::MAX);
        assert(3 * width * height == 3 * (cols * HIST_W) * (rows * HIST_H)) by (nonlinear_arith)
            requires
                width == cols * HIST_W,
                height == rows * HIST_H,
        ;
        assert(width / HIST_W == cols && height / HIST_H == rows);
    }
    let mut data: Vec<u8> = Vec::new();
    let mut y: u32 = 0;
    assert(3 * (0 * width + 0) == 0) by (nonlinear_arith);
    while y < height
        invariant
            y <= height,
            n == tiles@.len(),
            are_tiles(tiles@),
            1 <= cols <= 2048,
            width == cols * HIST_W,
            height == rows * HIST_H,
            rows <= 2048,
            all == tiled(tiles@.map_values(|t: Picture| t.data@), cols, rows),
            all.len() == byte_count(width, height),
            data@ == all.take(3 * (y * width + 0)),
            0 <= 3 * (y * width + 0) <= all.len(),
        decreases height - y,
    {
        let mut x: u32 = 0;
        while x < width
            invariant
                y < height,
                x <= width,
                n == tiles@.len(),
                are_tiles(tiles@),
                1 <= cols <= 2048,
                width == cols * HIST_W,
                height == rows * HIST_H,
                rows <= 2048,
                all == tiled(tiles@.map_values(|t: Picture| t.data@), cols, rows),
                all.len() == byte_count(width, height),
                data@ == all.take(3 * (y * width + x)),
                0 <= 3 * (y * width + x) <= all.len(),
            decreases width - x,
        {
            proof {
                assert(0 <= (y / HIST_H) * cols <= 2048 * 2048) by (nonlinear_arith)
                    requires
                        y / HIST_H <= 2048,
                        0 <= y / HIST_H,
                        0 <= cols <= 2048,
                ;
            }
            let row: u32 = y % HIST_H;
            assert(row * 900 <= 540 * 900);
            let t: usize = (y / HIST_H) as usize * cols as usize + (x / HIST_W) as usize;
            let at: usize = 3 * (row as usize * 900 + (x % HIST_W) as usize);
            proof {
                lemma_pixel_place(width, height, y as int, x as int, 0);
                lemma_pixel_place(width, height, y as int, x as int, 1);
                lemma_pixel_place(width, height, y as int, x as int, 2);
            }
            let ghost was = data@;
            if t < n {
                assert(tiles@[t as int].width == HIST_W);
                let tile = &tiles[t];
                data.push(tile.data[at]);
                data.push(tile.data[at + 1]);
                data.push(tile.data[at + 2]);
            } else {
                data.push(255);
                data.push(255);
                data.push(255);
            }
            proof {
                let p = 3 * (y * width + x);
                assert(data@[p] == all[p]);
                assert(data@[p + 1] == all[p + 1]);
                assert(data@[p + 2] == all[p + 2]);
                assert(data@ =~= all.take(p + 3));
            }
            x += 1;
        }
        proof {
            assert(y * width + width == (y + 1) * width) by (nonlinear_arith);
        }
        y += 1;
    }
    proof {
        assert(3 * (height * width + 0) == 3 * width * height) by (nonlinear_arith);
        assert(data@ =~= all);
    }
    Some(Picture { width, height, data })
}

/// The smaller side of a picture decides how thick its circles are: one pixel for each
/// six hundred, rounded, between two and six.
pub open spec fn line_thickness(width: u32, height: u32) -> int {
    let side = if width <= height {
        width as int
    } else {
        height as int
    };
    let rounded = (side + 300) / 600;
    if rounded < 2 {
        2
    } else if rounded > 6 {
        6
    } else {
        rounded
    }
}

/// The thickness of the circles on a picture of this size.
pub fn overlay_thickness(width: u32, height: u32) -> (r: i32)
    ensures
        r == line_thickness(width, height),
        2 <= r <= 6,
        2 < r ==> 600 * r - 300 <= width && 600 * r - 300 <= height,
        r < 6 ==> width < 600 * r + 300 || height < 600 * r + 300,
{
    let side: u64 = if width <= height {
        width as u64
    } else {
        height as u64
    };
    let rounded: u64 = (side + 300) / 600;
    if rounded < 2 {
        2
    } else if rounded > 6 {
        6
    } else {
        rounded as i32
    }
}

/// A place in the grid that no tile stands on is white.
pub proof fn canvas_is_white_elsewhere(tiles: Seq<Seq<u8>>, cols: u32, rows: u32, t: int, y: int, x: int, k: int)
    requires
        1 <= cols <= 2048,
        rows <= 2048,
        tiles.len() <= t < rows * cols,
        0 <= y < HIST_H,
        0 <= x < HIST_W,
        0 <= k < 3,
    ensures
        tiled(tiles, cols, rows)[3 * ((t / (cols as int) * HIST_H + y) * (cols * HIST_W) + (t % (cols as int) * HIST_W
            + x)) + k] == 255,
{
    let c = cols as int;
    let row = t / c;
    let col = t % c;
    assert(0 <= row < rows && 0 <= col < c && row * c + col == t) by (nonlinear_arith)
        requires
            1 <= c,
            0 <= t < rows * c,
            row == t / c,
            col == t % c,
    ;
    let width = (cols * HIST_W) as u32;
    let height = (rows * HIST_H) as u32;
    let cy = row * HIST_H + y;
    let cx = col * HIST_W + x;
    lemma_pixel_place(width, height, cy, cx, k);
    assert(cy / HIST_H as int == row && cy % HIST_H as int == y);
    assert(cx / HIST_W as int == col && cx % HIST_W as int == x);
}

/// Filling a rectangle gives its pixels the colour, byte by byte, and leaves all others.
pub proof fn filling_colours_the_rectangle(
    width: u32,
    height: u32,
    data: Seq<u8>,
    area: Area,
    color: Color,
    x: int,
    y: int,
)
    requires
        data.len() == 3 * width * height,
        0 <= x < width,
        0 <= y < height,
    ensures
        ({
            let after = filled(width, data, area, color);
            let at = 3 * (y * width + x);
            let inside = area.left <= x < area.left + area.width && area.top <= y < area.top + area.height;
            &&& after.len() == data.len()
            &&& inside ==> after[at] == color.red && after[at + 1] == color.green && after[at + 2] == color.blue
            &&& !inside ==> after[at] == data[at] && after[at + 1] == data[at + 1] && after[at + 2] == data[at + 2]
        }),
{
    lemma_pixel_place(width, height, y, x, 0);
    lemma_pixel_place(width, height, y, x, 1);
    lemma_pixel_place(width, height, y, x, 2);
}

/// The rings of a thick circle have every whole radius from the first to before the last, each
/// drawn once, from the inside out, upon what the ones before have left.
pub proof fn rings_follow_each_other(
    width: u32,
    height: u32,
    data: Seq<u8>,
    cx: i32,
    cy: i32,
    lo: int,
    hi: int,
    color: Color,
)
    requires
        lo <= hi,
    ensures
        rings_drawn(width, height, data, cx, cy, lo, hi, color) == Seq::new((hi - lo) as nat, |k: int| lo + k).fold_left(
            data,
            |d: Seq<u8>, radius: int|
                circle_drawn(width, height, d, cx, cy, radius as i32, color.red, color.green, color.blue),
        ),
    decreases hi - lo,
{
    if lo < hi {
        rings_follow_each_other(width, height, data, cx, cy, lo, hi - 1, color);
        let radii = Seq::new((hi - lo) as nat, |k: int| lo + k);
        assert(radii.drop_last() =~= Seq::new((hi - 1 - lo) as nat, |k: int| lo + k));
        assert(radii.last() == hi - 1);
    }
}

/// A thick circle has as many rings as it is thick, as far as there is room about its centre,
/// with the asked radius in the middle of them: inside it as many as outside, or one more.
pub proof fn thick_circle_is_centred(r: int, thickness: int)
    requires
        0 < r,
        0 <= thickness,
    ensures
        1 <= inner_radius(r, thickness) <= r,
        r <= outer_radius(r, thickness),
        0 < thickness ==> r < outer_radius(r, thickness),
        1 < inner_radius(r, thickness) ==> outer_radius(r, thickness) - inner_radius(r, thickness) == thickness,
        1 < inner_radius(r, thickness) ==> 0 <= (outer_radius(r, thickness) - r) - (r - inner_radius(r, thickness)) <= 1,
        inner_radius(r, thickness) == 1 ==> r <= thickness / 2 + 1,
        0 <= 2 * (outer_radius(r, thickness) - r) - thickness <= 1,
{
}

/// A format is looked up by the extension itself, unless there is none or it is empty.
pub proof fn extension_is_taken_as_given(e: Seq<char>)
    ensures
        given_extension(None) is None,
        e.len() == 0 ==> given_extension(Some(e)) is None,
        e.len() > 0 ==> given_extension(Some(e)) == Some(e),
{
}

} // verus!
