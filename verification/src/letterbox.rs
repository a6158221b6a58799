//! An image fitted into the model's square.
use crate::calc::answered;
use crate::calc::ask;
use crate::calc::computes;
use crate::calc::result_of;
use crate::decoding::can_convert;
use crate::decoding::can_resize;
use crate::decoding::decode_image;
use crate::decoding::dimensions;
use crate::decoding::image_dims;
use crate::decoding::may_decode;
use crate::decoding::resize;
use crate::decoding::resized;
use crate::decoding::rgb_bytes;
use crate::decoding::rgb_pixels;
use crate::decoding::MAX_SIDE;
use crate::inference::PAD_GREY;
use crate::picture::byte_count;
use crate::text::opt_text;
use crate::types::lemma_take_step;
use image::DynamicImage;
use vstd::arithmetic::div_mod::lemma_fundamental_div_mod_converse;
use vstd::prelude::*;
use vstd::string::StringExecFns;

verus! {

/// Where an extent of `n` starts when it is centred in `size`.
pub open spec fn offset(size: u32, n: u32) -> int {
    (size - n) / 2
}

/// The byte at row `y`, column `x` of channel `c`: that of the image, which stands in
/// the middle of the square, or the padding grey outside it.
pub open spec fn plane_byte(size: u32, new_w: u32, new_h: u32, pixels: Seq<u8>, c: int, y: int, x: int) -> u8 {
    let sx = x - offset(size, new_w);
    let sy = y - offset(size, new_h);
    if 0 <= sx < new_w && 0 <= sy < new_h {
        pixels[3 * (sy * new_w + sx) + c]
    } else {
        PAD_GREY
    }
}

/// The three channels of the square, one after the other, each row by row.
pub open spec fn planes(size: u32, new_w: u32, new_h: u32, pixels: Seq<u8>) -> Seq<u8> {
    Seq::new(
        (3 * (size * size)) as nat,
        |i: int|
            plane_byte(
                size,
                new_w,
                new_h,
                pixels,
                (i / (size as int)) / (size as int),
                (i / (size as int)) % (size as int),
                i % (size as int),
            ),
    )
}

/// The place of row `y`, column `x` of channel `c` in the planes.
proof fn lemma_place(size: u32, c: int, y: int, x: int)
    requires
        0 <= c < 3,
        0 <= y < size,
        0 <= x < size,
    ensures
        ({
            let i = (c * size + y) * size + x;
            &&& i % (size as int) == x
            &&& i / (size as int) == c * size + y
            &&& (i / (size as int)) / (size as int) == c
            &&& (i / (size as int)) % (size as int) == y
            &&& 0 <= i < 3 * (size * size)
        }),
{
    let i = (c * size + y) * size + x;
    lemma_fundamental_div_mod_converse(i, size as int, c * size + y, x);
    lemma_fundamental_div_mod_converse(c * size + y, size as int, c, y);
    assert(0 <= (c * size + y) * size + x < 3 * (size * size)) by (nonlinear_arith)
        requires
            0 <= c <= 2,
            0 <= y < size,
            0 <= x < size,
    ;
}

/// Every byte of the image is found in the planes, moved by the offsets; nothing is lost.
pub proof fn image_stands_in_planes(size: u32, new_w: u32, new_h: u32, pixels: Seq<u8>, c: int, sy: int, sx: int)
    requires
        new_w <= size,
        new_h <= size,
        pixels.len() == byte_count(new_w, new_h),
        0 <= c < 3,
        0 <= sy < new_h,
        0 <= sx < new_w,
    ensures
        planes(size, new_w, new_h, pixels)[(c * size + (sy + offset(size, new_h))) * size + (sx + offset(
            size,
            new_w,
        ))] == pixels[3 * (sy * new_w + sx) + c],
{
    lemma_place(size, c, sy + offset(size, new_h), sx + offset(size, new_w));
}

/// Puts an image of `new_w` by `new_h` pixels into the middle of a square, and lays
/// out the square channel by channel.
pub fn letterbox_planes(size: u32, new_w: u32, new_h: u32, pixels: &Vec<u8>) -> (r: Vec<u8>)
    requires
        new_w <= size,
        new_h <= size,
        pixels@.len() == byte_count(new_w, new_h),
        3 * (size * size) <= usize::MAX,
    ensures
        r@ == planes(size, new_w, new_h, pixels@),
{
    let ox: u32 = (size - new_w) / 2;
    let oy: u32 = (size - new_h) / 2;
    let ghost all = planes(size, new_w, new_h, pixels@);
    let mut out: Vec<u8> = Vec::new();
    let mut c: u32 = 0;
    assert(0 * size == 0) by (nonlinear_arith);
    assert((0 * size + 0) * size == 0) by (nonlinear_arith);
    while c < 3
        invariant
            c <= 3,
            new_w <= size,
            new_h <= size,
            ox == offset(size, new_w),
            oy == offset(size, new_h),
            pixels@.len() == byte_count(new_w, new_h),
            3 * (size * size) <= usize::MAX,
            all == planes(size, new_w, new_h, pixels@),
            out@ == all.take((c * size + 0) * size),
            0 <= (c * size + 0) * size <= all.len(),
        decreases 3 - c,
    {
        let mut y: u32 = 0;
        while y < size
            invariant
                c < 3,
                y <= size,
                new_w <= size,
                new_h <= size,
                ox == offset(size, new_w),
                oy == offset(size, new_h),
                pixels@.len() == byte_count(new_w, new_h),
                3 * (size * size) <= usize::MAX,
                all == planes(size, new_w, new_h, pixels@),
                out@ == all.take((c * size + y) * size),
                0 <= (c * size + y) * size <= all.len(),
            decreases size - y,
        {
            let mut x: u32 = 0;
            while x < size
                invariant
                    c < 3,
                    y < size,
                    x <= size,
                    new_w <= size,
                    new_h <= size,
                    ox == offset(size, new_w),
                    oy == offset(size, new_h),
                    pixels@.len() == byte_count(new_w, new_h),
                    3 * (size * size) <= usize::MAX,
                    all == planes(size, new_w, new_h, pixels@),
                    out@ == all.take((c * size + y) * size + x),
                    0 <= (c * size + y) * size + x <= all.len(),
                decreases size - x,
            {
                let inside: bool = ox <= x && x - ox < new_w && oy <= y && y - oy < new_h;
                let byte: u8 = if inside {
                    proof {
                        let sx = x - ox;
                        let sy = y - oy;
                        assert(0 <= sy * new_w + sx < new_w * new_h) by (nonlinear_arith)
                            requires
                                0 <= sx < new_w,
                                0 <= sy < new_h,
                        ;
                        assert(new_w * new_h <= size * size) by (nonlinear_arith)
                            requires
                                0 <= new_w <= size,
                                0 <= new_h <= size,
                        ;
                        assert(byte_count(new_w, new_h) == 3 * (new_w * new_h)) by (nonlinear_arith)
                            requires
                                byte_count(new_w, new_h) == 3 * new_w * new_h,
                        ;
                        assert(0 <= sy * new_w) by (nonlinear_arith)
                            requires
                                0 <= sy,
                                0 <= new_w,
                        ;
                    }
                    let at: usize = (y - oy) as usize * new_w as usize + (x - ox) as usize;
                    pixels[3 * at + c as usize]
                } else {
                    PAD_GREY
                };
                proof {
                    lemma_place(size, c as int, y as int, x as int);
                    lemma_take_step(all, (c * size + y) * size + x);
                }
                out.push(byte);
                assert(out@ =~= all.take((c * size + y) * size + x + 1));
                x += 1;
            }
            proof {
                assert((c * size + y) * size + size == (c * size + (y + 1)) * size) by (nonlinear_arith);
            }
            y += 1;
        }
        proof {
            assert((c * size + size) * size == ((c + 1) * size + 0) * size) by (nonlinear_arith);
        }
        c += 1;
    }
    proof {
        assert((3 * size + 0) * size == 3 * (size * size)) by (nonlinear_arith);
        assert(out@ =~= all);
    }
    out
}

/// An image ready for the model, with its own size, the size that it has in the square, and
/// where it starts in there.
#[derive(Debug)]
pub struct ModelInput {
    pub width: u32,
    pub height: u32,
    pub new_w: u32,
    pub new_h: u32,
    pub pad_x: u32,
    pub pad_y: u32,
    pub planes: Vec<u8>,
}

/// What is said of an image that cannot be decoded.
pub open spec fn decoding_failed(path: Seq<char>) -> Seq<char> {
    "decoding image "@ + path
}

/// What is said of an image that cannot be resized in memory.
pub open spec fn too_large(path: Seq<char>) -> Seq<char> {
    "image too large to resize: "@ + path
}

/// The image fitted into the square: resized to what `fit` gives for its size, and laid out
/// in the middle.
pub open spec fn letterboxed<F: Fn((u32, u32)) -> (u32, u32)>(
    img: DynamicImage,
    size: u32,
    fit: F,
    input: ModelInput,
) -> bool {
    let (width, height) = image_dims(img);
    let (new_w, new_h) = result_of(fit, (width, height));
    &&& input.width == width
    &&& input.height == height
    &&& input.new_w == new_w
    &&& input.new_h == new_h
    &&& input.pad_x == offset(size, new_w)
    &&& input.pad_y == offset(size, new_h)
    &&& input.planes@ == planes(size, new_w, new_h, rgb_pixels(resized(img, new_w, new_h)))
}

/// The image can be resized to any size that fits into the square.
pub open spec fn can_fit(img: DynamicImage, size: u32) -> bool {
    16 * (image_dims(img).0 * size) <= isize::MAX
}

/// `fit` gives sizes that fit into the square.
pub open spec fn fits<F: Fn((u32, u32)) -> (u32, u32)>(fit: F, size: u32) -> bool {
    forall|wh: (u32, u32), r: (u32, u32)| #[trigger]
        call_ensures(fit, (wh,), r) ==> r.0 <= size && r.1 <= size
}

/// A square of this size can be laid out and resized to.
pub open spec fn square_fits(size: u32) -> bool {
    size <= MAX_SIDE && 16 * (size * size) <= isize::MAX
}

proof fn lemma_fits(w: u32, size: u32, new_w: u32, new_h: u32)
    requires
        square_fits(size),
        16 * (w * size) <= isize::MAX,
        new_w <= size,
        new_h <= size,
    ensures
        can_resize(w, new_w, new_h),
        can_convert((new_w, new_h)),
        3 * (size * size) <= usize::MAX,
{
    assert(16 * (w * new_h) <= 16 * (w * size)) by (nonlinear_arith)
        requires
            0 <= new_h <= size,
            0 <= w,
    ;
    assert(16 * (new_w * new_h) <= 16 * (size * size)) by (nonlinear_arith)
        requires
            0 <= new_w <= size,
            0 <= new_h <= size,
    ;
    assert(0 <= size * size) by (nonlinear_arith);
    assert(0 <= new_w * new_h) by (nonlinear_arith);
}

/// Fits an image into the model's square and lays out its channels. `fit` gives the size
/// that an image of a given size has in the square.
pub fn letterbox<F: Fn((u32, u32)) -> (u32, u32)>(img: &DynamicImage, size: u32, fit: F) -> (input: ModelInput)
    requires
        computes(fit),
        fits(fit, size),
        square_fits(size),
        can_fit(*img, size),
    ensures
        letterboxed(*img, size, fit, input),
        answered(fit, image_dims(*img)),
        input.width == image_dims(*img).0,
        input.height == image_dims(*img).1,
        (input.new_w, input.new_h) == result_of(fit, image_dims(*img)),
        0 <= (size - input.new_w - input.pad_x) - input.pad_x <= 1,
        0 <= (size - input.new_h - input.pad_y) - input.pad_y <= 1,
        input.planes@.len() == 3 * (size * size),
{
    let (width, height) = dimensions(img);
    let (new_w, new_h) = ask(&fit, (width, height));
    proof {
        assert(new_w <= size && new_h <= size);
        lemma_fits(width, size, new_w, new_h);
    }
    let pixels = rgb_bytes(&resize(img, new_w, new_h));
    let planes = letterbox_planes(size, new_w, new_h, &pixels);
    let pad_x: u32 = (size - new_w) / 2;
    let pad_y: u32 = (size - new_h) / 2;
    ModelInput { width, height, new_w, new_h, pad_x, pad_y, planes }
}

/// The outcome for what decoding gave.
pub open spec fn prepared<F: Fn((u32, u32)) -> (u32, u32)>(
    path: Seq<char>,
    size: u32,
    decoded: Option<DynamicImage>,
    fit: F,
    r: Result<ModelInput, String>,
) -> bool {
    match decoded {
        None => r matches Err(e) && e@ == decoding_failed(path),
        Some(img) => if can_fit(img, size) {
            &&& answered(fit, image_dims(img))
            &&& r matches Ok(input)
            &&& letterboxed(img, size, fit, input)
        } else {
            r matches Err(e) && e@ == too_large(path)
        },
    }
}

/// Fits an image into the model's square, where it was decoded and can be resized.
pub fn model_input<F: Fn((u32, u32)) -> (u32, u32)>(
    path: &String,
    decoded: Option<DynamicImage>,
    size: u32,
    fit: F,
) -> (r: Result<ModelInput, String>)
    requires
        computes(fit),
        fits(fit, size),
        square_fits(size),
    ensures
        prepared(path@, size, decoded, fit, r),
        decoded is None ==> (r matches Err(e) && e@ == "decoding image "@ + path@),
        decoded is Some && r is Err ==> (r matches Err(e) && e@ == "image too large to resize: "@ + path@),
        decoded matches Some(img) ==> (r is Ok <==> 16 * (image_dims(img).0 * size) <= isize::MAX),
        decoded matches Some(img) ==> (r matches Ok(input) ==> letterboxed(img, size, fit, input)),
{
    match decoded {
        None => {
            let mut text = "decoding image ".to_owned();
            text.append(path.as_str());
            Err(text)
        },
        Some(img) => {
            let (width, _height) = dimensions(&img);
            let most: u128 = isize::MAX as u128;
            assert(16 * (width * size) <= 16 * (0xffff_ffff * 0xffff_ffff)) by (nonlinear_arith)
                requires
                    0 <= width <= 0xffff_ffff,
                    0 <= size <= 0xffff_ffff,
            ;
            if 16 * (width as u128 * size as u128) <= most {
                Ok(letterbox(&img, size, fit))
            } else {
                let mut text = "image too large to resize: ".to_owned();
                text.append(path.as_str());
                Err(text)
            }
        },
    }
}

/// Decodes the content of an image file with this extension, fits the image into the model's
/// square and lays out its channels. `fit` gives the size that an image of a given size has
/// in the square.
pub fn prepare_image<F: Fn((u32, u32)) -> (u32, u32)>(
    path: &String,
    data: &Vec<u8>,
    extension: &Option<String>,
    size: u32,
    fit: F,
) -> (r: Result<ModelInput, String>)
    requires
        computes(fit),
        fits(fit, size),
        square_fits(size),
    ensures
        exists|decoded: Option<DynamicImage>|
            may_decode(data@, opt_text(*extension), decoded) && #[trigger] prepared(path@, size, decoded, fit, r),
{
    let decoded = decode_image(data, extension);
    let ghost found = decoded;
    let r = model_input(path, decoded, size, fit);
    assert(prepared(path@, size, found, fit, r));
    r
}

/// A byte of the square is that of the image where the image stands, with as much room left of
/// it as right of it and above as below, up to one pixel, and the padding grey elsewhere.
pub proof fn square_holds_image_and_grey(
    size: u32,
    new_w: u32,
    new_h: u32,
    pixels: Seq<u8>,
    c: int,
    y: int,
    x: int,
    left: int,
    top: int,
)
    requires
        new_w <= size,
        new_h <= size,
        pixels.len() == 3 * new_w * new_h,
        0 <= c < 3,
        0 <= y < size,
        0 <= x < size,
        0 <= (size - new_w - left) - left <= 1,
        0 <= (size - new_h - top) - top <= 1,
    ensures
        ({
            let all = planes(size, new_w, new_h, pixels);
            let at = c * (size * size) + y * size + x;
            let inside = left <= x < left + new_w && top <= y < top + new_h;
            &&& all.len() == 3 * (size * size)
            &&& 0 <= at < all.len()
            &&& inside ==> all[at] == pixels[3 * ((y - top) * new_w + (x - left)) + c]
            &&& !inside ==> all[at] == 114
        }),
{
    lemma_place(size, c, y, x);
    assert((c * size + y) * size + x == c * (size * size) + y * size + x) by (nonlinear_arith);
    assert(0 <= size * size) by (nonlinear_arith);
    assert(left == offset(size, new_w) && top == offset(size, new_h));
}

/// What is made ready for the model is the image resized to what fits, in the middle of the
/// square, with the size that the image had.
pub proof fn model_input_tells_of_its_image<F: Fn((u32, u32)) -> (u32, u32)>(
    img: DynamicImage,
    size: u32,
    fit: F,
    input: ModelInput,
    c: int,
    y: int,
    x: int,
)
    requires
        letterboxed(img, size, fit, input),
        input.new_w <= size,
        input.new_h <= size,
        rgb_pixels(resized(img, input.new_w, input.new_h)).len() == 3 * input.new_w * input.new_h,
        0 <= c < 3,
        0 <= y < size,
        0 <= x < size,
    ensures
        (input.width, input.height) == image_dims(img),
        (input.new_w, input.new_h) == result_of(fit, (input.width, input.height)),
        0 <= (size - input.new_w - input.pad_x) - input.pad_x <= 1,
        0 <= (size - input.new_h - input.pad_y) - input.pad_y <= 1,
        ({
            let at = c * (size * size) + y * size + x;
            let inside = input.pad_x <= x < input.pad_x + input.new_w && input.pad_y <= y < input.pad_y + input.new_h;
            &&& inside ==> input.planes@[at] == rgb_pixels(resized(img, input.new_w, input.new_h))[3 * ((y - input.pad_y)
                * input.new_w + (x - input.pad_x)) + c]
            &&& !inside ==> input.planes@[at] == 114
        }),
{
    square_holds_image_and_grey(
        size,
        input.new_w,
        input.new_h,
        rgb_pixels(resized(img, input.new_w, input.new_h)),
        c,
        y,
        x,
        input.pad_x as int,
        input.pad_y as int,
    );
}

} // verus!
