//! Images decoded from the content of their files.
use crate::picture::byte_count;
use crate::text::opt_text;
use image::error::ImageFormatHint;
use image::imageops::FilterType;
use image::DynamicImage;
use image::GenericImageView;
use image::ImageError;
use image::ImageFormat;
use image::ImageReader;
use std::io::Cursor;
use vstd::prelude::*;

verus! {

/// A decoded image, whatever kind of pixels it has.
#[verifier::external_type_specification]
#[verifier::external_body]
pub struct ExDynamicImage(DynamicImage);

/// Decoding this content through `image::ImageReader`, of a file with this extension and
/// with the format guessed from the content, may give this.
pub uninterp spec fn may_decode(
    data: Seq<u8>,
    extension: Option<Seq<char>>,
    decoded: Option<DynamicImage>,
) -> bool;

/// Decoding this content through `image::ImageReader` in the format that the extension
/// stands for may give this image, or fail with this text.
pub uninterp spec fn may_decode_as(
    data: Seq<u8>,
    extension: Option<Seq<char>>,
    decoded: Result<DynamicImage, Seq<char>>,
) -> bool;

/// The width and the height of an image, as `image::GenericImageView::dimensions` gives
/// them.
pub uninterp spec fn image_dims(img: DynamicImage) -> (u32, u32);

/// The image that `image::DynamicImage::resize_exact` makes with the triangle filter.
pub uninterp spec fn resized(img: DynamicImage, new_w: u32, new_h: u32) -> DynamicImage;

/// The buffer of `image::DynamicImage::to_rgb8`.
pub uninterp spec fn rgb_of(img: DynamicImage) -> Seq<u8>;

/// The buffer of `image::DynamicImage::to_rgba8`.
pub uninterp spec fn rgba_of(img: DynamicImage) -> Seq<u8>;

/// What came of decoding, with the text of an error as a sequence.
pub open spec fn decoded_view(r: Result<DynamicImage, String>) -> Result<DynamicImage, Seq<char>> {
    match r {
        Ok(img) => Ok(img),
        Err(e) => Err(e@),
    }
}

/// The largest side to which an image can be resized: beyond it the weights of the filter,
/// which are single precision numbers, could all vanish.
pub const MAX_SIDE: u32 = 0x10_0000;

/// An image of width `w` can be resized to this size: the pictures that are made on the way
/// take sixteen bytes to a pixel and fit into memory.
pub open spec fn can_resize(w: u32, new_w: u32, new_h: u32) -> bool {
    &&& new_w <= MAX_SIDE
    &&& new_h <= MAX_SIDE
    &&& 16 * (w * new_h) <= isize::MAX
    &&& 16 * (new_w * new_h) <= isize::MAX
}

/// The bytes of an image of this size fit into memory, four to a pixel.
pub open spec fn can_convert(dims: (u32, u32)) -> bool {
    4 * (dims.0 * dims.1) <= isize::MAX && 4 * dims.0 <= isize::MAX
}

/// Decodes the content of a file through `image::ImageReader`: in the format guessed from
/// the content, else in that of the extension (`ImageFormat::from_extension`); `None` where
/// that fails. Claimed of it: the outcome is one that decoding this content of a file with
/// this extension may have. Which one is left unsaid: that also depends on the decoders that
/// the process has registered.
#[verifier::external_body]
pub(crate) fn decode_image(data: &Vec<u8>, extension: &Option<String>) -> (r: Option<DynamicImage>)
    ensures
        may_decode(data@, opt_text(*extension), r),
{
    let mut reader = ImageReader::new(Cursor::new(data.as_slice()));
    if let Some(format) = ImageFormat::from_extension(extension.as_deref().unwrap_or_default()) {
        reader.set_format(format);
    }
    reader.with_guessed_format().ok()?.decode().ok()
}

/// Decodes the content of a file through `image::ImageReader` in the format of its extension
/// (`ImageFormat::from_extension`), or gives the text of the error; an extension that stands
/// for no format is the error that opening such a file is. Claimed of it: the outcome is one
/// that decoding this content in the format of this extension may have. Which one is left
/// unsaid, as for `decode_image`.
#[verifier::external_body]
pub(crate) fn decode_image_as(data: &Vec<u8>, extension: &Option<String>) -> (r: Result<DynamicImage, String>)
    ensures
        may_decode_as(data@, opt_text(*extension), decoded_view(r)),
{
    let mut reader = ImageReader::new(Cursor::new(data.as_slice()));
    if let Some(ext) = extension {
        let unknown = || ImageError::Unsupported(ImageFormatHint::PathExtension(ext.into()).into());
        let format = ImageFormat::from_extension(ext).ok_or_else(unknown);
        reader.set_format(format.map_err(|e| e.to_string())?);
    }
    reader.decode().map_err(|e| e.to_string())
}

/// The size of an image, through `image::GenericImageView::dimensions`. Claimed of it: it
/// depends on the image alone.
#[verifier::external_body]
pub(crate) fn dimensions(img: &DynamicImage) -> (r: (u32, u32))
    ensures
        r == image_dims(*img),
{
    img.dimensions()
}

/// Resizes an image through `image::DynamicImage::resize_exact` with the triangle filter.
/// Claimed of it: the outcome depends on the image and the new size alone, and has that
/// size. How the filter mixes the pixels is left unsaid.
#[verifier::external_body]
pub(crate) fn resize(img: &DynamicImage, new_w: u32, new_h: u32) -> (r: DynamicImage)
    requires
        can_resize(image_dims(*img).0, new_w, new_h),
    ensures
        r == resized(*img, new_w, new_h),
        image_dims(r) == (new_w, new_h),
{
    img.resize_exact(new_w, new_h, FilterType::Triangle)
}

/// The buffer of an image in red, green and blue, through `image::DynamicImage::to_rgb8`.
/// Claimed of it: it depends on the image alone, and has at least three bytes for each
/// pixel. How colours are converted is left unsaid.
#[verifier::external_body]
fn rgb_buffer(img: &DynamicImage) -> (r: Vec<u8>)
    requires
        can_convert(image_dims(*img)),
    ensures
        r@ == rgb_of(*img),
        r@.len() >= 3 * (image_dims(*img).0 * image_dims(*img).1),
{
    img.to_rgb8().into_raw()
}

/// The buffer of an image in red, green, blue and opacity, through
/// `image::DynamicImage::to_rgba8`. Claimed of it: it depends on the image alone, and has at
/// least four bytes for each pixel. How colours are converted is left unsaid.
#[verifier::external_body]
fn rgba_buffer(img: &DynamicImage) -> (r: Vec<u8>)
    requires
        can_convert(image_dims(*img)),
    ensures
        r@ == rgba_of(*img),
        r@.len() >= 4 * (image_dims(*img).0 * image_dims(*img).1),
{
    img.to_rgba8().into_raw()
}

/// The red, green and blue bytes of the pixels of an image.
pub open spec fn rgb_pixels(img: DynamicImage) -> Seq<u8> {
    rgb_of(img).take(3 * (image_dims(img).0 * image_dims(img).1))
}

/// The red, green, blue and opacity bytes of the pixels of an image.
pub open spec fn rgba_pixels(img: DynamicImage) -> Seq<u8> {
    rgba_of(img).take(4 * (image_dims(img).0 * image_dims(img).1))
}

/// Whether the bytes of an image of this size fit into memory.
pub(crate) fn is_convertible(dims: (u32, u32)) -> (r: bool)
    ensures
        r == can_convert(dims),
        r == (4 * (dims.0 * dims.1) <= isize::MAX && 4 * dims.0 <= isize::MAX),
{
    let (w, h) = dims;
    let most: u128 = isize::MAX as u128;
    assert(4 * (w * h) <= 4 * (0xffff_ffff * 0xffff_ffff)) by (nonlinear_arith)
        requires
            0 <= w <= 0xffff_ffff,
            0 <= h <= 0xffff_ffff,
    ;
    4 * (w as u128 * h as u128) <= most && 4 * (w as u128) <= most
}

/// The number of pixels of an image that fits into memory.
fn pixel_count(dims: (u32, u32)) -> (n: usize)
    requires
        can_convert(dims),
    ensures
        n == dims.0 * dims.1,
{
    assert(0 <= dims.0 * dims.1) by (nonlinear_arith);
    dims.0 as usize * dims.1 as usize
}

/// The red, green and blue bytes of the pixels of an image, row by row.
pub(crate) fn rgb_bytes(img: &DynamicImage) -> (r: Vec<u8>)
    requires
        can_convert(image_dims(*img)),
    ensures
        r@ == rgb_pixels(*img),
        r@.len() == byte_count(image_dims(*img).0, image_dims(*img).1),
{
    let dims = dimensions(img);
    let mut r = rgb_buffer(img);
    let n: usize = pixel_count(dims);
    r.truncate(3 * n);
    assert(3 * (dims.0 * dims.1) == 3 * dims.0 * dims.1) by (nonlinear_arith);
    r
}

/// The red, green, blue and opacity bytes of the pixels of an image, row by row.
pub(crate) fn rgba_bytes(img: &DynamicImage) -> (r: Vec<u8>)
    requires
        can_convert(image_dims(*img)),
    ensures
        r@ == rgba_pixels(*img),
        r@.len() == 4 * (image_dims(*img).0 * image_dims(*img).1),
{
    let dims = dimensions(img);
    let mut r = rgba_buffer(img);
    let n: usize = pixel_count(dims);
    r.truncate(4 * n);
    r
}

/// The pixels of an image are the start of its buffer, three or four bytes to a pixel, and all
/// of it where it is not longer.
pub proof fn pixels_start_the_buffer(img: DynamicImage, i: int)
    requires
        rgb_of(img).len() >= 3 * (image_dims(img).0 * image_dims(img).1),
        rgba_of(img).len() >= 4 * (image_dims(img).0 * image_dims(img).1),
    ensures
        rgb_pixels(img).len() == 3 * (image_dims(img).0 * image_dims(img).1),
        rgba_pixels(img).len() == 4 * (image_dims(img).0 * image_dims(img).1),
        0 <= i < rgb_pixels(img).len() ==> rgb_pixels(img)[i] == rgb_of(img)[i],
        0 <= i < rgba_pixels(img).len() ==> rgba_pixels(img)[i] == rgba_of(img)[i],
{
    assert(0 <= image_dims(img).0 * image_dims(img).1) by (nonlinear_arith);
}

} // verus!
