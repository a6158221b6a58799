use bsnobs::letterbox::letterbox;
use bsnobs::letterbox::letterbox_planes;
use bsnobs::letterbox::model_input;
use bsnobs::letterbox::prepare_image;
use bsnobs::picture::blank_canvas;
use bsnobs::picture::combine;
use bsnobs::picture::decoded_picture;
use bsnobs::picture::grid;
use bsnobs::picture::overlay_picture;
use bsnobs::picture::overlay_thickness;
use bsnobs::picture::Area;
use bsnobs::picture::Color;
use bsnobs::picture::Picture;
use bsnobs::viewer::shown_frame;
use bsnobs::viewer::shown_image;
use image::imageops::FilterType;
use image::DynamicImage;
use image::GrayImage;
use image::ImageFormat;
use image::Rgb;
use image::RgbImage;
use imageproc::drawing::draw_hollow_circle_mut;
use std::io::Cursor;

const RED: Color = Color { red: 255, green: 0, blue: 0 };
const GREY: Color = Color { red: 9, green: 8, blue: 7 };

fn at(p: &Picture, x: u32, y: u32) -> (u8, u8, u8) {
    let i = 3 * (y as usize * p.width as usize + x as usize);
    (p.data[i], p.data[i + 1], p.data[i + 2])
}

#[test]
fn blank_canvas_is_white() {
    let c = blank_canvas();
    assert_eq!((c.width, c.height), (900, 540));
    assert_eq!(c.data.len(), 3 * 900 * 540);
    assert!(c.data.iter().all(|b| *b == 255));
}

#[test]
fn blank_picture_has_one_colour() {
    let p = Picture::blank(3, 2, GREY);
    assert_eq!(p.data, vec![9, 8, 7, 9, 8, 7, 9, 8, 7, 9, 8, 7, 9, 8, 7, 9, 8, 7]);
}

#[test]
fn filling_changes_the_rectangle_only() {
    let mut p = Picture::blank(5, 4, GREY);
    p.fill(Area { left: 1, top: 2, width: 2, height: 1 }, RED);
    for y in 0..4 {
        for x in 0..5 {
            let inside = (1..3).contains(&x) && y == 2;
            assert_eq!(at(&p, x, y), if inside { (255, 0, 0) } else { (9, 8, 7) });
        }
    }
}

#[test]
fn filling_is_clipped_to_the_picture() {
    let mut p = Picture::blank(3, 3, GREY);
    p.fill(Area { left: -2, top: -2, width: 3, height: 3 }, RED);
    assert_eq!(at(&p, 0, 0), (255, 0, 0));
    assert_eq!(at(&p, 1, 0), (9, 8, 7));
    assert_eq!(at(&p, 0, 1), (9, 8, 7));
    p.fill(Area { left: 10, top: 10, width: 2, height: 2 }, RED);
    assert_eq!(at(&p, 2, 2), (9, 8, 7));
}

#[test]
fn thick_circle_is_made_of_hollow_ones() {
    let mut p = Picture::blank(40, 30, GREY);
    p.draw_thick_circle(18, 14, 9, RED, 3);
    let mut expected = RgbImage::from_pixel(40, 30, Rgb([9, 8, 7]));
    for r in 8..11 {
        draw_hollow_circle_mut(&mut expected, (18, 14), r, Rgb([255, 0, 0]));
    }
    assert_eq!(p.data, expected.into_raw());
    assert_eq!(at(&p, 18 + 9, 14), (255, 0, 0));
    assert_eq!(at(&p, 18, 14), (9, 8, 7));
}

#[test]
fn thick_circle_of_a_small_radius_starts_at_one() {
    let mut p = Picture::blank(20, 20, GREY);
    p.draw_thick_circle(10, 10, 1, RED, 4);
    let mut expected = RgbImage::from_pixel(20, 20, Rgb([9, 8, 7]));
    for r in 1..3 {
        draw_hollow_circle_mut(&mut expected, (10, 10), r, Rgb([255, 0, 0]));
    }
    assert_eq!(p.data, expected.into_raw());
}

#[test]
fn circle_without_a_radius_is_not_drawn() {
    let mut p = Picture::blank(20, 20, GREY);
    p.draw_thick_circle(10, 10, 0, RED, 4);
    p.draw_thick_circle(10, 10, -3, RED, 4);
    assert!(p.data == Picture::blank(20, 20, GREY).data);
}

#[test]
fn thickness_follows_the_smaller_side() {
    for (w, h) in [(100u32, 100u32), (899, 5000), (1500, 1500), (1499, 9000), (2048, 1536), (2100, 4000), (40000, 40000)] {
        let expected = ((w.min(h) as f32 / 600.0).round() as i32).clamp(2, 6);
        assert_eq!(overlay_thickness(w, h), expected);
    }
}

#[test]
fn grid_is_as_square_as_can_be() {
    for n in 1usize..200 {
        let cols = (n as f32).sqrt().ceil() as u32;
        let rows = (n as f32 / cols as f32).ceil() as u32;
        assert_eq!(grid(n), (cols, rows));
    }
}

fn tile(shade: u8) -> Picture {
    Picture::blank(900, 540, Color { red: shade, green: shade, blue: 1 })
}

#[test]
fn nothing_is_combined_of_nothing() {
    assert!(combine(&vec![]).is_none());
}

#[test]
fn one_tile_is_its_own_canvas() {
    let c = combine(&vec![tile(4)]).unwrap();
    assert_eq!((c.width, c.height), (900, 540));
    assert!(c.data == tile(4).data);
}

#[test]
fn tiles_are_laid_out_row_by_row() {
    let c = combine(&vec![tile(1), tile(2), tile(3)]).unwrap();
    assert_eq!((c.width, c.height), (1800, 1080));
    assert_eq!(at(&c, 0, 0), (1, 1, 1));
    assert_eq!(at(&c, 899, 539), (1, 1, 1));
    assert_eq!(at(&c, 900, 0), (2, 2, 1));
    assert_eq!(at(&c, 1799, 539), (2, 2, 1));
    assert_eq!(at(&c, 0, 540), (3, 3, 1));
    assert_eq!(at(&c, 899, 1079), (3, 3, 1));
    assert_eq!(at(&c, 900, 540), (255, 255, 255));
    assert_eq!(at(&c, 1799, 1079), (255, 255, 255));
}

#[test]
fn letterbox_centres_the_image() {
    // Two pixels side by side in a square of four.
    let planes = letterbox_planes(4, 2, 1, &vec![10, 20, 30, 40, 50, 60]);
    assert_eq!(planes.len(), 48);
    let plane = |c: usize, y: usize, x: usize| planes[(c * 4 + y) * 4 + x];
    assert_eq!(plane(0, 1, 1), 10);
    assert_eq!(plane(1, 1, 1), 20);
    assert_eq!(plane(2, 1, 1), 30);
    assert_eq!(plane(0, 1, 2), 40);
    assert_eq!(plane(2, 1, 2), 60);
    assert_eq!(planes.iter().filter(|b| **b == 114).count(), 42);
}

fn ext(e: &str) -> Option<String> {
    Some(e.to_string())
}

fn png(w: u32, h: u32, colour: [u8; 3]) -> Vec<u8> {
    let mut out = Cursor::new(Vec::new());
    RgbImage::from_pixel(w, h, Rgb(colour)).write_to(&mut out, ImageFormat::Png).unwrap();
    out.into_inner()
}

fn fit_in_eight(wh: (u32, u32)) -> (u32, u32) {
    let scale = (8.0 / wh.0 as f32).min(8.0 / wh.1 as f32);
    ((wh.0 as f32 * scale).round() as u32, (wh.1 as f32 * scale).round() as u32)
}

#[test]
fn prepared_image_is_resized_and_padded() {
    let input = prepare_image(&"a.png".to_string(), &png(32, 16, [200, 100, 50]), &ext("png"), 8, |wh: (u32, u32)| {
        fit_in_eight(wh)
    })
    .unwrap();
    assert_eq!((input.width, input.height), (32, 16));
    assert_eq!((input.new_w, input.new_h), (8, 4));
    assert_eq!((input.pad_x, input.pad_y), (0, 2));
    assert_eq!(input.planes.len(), 3 * 64);
    for c in 0..3usize {
        for y in 0..8usize {
            for x in 0..8usize {
                let want = if (2..6).contains(&y) { [200u8, 100, 50][c] } else { 114 };
                assert_eq!(input.planes[(c * 8 + y) * 8 + x], want);
            }
        }
    }
}

#[test]
fn image_that_cannot_be_decoded_is_an_error() {
    let e = prepare_image(&"/d/b.tif".to_string(), &vec![1, 2, 3], &ext("tif"), 8, |wh: (u32, u32)| fit_in_eight(wh));
    assert_eq!(e.unwrap_err(), "decoding image /d/b.tif");
    let mut cut = png(32, 16, [200, 100, 50]);
    cut.truncate(45);
    let e = prepare_image(&"c.png".to_string(), &cut, &ext("png"), 8, |wh: (u32, u32)| fit_in_eight(wh));
    assert_eq!(e.unwrap_err(), "decoding image c.png");
}

#[test]
fn image_of_the_right_size_is_not_resampled() {
    let img = DynamicImage::ImageRgb8(RgbImage::from_raw(2, 1, vec![10, 20, 30, 40, 50, 60]).unwrap());
    let input = letterbox(&img, 4, |wh: (u32, u32)| wh);
    assert_eq!((input.width, input.height, input.new_w, input.new_h), (2, 1, 2, 1));
    assert_eq!(input.planes, letterbox_planes(4, 2, 1, &vec![10, 20, 30, 40, 50, 60]));
}

#[test]
fn letterbox_takes_width_and_height_in_order() {
    let grey = GrayImage::from_raw(4, 2, vec![0, 80, 160, 240, 10, 20, 30, 40]).unwrap();
    let img = DynamicImage::ImageLuma8(grey);
    let input = letterbox(&img, 8, |wh: (u32, u32)| fit_in_eight(wh));
    assert_eq!((input.width, input.height, input.new_w, input.new_h), (4, 2, 8, 4));
    let resized = img.resize_exact(8, 4, FilterType::Triangle).to_rgb8().into_raw();
    assert_eq!(input.planes, letterbox_planes(8, 8, 4, &resized));
    assert!(resized != img.to_rgb8().into_raw());
}

#[test]
fn model_input_follows_the_decoder() {
    let path = "x.png".to_string();
    let none = model_input(&path, None, 8, |wh: (u32, u32)| fit_in_eight(wh));
    assert_eq!(none.unwrap_err(), "decoding image x.png");
    let img = DynamicImage::ImageRgb8(RgbImage::from_pixel(16, 16, Rgb([1, 2, 3])));
    let some = model_input(&path, Some(img), 8, |wh: (u32, u32)| fit_in_eight(wh)).unwrap();
    assert_eq!((some.new_w, some.new_h), (8, 8));
    assert!(some.planes[..64].iter().all(|b| *b == 1));
    assert!(some.planes[128..].iter().all(|b| *b == 3));
}

#[test]
fn odd_padding_is_told_as_it_was_used() {
    let img = DynamicImage::ImageRgb8(RgbImage::from_pixel(8, 3, Rgb([1, 2, 3])));
    let input = letterbox(&img, 8, |wh: (u32, u32)| wh);
    assert_eq!((input.pad_x, input.pad_y), (0, 2));
    let first = input.planes.iter().position(|b| *b == 1).unwrap();
    assert_eq!(first, 8 * input.pad_y as usize);
}

#[test]
fn decoding_goes_by_the_content_first() {
    let fit = |wh: (u32, u32)| fit_in_eight(wh);
    let wrong = prepare_image(&"a".to_string(), &png(8, 8, [9, 9, 9]), &ext("tif"), 8, fit).unwrap();
    assert!(wrong.planes.iter().all(|b| *b == 9));
    let none = prepare_image(&"a".to_string(), &png(8, 8, [9, 9, 9]), &None, 8, fit).unwrap();
    assert_eq!(none.planes, wrong.planes);
}

fn grey(c: (u8, u8, u8)) -> u8 {
    ((c.0 as u32 + c.1 as u32 + c.2 as u32) / 3) as u8
}

#[test]
fn shown_frame_is_that_of_the_file() {
    let data = png(2, 1, [30, 60, 90]);
    let colour = shown_frame(&data, &ext("png"), false, |c: (u8, u8, u8)| grey(c)).unwrap();
    assert_eq!((colour.width, colour.height), (2, 1));
    assert_eq!(colour.pixels, vec![30, 60, 90, 255, 30, 60, 90, 255]);
    let bw = shown_frame(&data, &ext("png"), true, |c: (u8, u8, u8)| grey(c)).unwrap();
    assert_eq!(bw.pixels, vec![60, 60, 60, 255, 60, 60, 60, 255]);
    assert!(shown_frame(&vec![1, 2, 3], &ext("png"), true, |c: (u8, u8, u8)| grey(c)).is_none());
}

#[test]
fn shown_image_leaves_out_what_is_no_pixel() {
    assert!(shown_image(None, false, |c: (u8, u8, u8)| grey(c)).is_none());
    // A buffer may be longer than its pixels.
    let img = image::RgbaImage::from_raw(1, 1, vec![1, 2, 3, 4, 5, 6, 7, 8, 9]).unwrap();
    let shown = shown_image(Some(DynamicImage::ImageRgba8(img)), false, |c: (u8, u8, u8)| grey(c)).unwrap();
    assert_eq!(shown.pixels, vec![1, 2, 3, 4]);
}

#[test]
fn overlay_is_drawn_on_the_image() {
    let p = overlay_picture(&png(2, 2, [5, 6, 7]), &ext("PNG")).unwrap();
    assert_eq!((p.width, p.height), (2, 2));
    assert_eq!(p.data, vec![5, 6, 7, 5, 6, 7, 5, 6, 7, 5, 6, 7]);
    // The format is that of the extension, not of the content.
    assert!(overlay_picture(&png(2, 2, [5, 6, 7]), &ext("tif")).is_err());
    let text = |e: &Option<String>| overlay_picture(&png(2, 2, [5, 6, 7]), e).unwrap_err();
    assert_eq!(text(&ext("xyz")), "The file extension `.\"xyz\"` was not recognized as an image format");
    assert_eq!(text(&None), "The image format could not be determined");
    assert_eq!(text(&ext("")), text(&None));
}

#[test]
fn decoded_picture_follows_the_decoder() {
    assert_eq!(decoded_picture(Err("no such format".to_string())).unwrap_err(), "no such format");
    let grey = GrayImage::from_raw(2, 1, vec![7, 8]).unwrap();
    let p = decoded_picture(Ok(DynamicImage::ImageLuma8(grey))).unwrap();
    assert_eq!(p.data, vec![7, 7, 7, 8, 8, 8]);
}
