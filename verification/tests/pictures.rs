use image::{DynamicImage, ImageBuffer, ImageFormat, Luma, Rgba, RgbaImage};
use mdterm::app::{reflow, App};
use mdterm::images::{
    can_downscale, can_downscale_samples, decode_dims, encode_png, image_cell_size, measure,
    needs_downscale, Image, Samples,
};
use mdterm::kitty::{can_transmit, delete_image, place_image, transmit_image};
use mdterm::markdown::render;
use mdterm::placing::{images_drawn, images_to_encode, place_images, set_png};
use mdterm::sums::{widen, windows_sum_up};
use std::io::Cursor;

fn file_of(width: u32, height: u32, format: ImageFormat) -> Vec<u8> {
    let img = RgbaImage::from_pixel(width, height, Rgba([255, 0, 0, 255]));
    let mut bytes = Vec::new();
    DynamicImage::ImageRgba8(img).write_to(&mut Cursor::new(&mut bytes), format).unwrap();
    bytes
}

fn image(dims: Option<(u32, u32)>) -> Image {
    Image {
        id: 1,
        path: "x.png".to_string(),
        content_line: 0,
        dims,
        cw: 0,
        ch: 0,
        png: None,
        png_dims: None,
    }
}

fn app_with(md: &str, dims: Option<(u32, u32)>) -> App {
    let d = render(md, ".").unwrap();
    let mut images = d.images;
    for img in &mut images {
        img.dims = dims;
    }
    App::reader(d.content, d.headings, "t".to_string(), images, d.tables)
}

#[test]
fn images_reserve_space_in_reflow() {
    let bytes = file_of(200, 100, ImageFormat::Png);
    let d = render("![x](/tmp/md_test_img.png)", ".").unwrap();
    let mut images = d.images;
    measure(&mut images[0], Some(bytes));
    let mut app = App::reader(d.content, Vec::new(), "t".to_string(), images, Vec::new());
    reflow(&mut app, 40);
    assert!(app.images[0].cw > 0, "image should get a cell width");
    assert!(app.images[0].ch >= 3, "image should get a cell height");
    assert_eq!(app.image_rows.len(), 1);
    assert!(
        app.lines.len() > 1,
        "image should reserve blank lines, got {}",
        app.lines.len()
    );
}

#[test]
fn encode_png_downscales_large_images() {
    let bytes = file_of(4000, 2000, ImageFormat::Png);
    let (png, w, h) = encode_png("md_test_big.png", &bytes, 640).unwrap();
    let decoded = image::load_from_memory_with_format(&png, ImageFormat::Png).unwrap();
    assert_eq!((decoded.width(), decoded.height()), (w, h));
    assert!(decoded.width() <= 640, "longest side should be capped");
    assert!(decoded.height() <= 640);
    assert!(decoded.width() < 4000, "large image should be shrunk");
}

#[test]
fn small_images_keep_their_size() {
    let bytes = file_of(20, 10, ImageFormat::Png);
    let (png, w, h) = encode_png("a.png", &bytes, 640).unwrap();
    assert_eq!((w, h), (20, 10));
    assert_eq!(&png[1..4], b"PNG");
    assert!(!needs_downscale(20, 10, 20));
    assert!(needs_downscale(21, 10, 20));
    assert!(needs_downscale(10, 21, 20));
}

#[test]
fn other_formats_become_png() {
    let bytes = file_of(64, 16, ImageFormat::Bmp);
    assert_eq!(decode_dims("a.BMP", &bytes), Some((64, 16)));
    let (png, w, h) = encode_png("a.bmp", &bytes, 32).unwrap();
    assert_eq!((w, h), (32, 8));
    assert_eq!(&png[1..4], b"PNG");
}

#[test]
fn undecodable_files_have_no_size() {
    let bytes = file_of(2, 2, ImageFormat::Png);
    assert_eq!(decode_dims("a.txt", &bytes), None);
    assert_eq!(decode_dims("png", &bytes), None);
    assert_eq!(decode_dims("a.png", &vec![1, 2, 3]), None);
    assert!(encode_png("a.png", &vec![1, 2, 3], 32).is_none());
    assert!(encode_png("a.txt", &bytes, 32).is_none());
}

#[test]
fn cell_sizes() {
    assert_eq!(image_cell_size(&image(None), 80), (0, 0));
    assert_eq!(image_cell_size(&image(Some((0, 10))), 80), (0, 0));
    assert_eq!(image_cell_size(&image(Some((10, 0))), 80), (0, 0));
    assert_eq!(image_cell_size(&image(Some((200, 100))), 40), (36, 9));
    assert_eq!(image_cell_size(&image(Some((200, 100))), 0), (10, 3));
    assert_eq!(image_cell_size(&image(Some((200, 100))), 1000), (60, 15));
    assert_eq!(image_cell_size(&image(Some((5, 1000))), 80), (5, 30));
    assert_eq!(image_cell_size(&image(Some((10, 13))), 80), (10, 7));
    assert_eq!(image_cell_size(&image(Some((10, 14))), 80), (10, 7));
}

#[test]
fn cell_heights_are_rounded_like_floats() {
    for w in 1..90u32 {
        for h in 1..90u32 {
            let (cw, ch) = image_cell_size(&image(Some((w, h))), 50);
            let exact = ((cw as f64 * h as f64 / w as f64) / 2.0).round() as u32;
            assert_eq!(ch as u32, exact.clamp(3, 30), "{w} {h}");
            assert_eq!(cw as u32, w.min(46));
        }
    }
}

#[test]
fn images_get_rows_below_each_other() {
    let mut app = app_with("![a](a.png)\n\ntext\n\n![b](b.png)", Some((100, 100)));
    reflow(&mut app, 24);
    assert_eq!((app.images[0].cw, app.images[0].ch), (20, 10));
    assert_eq!(app.image_rows, vec![(0, 0), (1, 11)]);
    assert_eq!(app.lines.len(), 21);
}

fn screen(app: &mut App) {
    reflow(app, 24);
    app.content_x = 2;
    app.content_y = 1;
    app.content_w = 25;
    app.viewport = 8;
}

#[test]
fn images_are_sent_once_and_then_placed() {
    let mut app = app_with("![a](a.png)", Some((100, 100)));
    screen(&mut app);
    assert_eq!(images_to_encode(&app), vec![(0, 160)]);
    let png = file_of(100, 100, ImageFormat::Png);
    assert!(can_transmit(&png));
    set_png(&mut app, 0, png.clone(), 100, 100);
    assert!(images_to_encode(&app).is_empty());
    let (bytes, placed) = place_images(&app);
    // The lower two of ten rows are below the screen.
    let mut expected = transmit_image(1, &png);
    expected.extend(place_image(1, 2, 5, 20, 8, Some((0, 0, 100, 80))));
    assert_eq!(bytes, expected);
    assert_eq!(placed, vec![true]);
    images_drawn(&mut app, placed);
    let (again, placed) = place_images(&app);
    assert_eq!(again, place_image(1, 2, 5, 20, 8, Some((0, 0, 100, 80))));
    assert_eq!(placed, vec![true]);
}

#[test]
fn scrolled_images_are_clipped_and_removed() {
    let mut app = app_with("![a](a.png)\n\none\n\ntwo", Some((100, 100)));
    screen(&mut app);
    set_png(&mut app, 0, vec![1], 100, 100);
    app.image_placed = vec![true];
    app.viewport = 20;
    let (whole, _) = place_images(&app);
    assert_eq!(whole, place_image(1, 2, 5, 20, 10, None));
    app.offset = 3;
    let (clipped, _) = place_images(&app);
    assert_eq!(clipped, place_image(1, 2, 5, 20, 7, Some((0, 30, 100, 100))));
    app.offset = 10;
    let (gone, placed) = place_images(&app);
    assert_eq!(gone, delete_image(1));
    assert_eq!(placed, vec![false]);
}

#[test]
fn images_that_cannot_be_encoded_are_not_drawn() {
    let mut app = app_with("![a](a.png)", Some((100, 100)));
    screen(&mut app);
    let (bytes, placed) = place_images(&app);
    assert!(bytes.is_empty());
    assert_eq!(placed, vec![false]);
    let mut unknown = app_with("![a](a.png)", None);
    screen(&mut unknown);
    set_png(&mut unknown, 0, vec![1], 1, 1);
    assert_eq!(place_images(&unknown), (Vec::new(), vec![false]));
    assert!(images_to_encode(&unknown).is_empty());
}

#[test]
fn narrow_images_are_sent_with_at_least_32_pixels() {
    let mut app = app_with("![a](a.png)", Some((3, 100)));
    screen(&mut app);
    assert_eq!(images_to_encode(&app), vec![(0, 32)]);
}

fn white_words(width: u32, height: u32) -> Vec<u8> {
    let img = ImageBuffer::from_pixel(width, height, Luma([u16::MAX]));
    let mut bytes = Vec::new();
    DynamicImage::ImageLuma16(img).write_to(&mut Cursor::new(&mut bytes), ImageFormat::Png).unwrap();
    bytes
}

#[test]
fn images_are_scaled_as_far_as_their_samples_sum_up() {
    let words = white_words(300, 300);
    assert!(encode_png("a.png", &words, 1).is_none());
    assert!(encode_png("a.png", &words, 0).is_none());
    let (_, w, h) = encode_png("a.png", &words, 2).unwrap();
    assert_eq!((w, h), (2, 2));
    let (_, w, h) = encode_png("a.png", &white_words(256, 256), 1).unwrap();
    assert_eq!((w, h), (1, 1));
    let (_, w, h) = encode_png("a.png", &white_words(1280, 768), 5).unwrap();
    assert_eq!((w, h), (5, 3));
    let (_, w, h) = encode_png("a.png", &file_of(300, 300, ImageFormat::Png), 1).unwrap();
    assert_eq!((w, h), (1, 1));
}

fn rgba_words(width: u32, height: u32, pixel: [u16; 4]) -> Vec<u8> {
    let img = ImageBuffer::from_pixel(width, height, Rgba(pixel));
    let mut bytes = Vec::new();
    let img = DynamicImage::ImageRgba16(img);
    img.write_to(&mut Cursor::new(&mut bytes), ImageFormat::Png).unwrap();
    bytes
}

#[test]
fn transparent_images_are_scaled_by_their_samples() {
    let dark = rgba_words(300, 300, [100, 200, 300, 400]);
    let (png, w, h) = encode_png("a.png", &dark, 1).unwrap();
    assert_eq!((w, h), (1, 1));
    let copy = image::load_from_memory(&png).unwrap().to_rgba16();
    assert_eq!(copy.get_pixel(0, 0).0, [100, 200, 300, 400]);
    // Dark as it is, the alpha of an opaque image counts in full.
    assert!(encode_png("a.png", &rgba_words(300, 300, [0, 0, 0, 65535]), 1).is_none());
    let bytes = RgbaImage::from_pixel(300, 300, Rgba([1, 2, 3, 4]));
    let samples: Vec<u16> = bytes.into_raw().iter().map(|n| u16::from(*n)).collect();
    assert!(can_downscale_samples(300, 300, &samples, 1));
}

#[test]
fn any_window_of_samples_has_to_sum_up() {
    let mut samples = vec![0u16; 4 * 300 * 300];
    assert!(can_downscale_samples(300, 300, &samples, 1));
    assert!(!can_downscale_samples(300, 301, &samples, 1));
    assert!(!can_downscale_samples(0, 300, &samples, 1));
    for row in 20..280 {
        for col in 30..290 {
            samples[4 * (300 * row + col) + 2] = 65535;
        }
    }
    assert!(!can_downscale_samples(300, 300, &samples, 1));
    assert!(can_downscale_samples(300, 300, &samples, 2));
}

#[test]
fn windows_are_summed_up_at_every_place() {
    // Three by four pixels, of which two by two at the lower right are too bright.
    let mut samples = vec![0u16; 4 * 12];
    assert!(windows_sum_up(&samples, 3, 4, 2, 2));
    assert!(!windows_sum_up(&samples, 3, 5, 2, 2));
    assert!(!windows_sum_up(&samples, 70_000, 70_000, 70_000, 70_000));
    samples[4 * 11 + 3] = 65535;
    assert!(windows_sum_up(&samples, 3, 4, 2, 2));
    let bright = vec![65535u16; 4 * 70_000];
    assert!(windows_sum_up(&bright, 70_000, 1, 65_536, 1));
    assert!(!windows_sum_up(&bright, 70_000, 1, 65_537, 1));
    let mut late = bright;
    late[4] = 0;
    assert!(!windows_sum_up(&late, 70_000, 1, 65_537, 1));
    late[4 * 35_000] = 0;
    assert!(!windows_sum_up(&late, 70_000, 1, 65_537, 1));
    for pixel in late.chunks_mut(4).skip(4_000).take(60_000) {
        pixel.fill(0);
    }
    assert!(windows_sum_up(&late, 70_000, 1, 65_537, 1));
    assert_eq!(widen(&vec![0, 7, 255]), vec![0, 7, 255]);
}

#[test]
fn how_far_images_can_be_scaled() {
    assert!(can_downscale(256, 256, Samples::Words, 1));
    assert!(!can_downscale(257, 256, Samples::Words, 1));
    assert!(can_downscale(2560, 2560, Samples::Words, 10));
    assert!(!can_downscale(2561, 2561, Samples::Words, 10));
    assert!(can_downscale(2559, 2559, Samples::Words, 10));
    assert!(!can_downscale(1, 3_000_000, Samples::Words, 32));
    assert!(can_downscale(4096, 4096, Samples::Bytes, 1));
    assert!(!can_downscale(4100, 4101, Samples::Bytes, 0));
    assert!(can_downscale(65535, 65535, Samples::Floats, 1));
    assert!(!can_downscale(65536, 65536, Samples::Floats, 1));
    assert!(!can_downscale(200_000, 1_000, Samples::Words, 480));
    assert!(can_downscale(200_000, 1_000, Samples::Bytes, 480));
    assert!(can_downscale(100_000, 500, Samples::Words, 480));
    assert!(can_downscale(0, 1_000, Samples::Words, 32));
    assert!(!can_downscale(u32::MAX, u32::MAX, Samples::Floats, u32::MAX - 1));
}

#[test]
fn images_are_measured_from_their_files() {
    let mut img = image(Some((1, 1)));
    measure(&mut img, None);
    assert_eq!(img.dims, None);
    measure(&mut img, Some(file_of(20, 10, ImageFormat::Png)));
    assert_eq!(img.dims, Some((20, 10)));
    measure(&mut img, Some(vec![1, 2, 3]));
    assert_eq!(img.dims, None);
}
