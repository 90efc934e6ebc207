//! The images of a document: their sizes in terminal cells, and their pixels.

use crate::sums::{widen, widened, windows_fit, windows_sum_up};
use image::{ColorType, DynamicImage, ImageBuffer, ImageFormat, ImageReader, RgbaImage};
use std::io::Cursor;
use vstd::prelude::*;

verus! {

/// An image of the document.
pub struct Image {
    pub id: u32,
    pub path: String,
    /// The content line that stands for the image.
    pub content_line: usize,
    /// The size in pixels, where the file could be decoded.
    pub dims: Option<(u32, u32)>,
    /// The size in terminal cells, zero where the file could not be decoded.
    pub cw: u16,
    pub ch: u16,
    /// The image as PNG, once it was encoded.
    pub png: Option<Vec<u8>>,
    /// The size of the PNG in pixels.
    pub png_dims: Option<(u32, u32)>,
}

/// What an image holds.
#[verifier::ext_equal]
pub struct ImageView {
    pub id: u32,
    pub path: Seq<char>,
    pub content_line: nat,
    pub dims: Option<(u32, u32)>,
    pub cw: u16,
    pub ch: u16,
    pub png: Option<Seq<u8>>,
    pub png_dims: Option<(u32, u32)>,
}

impl DeepView for Image {
    type V = ImageView;

    open spec fn deep_view(&self) -> ImageView {
        ImageView {
            id: self.id,
            path: self.path@,
            content_line: self.content_line as nat,
            dims: self.dims,
            cw: self.cw,
            ch: self.ch,
            png: match self.png {
                Some(png) => Some(png@),
                None => None,
            },
            png_dims: self.png_dims,
        }
    }
}

/// The number between `low` and `high` that is nearest to `n`.
pub open spec fn clamped(n: int, low: nat, high: nat) -> nat
    recommends
        low <= high,
{
    if n < low {
        low
    } else if n > high {
        high
    } else {
        n as nat
    }
}

/// The whole number nearest to `n / d`, the greater one of two.
pub open spec fn nearest(n: nat, d: nat) -> nat
    recommends
        d > 0,
{
    (2 * n + d) / (2 * d)
}

/// The size in cells of an image of the size `dims` on a page of `width` columns.
/// The image is as wide as the page leaves room for, but no wider than its pixels,
/// and keeps its proportions: a cell is about twice as tall as wide.
pub open spec fn cell_size(dims: Option<(u32, u32)>, width: nat) -> (nat, nat) {
    match dims {
        None => (0, 0),
        Some((w, h)) => {
            if w == 0 || h == 0 {
                (0, 0)
            } else {
                let room = clamped(width - 4, 10, 60);
                let cw = if room <= w {
                    room
                } else {
                    w as nat
                };
                (cw, clamped(nearest(cw * h as nat, 2 * w as nat) as int, 3, 30))
            }
        },
    }
}

/// An image is never drawn wider than its pixels or than sixty columns, and
/// takes from three to thirty rows. Only one that cannot be decoded takes none.
pub proof fn cell_sizes_are_bounded(w: u32, h: u32, width: nat)
    requires
        w > 0,
        h > 0,
    ensures
        0 < cell_size(Some((w, h)), width).0 <= w,
        cell_size(Some((w, h)), width).0 <= 60,
        3 <= cell_size(Some((w, h)), width).1 <= 30,
        cell_size(None, width) == (0nat, 0nat),
{
}

/// The size in cells of an image on a page of `width` columns.
pub fn image_cell_size(img: &Image, width: usize) -> (r: (u16, u16))
    ensures
        r.0 == cell_size(img.dims, width as nat).0,
        r.1 == cell_size(img.dims, width as nat).1,
{
    match img.dims {
        None => (0, 0),
        Some((w, h)) => {
            if w == 0 || h == 0 {
                return (0, 0);
            }
            let room = if width <= 14 {
                10u32
            } else if width >= 64 {
                60u32
            } else {
                (width - 4) as u32
            };
            let cw = if room <= w {
                room
            } else {
                w
            };
            assert(cw * h <= 60 * h) by (nonlinear_arith)
                requires
                    cw <= 60,
            ;
            let product = cw as u64 * h as u64;
            let n = (product + w as u64) / (2 * w as u64);
            proof {
                lemma_nearest(product as nat, w as nat);
            }
            let ch = if n < 3 {
                3u16
            } else if n > 30 {
                30u16
            } else {
                n as u16
            };
            (cw as u16, ch)
        },
    }
}

proof fn lemma_nearest(n: nat, w: nat)
    requires
        w > 0,
    ensures
        nearest(n, 2 * w) == (n + w) / (2 * w),
{
    vstd::arithmetic::div_mod::lemma_div_denominator((2 * n + 2 * w) as int, 2, (2 * w) as int);
    assert((2 * n + 2 * w) / 2 == n + w);
    assert(2 * (2 * w) == 4 * w);
}

/// A decoded image.
#[verifier::external_type_specification]
#[verifier::external_body]
pub struct ExDynamicImage(DynamicImage);

/// The format of an image file.
#[verifier::external_type_specification]
#[verifier::external_body]
pub struct ExImageFormat(ImageFormat);

/// How the samples of an image are held.
#[derive(Clone, Copy, PartialEq, Eq, Debug, Structural)]
pub enum Samples {
    /// In eight bits each.
    Bytes,
    /// In sixteen bits each.
    Words,
    /// As floating point numbers.
    Floats,
}

/// The format that the extension of a path stands for, as
/// `image::ImageFormat::from_path` tells it.
pub uninterp spec fn path_format(path: Seq<char>) -> Option<ImageFormat>;

/// The image in the bytes of a file, as `image::ImageReader` decodes it.
pub uninterp spec fn decoded_image(bytes: Seq<u8>, format: ImageFormat) -> Option<DynamicImage>;

/// The width of an image in pixels.
pub uninterp spec fn image_width(img: DynamicImage) -> u32;

/// The height of an image in pixels.
pub uninterp spec fn image_height(img: DynamicImage) -> u32;

/// How the samples of an image are held, as `image::DynamicImage::color` tells it.
pub uninterp spec fn image_samples(img: DynamicImage) -> Samples;

/// The samples of an image with transparency and eight bits, four for each pixel, as
/// `image::DynamicImage::as_rgba8` gives them.
pub uninterp spec fn rgba_bytes(img: DynamicImage) -> Option<Seq<u8>>;

/// The samples of an image with transparency and sixteen bits, four for each pixel, as
/// `image::DynamicImage::as_rgba16` gives them.
pub uninterp spec fn rgba_words(img: DynamicImage) -> Option<Seq<u16>>;

/// The copy of an image, at most `max_px` long on either side, that
/// `image::DynamicImage::thumbnail` makes.
pub uninterp spec fn thumbnail_of(img: DynamicImage, max_px: u32) -> DynamicImage;

/// The PNG file of an image, as `image::DynamicImage::write_to` writes it.
pub uninterp spec fn png_of(img: DynamicImage) -> Option<Seq<u8>>;

/// The greater one of two lengths.
pub open spec fn longer(w: u32, h: u32) -> nat {
    if w > h {
        w as nat
    } else {
        h as nat
    }
}

/// How long a side of `side` pixels is at the least in a copy of an image whose
/// longer side, of `long` pixels, becomes `max_px` long: it is rounded to the
/// nearest whole number, and at least one.
pub open spec fn scaled_side(side: nat, long: nat, max_px: u32) -> nat {
    let n = (2 * side * max_px as nat + long - 1) as nat / (2 * long);
    if n > 0 {
        n
    } else {
        1
    }
}

/// How many pixels of a side of `side` pixels go into one pixel of a copy at the
/// most. The positions are computed with 24 bits: as long as these are enough, it is
/// the quotient of the lengths, rounded up, else there is an allowance.
pub open spec fn side_share(side: nat, long: nat, max_px: u32) -> nat {
    let scaled = scaled_side(side, long, max_px);
    let share = if side <= 0x100_0000 && scaled <= 2000 && side % scaled == 0 {
        side / scaled
    } else if side * scaled <= 0x80_0000 {
        side / scaled + 1
    } else {
        side / scaled + side / 0x40_0000 + 2
    };
    if share < side {
        share
    } else {
        side
    }
}

/// Whether the samples of any `n` pixels can be summed up and rounded in 32 bits, where
/// they are whole numbers; in any case the pixels can be counted in 32 bits.
pub open spec fn sums_up(samples: Samples, n: nat) -> bool {
    match samples {
        Samples::Bytes => 255 * n + n / 2 <= u32::MAX,
        Samples::Words => 65535 * n + n / 2 <= u32::MAX,
        Samples::Floats => n <= u32::MAX,
    }
}

/// Whether an image of some size has to be scaled down to be no longer than
/// `max_px` on either side.
pub open spec fn too_large(w: u32, h: u32, max_px: u32) -> bool {
    w > max_px || h > max_px
}

/// Whether every image of some size, with samples of some kind, can be scaled down
/// where it is too large: the pixels that go into one pixel of the copy can be summed
/// up. An image with no pixels can be, as far as the copy is not too long.
pub open spec fn can_scale(w: u32, h: u32, samples: Samples, max_px: u32) -> bool {
    let long = longer(w, h);
    if w == 0 || h == 0 {
        max_px <= 0x7ff_ffff
    } else {
        w as nat * h as nat <= 0x1_0000_0000_0000 && sums_up(
            samples,
            side_share(w as nat, long, max_px) * side_share(h as nat, long, max_px),
        )
    }
}

/// Whether an image with transparency can be scaled down for what its samples are.
pub open spec fn can_scale_samples(w: u32, h: u32, samples: Seq<u16>, max_px: u32) -> bool {
    let long = longer(w, h);
    &&& w > 0
    &&& h > 0
    &&& w as nat * h as nat <= 0x1_0000_0000_0000
    &&& windows_fit(
        samples,
        w as nat,
        h as nat,
        side_share(w as nat, long, max_px),
        side_share(h as nat, long, max_px),
    )
}

/// The samples of an image with transparency, four for each pixel.
pub open spec fn rgba_samples(img: DynamicImage) -> Option<Seq<u16>> {
    match rgba_words(img) {
        Some(words) => Some(words),
        None => match rgba_bytes(img) {
            Some(bytes) => Some(widened(bytes)),
            None => None,
        },
    }
}

/// Whether an image that is too large can be scaled down. Where an image has no
/// transparency, that is a matter of its size: the samples that it lacks count in
/// full.
pub open spec fn is_scalable(img: DynamicImage, max_px: u32) -> bool {
    let w = image_width(img);
    let h = image_height(img);
    can_scale(w, h, image_samples(img), max_px) || match rgba_samples(img) {
        Some(samples) => can_scale_samples(w, h, samples, max_px),
        None => false,
    }
}

/// `image::ImageFormat::from_path` looks at the path alone, not at the file.
#[verifier::external_body]
fn format_of_path(path: &str) -> (r: Option<ImageFormat>)
    ensures
        r == path_format(path@),
{
    ImageFormat::from_path(path).ok()
}

/// `image::ImageReader::decode` on the bytes of a file of a known format.
#[verifier::external_body]
fn decode(bytes: &Vec<u8>, format: ImageFormat) -> (r: Option<DynamicImage>)
    ensures
        r == decoded_image(bytes@, format),
{
    ImageReader::with_format(Cursor::new(bytes), format).decode().ok()
}

/// `image::DynamicImage::width` is the width of the image.
#[verifier::external_body]
fn width_of(img: &DynamicImage) -> (r: u32)
    ensures
        r == image_width(*img),
{
    img.width()
}

/// `image::DynamicImage::height` is the height of the image.
#[verifier::external_body]
fn height_of(img: &DynamicImage) -> (r: u32)
    ensures
        r == image_height(*img),
{
    img.height()
}

/// `image::DynamicImage::color` names the number of bits of the samples. A variant
/// that is not known counts as one with sixteen bits, which sum up the least.
#[verifier::external_body]
fn samples_of(img: &DynamicImage) -> (r: Samples)
    ensures
        r == image_samples(*img),
{
    match img.color() {
        ColorType::L8 => Samples::Bytes,
        ColorType::La8 => Samples::Bytes,
        ColorType::Rgb8 => Samples::Bytes,
        ColorType::Rgba8 => Samples::Bytes,
        ColorType::L16 => Samples::Words,
        ColorType::La16 => Samples::Words,
        ColorType::Rgb16 => Samples::Words,
        ColorType::Rgba16 => Samples::Words,
        ColorType::Rgb32F => Samples::Floats,
        ColorType::Rgba32F => Samples::Floats,
        _ => Samples::Words,
    }
}

/// `image::DynamicImage::as_rgba8` is there for images with transparency and eight
/// bits. Its buffer holds the samples row by row, four for each pixel.
#[verifier::external_body]
fn bytes_of(img: &DynamicImage) -> (r: Option<Vec<u8>>)
    ensures
        match r {
            Some(bytes) => rgba_bytes(*img) == Some(bytes@),
            None => rgba_bytes(*img) is None,
        },
{
    img.as_rgba8().cloned().map(RgbaImage::into_raw)
}

/// `image::DynamicImage::as_rgba16` is there for images with transparency and sixteen
/// bits. Its buffer holds the samples row by row, four for each pixel.
#[verifier::external_body]
fn words_of(img: &DynamicImage) -> (r: Option<Vec<u16>>)
    ensures
        match r {
            Some(words) => rgba_words(*img) == Some(words@),
            None => rgba_words(*img) is None,
        },
{
    img.as_rgba16().cloned().map(ImageBuffer::into_raw)
}

/// `image::DynamicImage::thumbnail` with the same bound for both sides scales an
/// image to fit within it. It averages the pixels that go into one pixel of the
/// copy, with 32 bits for the sum of samples that are whole numbers, four for each
/// pixel: the images for which that may not be enough are left out.
#[verifier::external_body]
fn thumbnail(img: &DynamicImage, max_px: u32) -> (r: DynamicImage)
    requires
        too_large(image_width(*img), image_height(*img), max_px),
        is_scalable(*img, max_px),
    ensures
        r == thumbnail_of(*img, max_px),
        max_px > 0 ==> image_width(r) <= max_px && image_height(r) <= max_px,
{
    img.thumbnail(max_px, max_px)
}

/// `image::DynamicImage::write_to` with the PNG format, into memory.
#[verifier::external_body]
fn write_png(img: &DynamicImage) -> (r: Option<Vec<u8>>)
    ensures
        match r {
            Some(png) => png_of(*img) == Some(png@),
            None => png_of(*img) is None,
        },
{
    let mut png = Vec::new();
    img.write_to(&mut Cursor::new(&mut png), ImageFormat::Png).ok()?;
    Some(png)
}

/// The image in a file, by the extension of its path and its bytes.
pub open spec fn file_image(path: Seq<char>, bytes: Seq<u8>) -> Option<DynamicImage> {
    match path_format(path) {
        Some(format) => decoded_image(bytes, format),
        None => None,
    }
}

/// The size in pixels of the image in a file.
pub open spec fn file_dims(path: Seq<char>, bytes: Seq<u8>) -> Option<(u32, u32)> {
    match file_image(path, bytes) {
        Some(img) => Some((image_width(img), image_height(img))),
        None => None,
    }
}

/// An image that is at most `max_px` long on either side: the image itself, or a
/// smaller copy. There is none of an image that cannot be scaled down.
pub open spec fn capped(img: DynamicImage, max_px: u32) -> Option<DynamicImage> {
    let w = image_width(img);
    let h = image_height(img);
    if !too_large(w, h, max_px) {
        Some(img)
    } else if is_scalable(img, max_px) {
        Some(thumbnail_of(img, max_px))
    } else {
        None
    }
}

/// An image as PNG, with its size in pixels.
pub open spec fn sized_png(img: DynamicImage) -> Option<(Seq<u8>, u32, u32)> {
    match png_of(img) {
        Some(png) => Some((png, image_width(img), image_height(img))),
        None => None,
    }
}

/// The image in a file, capped, as PNG, with its size in pixels.
pub open spec fn file_png(path: Seq<char>, bytes: Seq<u8>, max_px: u32) -> Option<
    (Seq<u8>, u32, u32),
> {
    match file_image(path, bytes) {
        Some(img) => match capped(img, max_px) {
            Some(shown) => sized_png(shown),
            None => None,
        },
        None => None,
    }
}

/// Whether an image of a size has to be scaled down.
pub fn needs_downscale(width: u32, height: u32, max_px: u32) -> (r: bool)
    ensures
        r == too_large(width, height, max_px),
{
    width > max_px || height > max_px
}

/// Whether a product is at most `limit`.
fn times_at_most(a: u128, b: u128, limit: u128) -> (r: bool)
    requires
        a > 0,
    ensures
        r == (a * b <= limit),
{
    proof {
        lemma_div_bound(a as int, b as int, limit as int);
    }
    b <= limit / a
}

proof fn lemma_div_bound(a: int, b: int, limit: int)
    requires
        a > 0,
    ensures
        b <= limit / a <==> a * b <= limit,
{
    vstd::arithmetic::div_mod::lemma_fundamental_div_mod(limit, a);
    vstd::arithmetic::div_mod::lemma_mod_bound(limit, a);
    let q = limit / a;
    assert(b <= q ==> a * b <= a * q) by (nonlinear_arith)
        requires
            a > 0,
    ;
    assert(b > q ==> a * b >= a * q + a) by (nonlinear_arith)
        requires
            a > 0,
    ;
}

/// How many pixels of a side go into one pixel of a copy at the most.
fn share_of_side(side: u32, long: u32, max_px: u32) -> (r: u32)
    requires
        0 < side,
        0 < long,
    ensures
        r == side_share(side as nat, long as nat, max_px),
        0 < r <= side,
{
    assert(2 * side as nat * max_px as nat <= 2 * u32::MAX as nat * u32::MAX as nat)
        by (nonlinear_arith)
        requires
            side <= u32::MAX,
            max_px <= u32::MAX,
    ;
    assert(side as nat * max_px as nat <= u32::MAX as nat * u32::MAX as nat) by (nonlinear_arith)
        requires
            side <= u32::MAX,
            max_px <= u32::MAX,
    ;
    let n = (2 * side as u128 * max_px as u128 + long as u128 - 1) / (2 * long as u128);
    let scaled = if n > 0 {
        n
    } else {
        1
    };
    let quotient = side as u128 / scaled;
    assert(quotient <= side) by (nonlinear_arith)
        requires
            quotient == side as u128 / scaled,
            scaled >= 1,
    ;
    assert(side as u128 % scaled == 0 ==> quotient > 0) by {
        vstd::arithmetic::div_mod::lemma_fundamental_div_mod(side as int, scaled as int);
        if quotient == 0 {
            assert(scaled * quotient == 0);
        }
    }
    let share = if side <= 0x100_0000 && scaled <= 2000 && side as u128 % scaled == 0 {
        quotient
    } else if times_at_most(side as u128, scaled, 0x80_0000) {
        quotient + 1
    } else {
        quotient + (side / 0x40_0000) as u128 + 2
    };
    if share < side as u128 {
        share as u32
    } else {
        side
    }
}

/// Whether every image of some size, with samples of some kind, can be scaled down
/// where it is too large.
pub fn can_downscale(width: u32, height: u32, samples: Samples, max_px: u32) -> (r: bool)
    ensures
        r == can_scale(width, height, samples, max_px),
{
    if width == 0 || height == 0 {
        return max_px <= 0x7ff_ffff;
    }
    let long = if width > height {
        width
    } else {
        height
    };
    assert(width as nat * height as nat <= u32::MAX as nat * u32::MAX as nat)
        by (nonlinear_arith)
        requires
            width <= u32::MAX,
            height <= u32::MAX,
    ;
    if width as u64 * height as u64 > 0x1_0000_0000_0000 {
        return false;
    }
    let across = share_of_side(width, long, max_px);
    let down = share_of_side(height, long, max_px);
    assert(across as nat * down as nat <= u32::MAX as nat * u32::MAX as nat) by (nonlinear_arith)
        requires
            across <= u32::MAX,
            down <= u32::MAX,
    ;
    let n = across as u128 * down as u128;
    match samples {
        Samples::Bytes => 255 * n + n / 2 <= u32::MAX as u128,
        Samples::Words => 65535 * n + n / 2 <= u32::MAX as u128,
        Samples::Floats => n <= u32::MAX as u128,
    }
}

/// Whether an image with transparency can be scaled down for what its samples are.
pub fn can_downscale_samples(width: u32, height: u32, samples: &Vec<u16>, max_px: u32) -> (r: bool)
    ensures
        r == can_scale_samples(width, height, samples@, max_px),
{
    if width == 0 || height == 0 {
        return false;
    }
    let long = if width > height {
        width
    } else {
        height
    };
    assert(width as nat * height as nat <= u32::MAX as nat * u32::MAX as nat)
        by (nonlinear_arith)
        requires
            width <= u32::MAX,
            height <= u32::MAX,
    ;
    if width as u64 * height as u64 > 0x1_0000_0000_0000 {
        return false;
    }
    let across = share_of_side(width, long, max_px);
    let down = share_of_side(height, long, max_px);
    windows_sum_up(samples, width, height, across, down)
}

/// Whether an image that is too large can be scaled down.
fn can_scale_image(img: &DynamicImage, width: u32, height: u32, max_px: u32) -> (r: bool)
    requires
        width == image_width(*img),
        height == image_height(*img),
    ensures
        r == is_scalable(*img, max_px),
{
    if can_downscale(width, height, samples_of(img), max_px) {
        return true;
    }
    match words_of(img) {
        Some(words) => can_downscale_samples(width, height, &words, max_px),
        None => match bytes_of(img) {
            Some(bytes) => can_downscale_samples(width, height, &widen(&bytes), max_px),
            None => false,
        },
    }
}

/// The image in the bytes of a file, where it can be decoded.
fn open_image(path: &str, bytes: &Vec<u8>) -> (r: Option<DynamicImage>)
    ensures
        r == file_image(path@, bytes@),
{
    match format_of_path(path) {
        Some(format) => decode(bytes, format),
        None => None,
    }
}

/// The size in pixels of the image in a file of the given bytes.
pub fn decode_dims(path: &str, bytes: &Vec<u8>) -> (r: Option<(u32, u32)>)
    ensures
        r == file_dims(path@, bytes@),
{
    match open_image(path, bytes) {
        Some(img) => Some((width_of(&img), height_of(&img))),
        None => None,
    }
}

/// An image with the size of its file, whose bytes are given where it could be
/// read.
pub open spec fn measured(img: ImageView, bytes: Option<Seq<u8>>) -> ImageView {
    ImageView {
        dims: match bytes {
            Some(b) => file_dims(img.path, b),
            None => None,
        },
        ..img
    }
}

/// Sets the size of an image in pixels from the bytes of its file, where that could
/// be read.
pub fn measure(img: &mut Image, bytes: Option<Vec<u8>>)
    ensures
        final(img).deep_view() == measured(
            old(img).deep_view(),
            match bytes {
                Some(b) => Some(b@),
                None => None,
            },
        ),
{
    img.dims = match bytes {
        Some(b) => decode_dims(img.path.as_str(), &b),
        None => None,
    };
}

/// Decodes the image in a file of the given bytes, scales it down to at most
/// `max_px` on the longest side, and encodes it as PNG. Gives the PNG and its
/// size in pixels.
pub fn encode_png(path: &str, bytes: &Vec<u8>, max_px: u32) -> (r: Option<(Vec<u8>, u32, u32)>)
    ensures
        match r {
            Some((png, w, h)) => file_png(path@, bytes@, max_px) == Some((png@, w, h)) && (max_px
                > 0 ==> w <= max_px && h <= max_px),
            None => file_png(path@, bytes@, max_px) is None,
        },
{
    match open_image(path, bytes) {
        None => None,
        Some(img) => {
            let width = width_of(&img);
            let height = height_of(&img);
            let shown = if !needs_downscale(width, height, max_px) {
                img
            } else if can_scale_image(&img, width, height, max_px) {
                thumbnail(&img, max_px)
            } else {
                return None;
            };
            let w = width_of(&shown);
            let h = height_of(&shown);
            match write_png(&shown) {
                Some(png) => Some((png, w, h)),
                None => None,
            }
        },
    }
}

} // verus!
