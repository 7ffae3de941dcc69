//! Screenshots: where they are cut out, how they are encoded, and where they go.

use crate::paths::{
    extended_path, has_double_dot, is_plain_path, last_component, name_extension, path_extension,
    path_extension_text, path_text, path_with_extension, without_extension,
};
use crate::text::same_text;
use image::ImageEncoder;
use std::path::PathBuf;
use vstd::prelude::*;

verus! {

/// What happens to a captured image.
#[derive(Debug, Clone, Copy, PartialEq, Eq, Structural)]
pub enum ImageCaptureAction {
    Copy,
    Export,
}

/// What an image is captured of.
#[derive(Debug, Clone, Copy, PartialEq, Eq, Structural)]
pub enum ImageCaptureKind {
    Workspace,
    Plot,
}

/// A PNG file to be written.
pub struct PngWriteRequest {
    pub path: PathBuf,
    pub png_bytes: Vec<u8>,
}

/// The path under which a PNG file is written: with the extension `png` in
/// place of any other.
pub open spec fn png_path_text(text: Seq<char>) -> Seq<char> {
    if name_extension(last_component(text)) == Some("png"@) {
        text
    } else {
        without_extension(text) + seq!['.'] + "png"@
    }
}

/// The path with the extension `png`: a path that has it stays as it is.
pub open spec fn png_path_of(path: PathBuf) -> PathBuf {
    if path_extension_text(path) == Some("png"@) {
        path
    } else {
        extended_path(path, "png"@)
    }
}

impl PngWriteRequest {
    pub fn new(path: PathBuf, png_bytes: Vec<u8>) -> (r: PngWriteRequest)
        ensures
            r.png_bytes@ == png_bytes@,
            r.path == png_path_of(path),
            png_path_of(r.path) == r.path,
            path_text(path) is Some && is_plain_path(path_text(path).unwrap()) ==> path_text(
                r.path,
            ) == Some(png_path_text(path_text(path).unwrap())),
    {
        PngWriteRequest { path: png_path(path), png_bytes }
    }
}

/// The path with the extension `png`. Doing it again changes nothing. Where no
/// two dots follow one another in the path, only one without a file name is left
/// without the extension.
pub fn png_path(path: PathBuf) -> (r: PathBuf)
    ensures
        r == png_path_of(path),
        png_path_of(r) == r,
        path_text(path) is Some && !has_double_dot(path_text(path).unwrap())
            ==> path_extension_text(r) == Some("png"@) || r == path,
        path_text(path) is Some && is_plain_path(path_text(path).unwrap()) ==> path_text(r) == Some(
            png_path_text(path_text(path).unwrap()),
        ),
{
    let is_png = match path_extension(&path) {
        Some(extension) => same_text(extension.as_str(), "png"),
        None => false,
    };
    if !is_png {
        proof {
            reveal_strlit("png");
        }
        return path_with_extension(&path, "png");
    }
    path
}

/// A rectangle of pixels.
#[derive(Debug, Clone, Copy, PartialEq, Eq, Structural)]
pub struct PixelRect {
    pub x: usize,
    pub y: usize,
    pub w: usize,
    pub h: usize,
}

pub open spec fn smaller(a: usize, b: usize) -> usize {
    if a <= b {
        a
    } else {
        b
    }
}

/// The part of the rectangle from `min` to `max` that lies in an image.
pub open spec fn clamped_rect(min: [usize; 2], max: [usize; 2], size: [usize; 2]) -> Option<
    PixelRect,
> {
    let x0 = smaller(min[0], size[0]);
    let y0 = smaller(min[1], size[1]);
    let x1 = smaller(max[0], size[0]);
    let y1 = smaller(max[1], size[1]);
    if x1 > x0 && y1 > y0 {
        Some(PixelRect { x: x0, y: y0, w: (x1 - x0) as usize, h: (y1 - y0) as usize })
    } else {
        None
    }
}

/// The part of the rectangle from `min` to `max`, in whole pixels, that lies in
/// an image; `None` where it is empty.
pub fn pixel_rect_for_image(
    min: [usize; 2],
    max: [usize; 2],
    image_size: [usize; 2],
) -> (r: Option<PixelRect>)
    ensures
        r == clamped_rect(min, max, image_size),
        r matches Some(px) ==> px.x + px.w <= image_size[0] && px.y + px.h <= image_size[1] && px.w
            > 0 && px.h > 0,
{
    let x0: usize = if min[0] <= image_size[0] {
        min[0]
    } else {
        image_size[0]
    };
    let y0: usize = if min[1] <= image_size[1] {
        min[1]
    } else {
        image_size[1]
    };
    let x1: usize = if max[0] <= image_size[0] {
        max[0]
    } else {
        image_size[0]
    };
    let y1: usize = if max[1] <= image_size[1] {
        max[1]
    } else {
        image_size[1]
    };
    if x1 > x0 && y1 > y0 {
        Some(PixelRect { x: x0, y: y0, w: x1 - x0, h: y1 - y0 })
    } else {
        None
    }
}

/// An image, row by row from the top, each pixel as red, green, blue and alpha.
pub struct ColorImage {
    pub size: [usize; 2],
    pub pixels: Vec<[u8; 4]>,
}

impl ColorImage {
    /// There is one pixel for each place.
    pub open spec fn well_formed(&self) -> bool {
        self.size[0] * self.size[1] == self.pixels@.len()
    }

    /// The pixel in column `x` of row `y`.
    pub open spec fn at(&self, x: int, y: int) -> [u8; 4] {
        self.pixels@[y * self.size[0] + x]
    }
}

/// Whether `part` is what `whole` shows in the rectangle.
pub open spec fn is_region(whole: ColorImage, px: PixelRect, part: ColorImage) -> bool {
    &&& part.well_formed()
    &&& part.size[0] == px.w
    &&& part.size[1] == px.h
    &&& forall|x: int, y: int|
        0 <= x < px.w && 0 <= y < px.h ==> #[trigger] part.at(x, y) == whole.at(px.x + x, px.y + y)
}

proof fn lemma_cell(w: int, h: int, x: int, y: int)
    requires
        0 <= x < w,
        0 <= y < h,
    ensures
        0 <= y * w + x < w * h,
        y * w + x < (y + 1) * w,
        (y + 1) * w <= w * h,
{
    assert(y * w >= 0) by (nonlinear_arith)
        requires
            y >= 0,
            w > 0,
    ;
    assert((y + 1) * w == y * w + w) by (nonlinear_arith);
    assert((y + 1) * w <= h * w) by (nonlinear_arith)
        requires
            y + 1 <= h,
            w > 0,
    ;
    assert(h * w == w * h) by (nonlinear_arith);
}

/// Where a pixel stands in the list, and that distinct places do not coincide.
proof fn lemma_cell_order(w: int, x: int, y: int, row: int, col: int)
    requires
        0 <= x < w,
        0 <= col <= w,
        0 <= y,
        0 <= row,
    ensures
        y * w + x < row * w + col <==> y < row || y == row && x < col,
{
    if y < row {
        assert(y * w + w <= row * w) by (nonlinear_arith)
            requires
                y + 1 <= row,
                w > 0,
        ;
    } else if y > row {
        assert(row * w + w <= y * w) by (nonlinear_arith)
            requires
                row + 1 <= y,
                w > 0,
        ;
    }
}

/// The part of an image in a rectangle.
pub fn region_by_pixels(image: &ColorImage, px: PixelRect) -> (r: ColorImage)
    requires
        image.well_formed(),
        px.x + px.w <= image.size[0],
        px.y + px.h <= image.size[1],
    ensures
        is_region(*image, px, r),
{
    let mut pixels: Vec<[u8; 4]> = Vec::new();
    let width: usize = image.size[0];
    let total: usize = image.pixels.len();
    let mut row: usize = 0;
    proof {
        assert(0 * px.w == 0);
    }
    while row < px.h
        invariant
            row <= px.h,
            image.well_formed(),
            width == image.size[0],
            total == image.pixels@.len(),
            px.x + px.w <= image.size[0],
            px.y + px.h <= image.size[1],
            pixels@.len() == row * px.w,
            forall|x: int, y: int|
                0 <= x < px.w && 0 <= y < row ==> #[trigger] pixels@[y * px.w + x] == image.at(
                    px.x + x,
                    px.y + y,
                ),
        decreases px.h - row,
    {
        let mut col: usize = 0;
        while col < px.w
            invariant
                row < px.h,
                col <= px.w,
                image.well_formed(),
                width == image.size[0],
                total == image.pixels@.len(),
                px.x + px.w <= image.size[0],
                px.y + px.h <= image.size[1],
                pixels@.len() == row * px.w + col,
                forall|x: int, y: int|
                    0 <= x < px.w && 0 <= y && (y < row || y == row && x < col)
                        ==> #[trigger] pixels@[y * px.w + x] == image.at(px.x + x, px.y + y),
            decreases px.w - col,
        {
            proof {
                lemma_cell(
                    width as int,
                    image.size[1] as int,
                    px.x + col as int,
                    px.y + row as int,
                );
                assert((px.y + row) * width >= 0) by (nonlinear_arith);
                assert((px.y + row) * width + (px.x + col) < total);
            }
            let ghost before = pixels@;
            let at: usize = (px.y + row) * width + px.x + col;
            pixels.push(image.pixels[at]);
            proof {
                assert forall|x: int, y: int|
                    0 <= x < px.w && 0 <= y && (y < row || y == row && x < col + 1) implies #[trigger] pixels@[y
                    * px.w + x] == image.at(px.x + x, px.y + y) by {
                    lemma_cell_order(px.w as int, x, y, row as int, col as int);
                    assert(y * px.w >= 0) by (nonlinear_arith)
                        requires
                            y >= 0,
                    ;
                    if y == row && x == col {
                        assert(pixels@[y * px.w + x] == image.pixels@[at as int]);
                        assert(image.at(px.x + x, px.y + y) == image.pixels@[(px.y + y) * width
                            + (px.x + x)]);
                    } else {
                        assert(y * px.w + x < before.len());
                        assert(pixels@[y * px.w + x] == before[y * px.w + x]);
                    }
                }
            }
            col = col + 1;
        }
        proof {
            assert((row + 1) * px.w == row * px.w + px.w) by (nonlinear_arith);
        }
        row = row + 1;
    }
    let out = ColorImage { size: [px.w, px.h], pixels };
    proof {
        assert(px.h * px.w == px.w * px.h) by (nonlinear_arith);
        assert(out.size[0] == px.w && out.size[1] == px.h);
        assert forall|x: int, y: int| 0 <= x < px.w && 0 <= y < px.h implies #[trigger] out.at(x, y)
            == image.at(px.x + x, px.y + y) by {
            assert(pixels@[y * px.w + x] == image.at(px.x + x, px.y + y));
        }
    }
    out
}

/// Cuts the rectangle from `min` to `max` out of an image; `None` where none of
/// it lies in the image.
pub fn crop_color_image(image: &ColorImage, min: [usize; 2], max: [usize; 2]) -> (r: Option<
    ColorImage,
>)
    requires
        image.well_formed(),
    ensures
        r is Some == clamped_rect(min, max, image.size) is Some,
        r matches Some(part) ==> is_region(
            *image,
            clamped_rect(min, max, image.size).unwrap(),
            part,
        ),
{
    match pixel_rect_for_image(min, max, image.size) {
        Some(px) => Some(region_by_pixels(image, px)),
        None => None,
    }
}

/// `image::ImageError`, the reason for which an image could not be encoded.
#[verifier::external_type_specification]
#[verifier::external_body]
pub struct ExImageError(image::ImageError);

/// The bytes that `image::codecs::png::PngEncoder` writes for an image of eight
/// bits per channel with alpha.
pub uninterp spec fn png_encoding(rgba: Seq<u8>, width: u32, height: u32) -> Seq<u8>;

/// The eight bytes with which a PNG file begins.
pub open spec fn png_signature() -> Seq<u8> {
    seq![0x89u8, 0x50, 0x4e, 0x47, 0x0d, 0x0a, 0x1a, 0x0a]
}

/// `PngEncoder::write_image` into memory. It fails on an image without pixels
/// and on no other, and what it writes begins with the PNG signature.
#[verifier::external_body]
fn write_png(rgba: &Vec<u8>, width: u32, height: u32) -> (r: Result<Vec<u8>, image::ImageError>)
    requires
        rgba@.len() == width * height * 4,
    ensures
        r is Ok == (width > 0 && height > 0),
        match r {
            Ok(bytes) => bytes@ == png_encoding(rgba@, width, height) && bytes@.len() >= 8
                && bytes@.take(8) == png_signature(),
            Err(_) => true,
        },
{
    let mut out = Vec::new();
    let encoder = image::codecs::png::PngEncoder::new(&mut out);
    encoder.write_image(rgba, width, height, image::ExtendedColorType::Rgba8)?;
    Ok(out)
}

/// Why an image could not be encoded.
pub struct PngError {
    pub cause: image::ImageError,
}

/// The channels of pixels one after the other.
pub open spec fn flat_channels(pixels: Seq<[u8; 4]>) -> Seq<u8> {
    Seq::new(pixels.len() * 4, |i: int| pixels[i / 4][i % 4])
}

fn channels(pixels: &Vec<[u8; 4]>) -> (r: Vec<u8>)
    ensures
        r@ == flat_channels(pixels@),
{
    let mut rgba: Vec<u8> = Vec::new();
    let mut i: usize = 0;
    while i < pixels.len()
        invariant
            i <= pixels@.len(),
            rgba@ == flat_channels(pixels@.take(i as int)),
        decreases pixels@.len() - i,
    {
        let p = pixels[i];
        rgba.push(p[0]);
        rgba.push(p[1]);
        rgba.push(p[2]);
        rgba.push(p[3]);
        proof {
            assert(rgba@ =~= flat_channels(pixels@.take(i + 1)));
        }
        i = i + 1;
    }
    proof {
        assert(pixels@.take(i as int) =~= pixels@);
    }
    rgba
}

/// Encodes an image as PNG.
pub fn encode_png(image: &ColorImage) -> (r: Result<Vec<u8>, PngError>)
    requires
        image.well_formed(),
        image.size[0] <= u32::MAX,
        image.size[1] <= u32::MAX,
    ensures
        r is Ok <==> image.pixels@.len() > 0,
        r matches Ok(bytes) ==> bytes@ == png_encoding(
            flat_channels(image.pixels@),
            image.size[0] as u32,
            image.size[1] as u32,
        ) && bytes@.len() >= 8 && bytes@.take(8) == png_signature(),
{
    let rgba = channels(&image.pixels);
    proof {
        let (w, h) = (image.size[0] as int, image.size[1] as int);
        assert(w > 0 && h > 0 <==> w * h > 0) by (nonlinear_arith)
            requires
                w >= 0,
                h >= 0,
        ;
    }
    match write_png(&rgba, image.size[0] as u32, image.size[1] as u32) {
        Ok(bytes) => Ok(bytes),
        Err(cause) => Err(PngError { cause }),
    }
}

} // verus!
