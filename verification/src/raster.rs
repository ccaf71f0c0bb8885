//! Raster decoding: the error type of the rasterizers and the conversion of
//! a decoded PNG, JPEG or WebP image into a premultiplied pixmap of the
//! target size.

use vstd::prelude::*;
use vstd::std_specs::convert::FromSpecImpl;
use tiny_skia::Pixmap;
use crate::lookup::{
    ascii_lower_seq, chars_eq, chars_of, final_name, is_plain_name, name_extension, path_extension,
    path_extension_spec, to_ascii_lower,
};
use crate::pixmap::{pixmap_bytes, pixmap_from_rgba, pixmap_height, pixmap_size_ok, pixmap_width, rgba_len};

verus! {

#[verifier::external_type_specification]
#[verifier::external_body]
pub struct ExIoError(std::io::Error);

#[verifier::external_type_specification]
#[verifier::external_body]
pub struct ExSvgError(resvg::usvg::Error);

#[verifier::external_type_specification]
#[verifier::external_body]
pub struct ExImageError(image::ImageError);

/// Why an icon could not be rasterized.
#[derive(Debug)]
pub enum RasterError {
    Io(std::io::Error),
    SvgParse(resvg::usvg::Error),
    ImageDecode(image::ImageError),
    InvalidSize,
    AllocationFailed,
}

impl From<std::io::Error> for RasterError {
    fn from(err: std::io::Error) -> (r: Self) {
        RasterError::Io(err)
    }
}

impl FromSpecImpl<std::io::Error> for RasterError {
    open spec fn obeys_from_spec() -> bool {
        true
    }

    open spec fn from_spec(err: std::io::Error) -> RasterError {
        RasterError::Io(err)
    }
}

impl From<resvg::usvg::Error> for RasterError {
    fn from(err: resvg::usvg::Error) -> (r: Self) {
        RasterError::SvgParse(err)
    }
}

impl FromSpecImpl<resvg::usvg::Error> for RasterError {
    open spec fn obeys_from_spec() -> bool {
        true
    }

    open spec fn from_spec(err: resvg::usvg::Error) -> RasterError {
        RasterError::SvgParse(err)
    }
}

impl From<image::ImageError> for RasterError {
    fn from(err: image::ImageError) -> (r: Self) {
        RasterError::ImageDecode(err)
    }
}

impl FromSpecImpl<image::ImageError> for RasterError {
    open spec fn obeys_from_spec() -> bool {
        true
    }

    open spec fn from_spec(err: image::ImageError) -> RasterError {
        RasterError::ImageDecode(err)
    }
}

/// The image that `image` decodes from encoded bytes (format guessed from
/// the data), converted to 8-bit straight RGBA: width, height and pixels.
pub uninterp spec fn image_decoding(data: Seq<u8>) -> Option<(u32, u32, Seq<u8>)>;

/// Decodes a PNG, JPEG or WebP image to 8-bit straight RGBA
/// (`image::load_from_memory`, then `DynamicImage::into_rgba8`). The pixel
/// buffer has `width * height * 4` bytes.
#[verifier::external_body]
pub(crate) fn decode_rgba8(data: &[u8]) -> (r: Result<(u32, u32, Vec<u8>), image::ImageError>)
    ensures
        r is Ok <==> image_decoding(data@) is Some,
        r matches Ok((w, h, px)) ==> image_decoding(data@) == Some((w, h, px@)),
        r matches Ok((w, h, px)) ==> px@.len() == rgba_len(w, h),
{
    let img = image::load_from_memory(data)?.into_rgba8();
    let (w, h) = img.dimensions();
    Ok((w, h, img.into_raw()))
}

/// Resizes straight RGBA pixels with the Lanczos-3 filter
/// (`image::imageops::resize`). The result always has the requested size,
/// and a resize to the same size copies the pixels. What a real resize gives
/// is left unsaid: the filter computes in floating point with `f32::sin`,
/// whose precision std does not fix.
#[verifier::external_body]
pub(crate) fn resize_rgba_lanczos3(width: u32, height: u32, rgba: Vec<u8>, new_width: u32, new_height: u32) -> (out: Vec<u8>)
    requires
        rgba@.len() == rgba_len(width, height),
        rgba_len(new_width, new_height) <= usize::MAX,
    ensures
        out@.len() == rgba_len(new_width, new_height),
        (width == new_width && height == new_height) ==> out@ == rgba@,
{
    let img = image::RgbaImage::from_raw(width, height, rgba).unwrap();
    image::imageops::resize(&img, new_width, new_height, image::imageops::FilterType::Lanczos3).into_raw()
}

/// Transparent black over the nearly transparent pixels (alpha at most 8) of
/// a straight RGBA buffer, so that their color cannot bleed when resampled.
pub open spec fn clear_faint_pixels(px: Seq<u8>) -> Seq<u8> {
    Seq::new(px.len(), |i: int| if px[4 * (i / 4) + 3] <= 8 { 0u8 } else { px[i] })
}

/// A straight color channel premultiplied by an alpha: `c * a / 255`,
/// rounded to nearest (the quotient is never exactly halfway).
pub open spec fn premultiply_channel(c: u8, a: u8) -> u8 {
    ((c as int * a as int + 127) / 255) as u8
}

/// The premultiplied buffer built from resized straight pixels: a pixel with
/// alpha above 8 gets its color channels premultiplied by its alpha and
/// keeps the alpha; any other pixel stays transparent black.
pub open spec fn placed_bytes(px: Seq<u8>) -> Seq<u8> {
    Seq::new(
        px.len(),
        |i: int|
            {
                let a = px[4 * (i / 4) + 3];
                if a <= 8 {
                    0u8
                } else if i % 4 == 3 {
                    a
                } else {
                    premultiply_channel(px[i], a)
                }
            },
    )
}

/// What placing does to each pixel of a straight RGBA buffer: a pixel whose
/// alpha is above 8 keeps its alpha, and each of its color channels becomes
/// the nearest whole number to `c * a / 255` (so it never exceeds the
/// alpha, as premultiplied color must not); a pixel whose alpha is at most
/// 8 becomes transparent black.
pub proof fn lemma_placed_pixel(px: Seq<u8>, k: int, ch: int)
    requires
        px.len() % 4 == 0,
        0 <= k,
        4 * k + 3 < px.len(),
        0 <= ch < 3,
    ensures
        px[4 * k + 3] > 8 ==> placed_bytes(px)[4 * k + 3] == px[4 * k + 3],
        px[4 * k + 3] > 8 ==> placed_bytes(px)[4 * k + ch] <= px[4 * k + 3],
        px[4 * k + 3] > 8 ==> -127 <= 255 * placed_bytes(px)[4 * k + ch] - px[4 * k + ch] * px[4 * k + 3] <= 127,
        px[4 * k + 3] <= 8 ==> placed_bytes(px)[4 * k + 3] == 0 && placed_bytes(px)[4 * k + ch] == 0,
{
    let i = 4 * k + ch;
    let a = px[4 * k + 3];
    let c = px[i];
    assert(i / 4 == k);
    assert((4 * k + 3) / 4 == k);
    assert(i % 4 == ch);
    assert((4 * k + 3) % 4 == 3);
    if a > 8 {
        let v = (c as int * a as int + 127) / 255;
        assert(0 <= v <= a && -127 <= 255 * v - c * a <= 127) by (nonlinear_arith)
            requires
                v == (c as int * a as int + 127) / 255,
                0 <= c <= 255,
                0 <= a <= 255,
        ;
        assert(placed_bytes(px)[i] == v as u8);
    }
}

/// Zeroes the pixels whose alpha is at most 8.
pub fn clear_faint(px: &mut Vec<u8>)
    requires
        old(px)@.len() % 4 == 0,
    ensures
        final(px)@ == clear_faint_pixels(old(px)@),
{
    let ghost orig = px@;
    let len = px.len();
    let n = len / 4;
    let mut k: usize = 0;
    while k < n
        invariant
            n * 4 == orig.len(),
            len == orig.len(),
            px@.len() == orig.len(),
            k <= n,
            forall|i: int| 0 <= i < 4 * k ==> px@[i] == clear_faint_pixels(orig)[i],
            forall|i: int| 4 * k <= i < orig.len() ==> px@[i] == orig[i],
        decreases n - k,
    {
        let i = 4 * k;
        if px[i + 3] <= 8 {
            px.set(i, 0);
            px.set(i + 1, 0);
            px.set(i + 2, 0);
            px.set(i + 3, 0);
        }
        proof {
            assert forall|j: int| 4 * k <= j < 4 * k + 4 implies px@[j] == clear_faint_pixels(orig)[j] by {
                assert(j / 4 == k as int);
            }
        }
        k = k + 1;
    }
    proof {
        assert(px@ =~= clear_faint_pixels(orig));
    }
}

/// Premultiplies a straight color channel by an alpha.
fn premultiply(c: u8, a: u8) -> (v: u8)
    ensures
        v == premultiply_channel(c, a),
{
    assert((c as u32) * (a as u32) <= 255 * 255) by (nonlinear_arith)
        requires
            c <= 255u8,
            a <= 255u8,
    ;
    let q: u32 = ((c as u32) * (a as u32) + 127) / 255;
    q as u8
}

/// Builds the premultiplied buffer from resized straight pixels.
pub fn place_pixels(px: &Vec<u8>) -> (out: Vec<u8>)
    requires
        px@.len() % 4 == 0,
    ensures
        out@ == placed_bytes(px@),
{
    let len = px.len();
    let n = len / 4;
    let mut out: Vec<u8> = Vec::new();
    let mut k: usize = 0;
    while k < n
        invariant
            n * 4 == px@.len(),
            len == px@.len(),
            k <= n,
            out@.len() == 4 * k,
            forall|i: int| 0 <= i < 4 * k ==> out@[i] == placed_bytes(px@)[i],
        decreases n - k,
    {
        let i = 4 * k;
        let r = px[i];
        let g = px[i + 1];
        let b = px[i + 2];
        let a = px[i + 3];
        if a > 8 {
            out.push(premultiply(r, a));
            out.push(premultiply(g, a));
            out.push(premultiply(b, a));
            out.push(a);
        } else {
            out.push(0);
            out.push(0);
            out.push(0);
            out.push(0);
        }
        proof {
            assert forall|j: int| 4 * k <= j < 4 * k + 4 implies out@[j] == placed_bytes(px@)[j] by {
                assert(j / 4 == k as int);
            }
        }
        k = k + 1;
    }
    proof {
        assert(out@ =~= placed_bytes(px@));
    }
    out
}

/// Whether `tiny_skia` can hold a pixmap of the given size, computed.
pub fn size_fits_pixmap(width: u32, height: u32) -> (ok: bool)
    ensures
        ok == pixmap_size_ok(width, height),
{
    if width == 0 || height == 0 {
        return false;
    }
    if (width as u64) * 4 > 0x7fff_ffff {
        return false;
    }
    match (width as usize).checked_mul(height as usize) {
        Some(n) => n.checked_mul(4).is_some(),
        None => false,
    }
}

/// Decodes and rescales a raster image (PNG, JPEG, WebP) into a premultiplied
/// `tiny_skia::Pixmap`.
///
/// Nearly transparent pixels (alpha at most 8) are cleared before Lanczos-3
/// resampling; after it, each pixel with alpha above 8 is premultiplied and
/// the others are transparent. A resize to the decoded size changes nothing,
/// so then the result is known exactly; what a real resampling gives is not
/// stated.
pub fn rasterize_image_data(image_data: &[u8], target_width: u32, target_height: u32) -> (r: Result<Pixmap, RasterError>)
    ensures
        (target_width == 0 || target_height == 0) ==> r matches Err(RasterError::InvalidSize),
        (target_width > 0 && target_height > 0 && image_decoding(image_data@) is None) ==> r matches Err(
            RasterError::ImageDecode(_),
        ),
        (target_width > 0 && target_height > 0 && image_decoding(image_data@) is Some && !pixmap_size_ok(
            target_width,
            target_height,
        )) ==> r matches Err(RasterError::AllocationFailed),
        r is Ok <==> (target_width > 0 && target_height > 0 && image_decoding(image_data@) is Some
            && pixmap_size_ok(target_width, target_height)),
        r matches Ok(p) ==> {
            &&& pixmap_width(p) == target_width
            &&& pixmap_height(p) == target_height
            &&& exists|resized: Seq<u8>|
                resized.len() == rgba_len(target_width, target_height) && pixmap_bytes(p) == #[trigger] placed_bytes(
                    resized,
                )
        },
        r matches Ok(p) ==> {
            let (w, h, px) = image_decoding(image_data@)->0;
            (w == target_width && h == target_height) ==> pixmap_bytes(p) == placed_bytes(clear_faint_pixels(px))
        },
{
    if target_width == 0 || target_height == 0 {
        return Err(RasterError::InvalidSize);
    }
    let (w, h, mut px) = match decode_rgba8(image_data) {
        Ok(d) => d,
        Err(e) => return Err(RasterError::ImageDecode(e)),
    };
    if !size_fits_pixmap(target_width, target_height) {
        return Err(RasterError::AllocationFailed);
    }
    assert(px@.len() % 4 == 0) by (nonlinear_arith)
        requires
            px@.len() == (w as int) * (h as int) * 4,
    ;
    clear_faint(&mut px);
    let resized = resize_rgba_lanczos3(w, h, px, target_width, target_height);
    assert(resized@.len() % 4 == 0) by (nonlinear_arith)
        requires
            resized@.len() == (target_width as int) * (target_height as int) * 4,
    ;
    let placed = place_pixels(&resized);
    proof {
        assert(placed@ == placed_bytes(resized@));
    }
    match pixmap_from_rgba(target_width, target_height, placed) {
        Some(p) => Ok(p),
        None => Err(RasterError::AllocationFailed),
    }
}

/// Whether a path names an SVG file: its extension, compared without regard
/// to ASCII case, is `svg`.
pub open spec fn is_svg_path_spec(path: Seq<char>) -> bool {
    is_svg_ext(path_extension_spec(path))
}

/// Whether an extension, compared without regard to ASCII case, is `svg`.
pub open spec fn is_svg_ext(ext: Option<Seq<char>>) -> bool {
    match ext {
        Some(e) => ascii_lower_seq(e) == "svg"@,
        None => false,
    }
}

/// Checks whether a path names an SVG file.
pub fn is_svg_path(path: &str) -> (r: bool)
    ensures
        r == is_svg_path_spec(path@),
        is_plain_name(final_name(path@)) ==> r == is_svg_ext(name_extension(final_name(path@))),
{
    match path_extension(path) {
        Some(ext) => {
            let lower = to_ascii_lower(ext.as_str());
            let svg = chars_of("svg");
            chars_eq(&lower, &svg)
        },
        None => false,
    }
}

} // verus!
