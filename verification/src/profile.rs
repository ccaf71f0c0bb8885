//! Pixel measurements that classify an icon's silhouette: the bounding box
//! of its opaque pixels, what touches the canvas edges and corners, the spans
//! of a card's borders, and the colors sampled from a card, a rim or a dark
//! host surface.

use vstd::prelude::*;
use tiny_skia::Pixmap;
use crate::pixmap::{
    pixmap_bytes, pixmap_data, pixmap_height, pixmap_height_of, pixmap_width, pixmap_width_of,
    rgba_len,
};

verus! {

/// An 8-bit RGBA color.
#[derive(Clone, Copy, Debug, PartialEq, Eq, Structural)]
pub struct Rgba8 {
    pub r: u8,
    pub g: u8,
    pub b: u8,
    pub a: u8,
}

/// The pixel at `(x, y)` of a `w` x `h` buffer, read the way
/// `tiny_skia::Pixmap::pixel` reads it: by the linear index `y * w + x`,
/// computed in 32 bits without overflow, which must fall inside the buffer.
pub open spec fn spec_pixel(bytes: Seq<u8>, w: u32, h: u32, x: int, y: int) -> Option<Rgba8> {
    let i = y * w + x;
    if 0 <= x && 0 <= y && i <= u32::MAX && i < w as int * h as int {
        Some(Rgba8 { r: bytes[4 * i], g: bytes[4 * i + 1], b: bytes[4 * i + 2], a: bytes[4 * i + 3] })
    } else {
        None
    }
}

/// Whether the pixel at `(x, y)` exists and its alpha exceeds `threshold`.
pub open spec fn alpha_above(bytes: Seq<u8>, w: u32, h: u32, x: int, y: int, threshold: u8) -> bool {
    spec_pixel(bytes, w, h, x, y) matches Some(p) && p.a > threshold
}

/// Reads the pixel at `(x, y)`, or `None` where its linear index falls
/// outside the buffer.
pub fn pixel_at(data: &[u8], w: u32, h: u32, x: u32, y: u32) -> (r: Option<Rgba8>)
    requires
        data@.len() == rgba_len(w, h),
    ensures
        r == spec_pixel(data@, w, h, x as int, y as int),
{
    assert((w as int) * (y as int) <= 0xffff_fffe_0000_0001int) by (nonlinear_arith)
        requires
            w <= 0xffff_ffffu32,
            y <= 0xffff_ffffu32,
    ;
    assert((w as int) * (h as int) <= 0xffff_fffe_0000_0001int) by (nonlinear_arith)
        requires
            w <= 0xffff_ffffu32,
            h <= 0xffff_ffffu32,
    ;
    let idx: u64 = (w as u64) * (y as u64) + (x as u64);
    let n: u64 = (w as u64) * (h as u64);
    assert(idx as int == y as int * w as int + x as int) by (nonlinear_arith)
        requires
            idx as int == (w as int) * (y as int) + x as int,
    ;
    assert(n as int * 4 == rgba_len(w, h)) by (nonlinear_arith)
        requires
            n as int == (w as int) * (h as int),
    ;
    let dl = data.len();
    if idx <= 0xffff_ffff && idx < n {
        assert(idx as int * 4 < dl as int) by (nonlinear_arith)
            requires
                idx < n,
                n as int * 4 == dl as int,
        ;
        let i = (idx * 4) as usize;
        Some(Rgba8 { r: data[i], g: data[i + 1], b: data[i + 2], a: data[i + 3] })
    } else {
        None
    }
}

/// Count and bounding box of the pixels whose alpha exceeds 32.
#[derive(Clone, Copy, Debug, PartialEq, Eq, Structural)]
pub struct OpaqueBounds {
    pub count: u64,
    pub min_x: u32,
    pub max_x: u32,
    pub min_y: u32,
    pub max_y: u32,
}

/// Alpha above which a pixel counts as part of the icon's silhouette.
pub const SILHOUETTE_ALPHA: u8 = 32;

/// Whether `(x, y)` is a silhouette pixel.
pub open spec fn is_opaque(bytes: Seq<u8>, w: u32, h: u32, x: int, y: int) -> bool {
    alpha_above(bytes, w, h, x, y, SILHOUETTE_ALPHA)
}

/// Number of silhouette pixels among the first `c` columns of row `y`.
pub open spec fn row_opaque_count(bytes: Seq<u8>, w: u32, h: u32, y: int, c: int) -> nat
    decreases c,
{
    if c <= 0 {
        0
    } else {
        row_opaque_count(bytes, w, h, y, c - 1) + if is_opaque(bytes, w, h, c - 1, y) {
            1nat
        } else {
            0nat
        }
    }
}

/// Number of silhouette pixels among the first `r` rows.
pub open spec fn rows_opaque_count(bytes: Seq<u8>, w: u32, h: u32, r: int) -> nat
    decreases r,
{
    if r <= 0 {
        0
    } else {
        rows_opaque_count(bytes, w, h, r - 1) + row_opaque_count(bytes, w, h, r - 1, w as int)
    }
}

/// The bounds of the silhouette of a `w` x `h` buffer: `b` holds its pixel
/// count, and its box is the smallest one that holds every silhouette pixel.
pub open spec fn is_silhouette_bounds(bytes: Seq<u8>, w: u32, h: u32, b: OpaqueBounds) -> bool {
    &&& b.count == rows_opaque_count(bytes, w, h, h as int)
    &&& forall|x: int, y: int|
        0 <= x < w && 0 <= y < h && #[trigger] is_opaque(bytes, w, h, x, y) ==> b.min_x <= x
            <= b.max_x && b.min_y <= y <= b.max_y
    &&& exists|y: int| 0 <= y < h && #[trigger] is_opaque(bytes, w, h, b.min_x as int, y)
    &&& exists|y: int| 0 <= y < h && #[trigger] is_opaque(bytes, w, h, b.max_x as int, y)
    &&& exists|x: int| 0 <= x < w && #[trigger] is_opaque(bytes, w, h, x, b.min_y as int)
    &&& exists|x: int| 0 <= x < w && #[trigger] is_opaque(bytes, w, h, x, b.max_y as int)
}

/// Whether the buffer has any silhouette pixel.
pub open spec fn has_silhouette(bytes: Seq<u8>, w: u32, h: u32) -> bool {
    exists|x: int, y: int| 0 <= x < w && 0 <= y < h && #[trigger] is_opaque(bytes, w, h, x, y)
}

/// Scans a pixmap for the count and bounding box of its silhouette pixels
/// (alpha above 32); `None` where there is none.
pub fn opaque_bounds(pixmap: &Pixmap) -> (r: Option<OpaqueBounds>)
    ensures
        r is None <==> !has_silhouette(pixmap_bytes(*pixmap), pixmap_width(*pixmap), pixmap_height(*pixmap)),
        r matches Some(b) ==> is_silhouette_bounds(
            pixmap_bytes(*pixmap),
            pixmap_width(*pixmap),
            pixmap_height(*pixmap),
            b,
        ),
        r matches Some(b) ==> box_fits(b, pixmap_width(*pixmap), pixmap_height(*pixmap)),
{
    let w = pixmap_width_of(pixmap);
    let h = pixmap_height_of(pixmap);
    let data = pixmap_data(pixmap);
    let ghost bytes = data@;
    let mut count: u64 = 0;
    let mut min_x: u32 = w;
    let mut max_x: u32 = 0;
    let mut min_y: u32 = h;
    let mut max_y: u32 = 0;
    let ghost mut wit_min_x: int = 0;
    let ghost mut wit_max_x: int = 0;
    let ghost mut wit_min_y: int = 0;
    let ghost mut wit_max_y: int = 0;
    let mut y: u32 = 0;
    while y < h
        invariant
            data@ == bytes,
            bytes.len() == rgba_len(w, h),
            y <= h,
            count == rows_opaque_count(bytes, w, h, y as int),
            count <= y as int * w as int,
            bytes.len() <= usize::MAX,
            count > 0 ==> min_x <= max_x < w && min_y <= max_y < h,
            count == 0 ==> min_x == w && max_x == 0 && min_y == h && max_y == 0,
            count > 0 ==> {
                &&& 0 <= wit_min_x < y && is_opaque(bytes, w, h, min_x as int, wit_min_x)
                &&& 0 <= wit_max_x < y && is_opaque(bytes, w, h, max_x as int, wit_max_x)
                &&& 0 <= wit_min_y < w && is_opaque(bytes, w, h, wit_min_y, min_y as int)
                &&& 0 <= wit_max_y < w && is_opaque(bytes, w, h, wit_max_y, max_y as int)
            },
            count == 0 ==> forall|xx: int, yy: int|
                0 <= xx < w && 0 <= yy < y ==> !#[trigger] is_opaque(bytes, w, h, xx, yy),
            forall|xx: int, yy: int|
                0 <= xx < w && 0 <= yy < y && #[trigger] is_opaque(bytes, w, h, xx, yy) ==> min_x
                    <= xx <= max_x && min_y <= yy <= max_y,
        decreases h - y,
    {
        let mut x: u32 = 0;
        let ghost row_start = count;
        while x < w
            invariant
                data@ == bytes,
                bytes.len() == rgba_len(w, h),
                y < h,
                x <= w,
                count == rows_opaque_count(bytes, w, h, y as int) + row_opaque_count(
                    bytes,
                    w,
                    h,
                    y as int,
                    x as int,
                ),
                row_start == rows_opaque_count(bytes, w, h, y as int),
                count <= y as int * w as int + x as int,
                bytes.len() <= usize::MAX,
                count > 0 ==> min_x <= max_x < w && min_y <= max_y < h,
                count == 0 ==> min_x == w && max_x == 0 && min_y == h && max_y == 0,
                count > 0 ==> {
                    &&& 0 <= wit_min_x <= y && is_opaque(bytes, w, h, min_x as int, wit_min_x)
                    &&& 0 <= wit_max_x <= y && is_opaque(bytes, w, h, max_x as int, wit_max_x)
                    &&& 0 <= wit_min_y < w && is_opaque(bytes, w, h, wit_min_y, min_y as int)
                    &&& 0 <= wit_max_y < w && is_opaque(bytes, w, h, wit_max_y, max_y as int)
                },
                count == 0 ==> forall|xx: int, yy: int|
                    0 <= xx < w && 0 <= yy < y ==> !#[trigger] is_opaque(bytes, w, h, xx, yy),
                count == 0 ==> forall|xx: int| 0 <= xx < x ==> !#[trigger] is_opaque(bytes, w, h, xx, y as int),
                forall|xx: int, yy: int|
                    0 <= xx < w && 0 <= yy < y && #[trigger] is_opaque(bytes, w, h, xx, yy)
                        ==> min_x <= xx <= max_x && min_y <= yy <= max_y,
                forall|xx: int|
                    0 <= xx < x && #[trigger] is_opaque(bytes, w, h, xx, y as int) ==> min_x <= xx
                        <= max_x && min_y <= y <= max_y,
            decreases w - x,
        {
            let p = pixel_at(data, w, h, x, y);
            proof {
                assert(y as int * w as int + x as int + 1 <= w as int * h as int) by (nonlinear_arith)
                    requires
                        x < w,
                        y < h,
                ;
                assert(w as int * h as int * 4 == bytes.len());
            }
            if let Some(px) = p {
                if px.a > 32 {
                    assert(is_opaque(bytes, w, h, x as int, y as int));
                    count = count + 1;
                    if x < min_x {
                        min_x = x;
                        proof { wit_min_x = y as int; }
                    }
                    if x > max_x {
                        max_x = x;
                        proof { wit_max_x = y as int; }
                    }
                    if y < min_y {
                        min_y = y;
                        proof { wit_min_y = x as int; }
                    }
                    if y > max_y {
                        max_y = y;
                        proof { wit_max_y = x as int; }
                    }
                    proof {
                        if count == 1 {
                            wit_min_x = y as int;
                            wit_max_x = y as int;
                            wit_min_y = x as int;
                            wit_max_y = x as int;
                        }
                    }
                }
            }
            proof {
                assert(row_opaque_count(bytes, w, h, y as int, x + 1) == row_opaque_count(
                    bytes,
                    w,
                    h,
                    y as int,
                    x as int,
                ) + if is_opaque(bytes, w, h, x as int, y as int) { 1nat } else { 0nat });
            }
            x = x + 1;
        }
        proof {
            assert(rows_opaque_count(bytes, w, h, y + 1) == rows_opaque_count(bytes, w, h, y as int)
                + row_opaque_count(bytes, w, h, y as int, w as int));
            assert((y as int + 1) * (w as int) == y as int * w as int + w as int) by (nonlinear_arith);
        }
        y = y + 1;
    }
    if count == 0 {
        None
    } else {
        proof {
            assert(is_opaque(bytes, w, h, min_x as int, wit_min_x));
            assert(is_opaque(bytes, w, h, max_x as int, wit_max_x));
            assert(is_opaque(bytes, w, h, wit_min_y, min_y as int));
            assert(is_opaque(bytes, w, h, wit_max_y, max_y as int));
            let b = OpaqueBounds { count, min_x, max_x, min_y, max_y };
            assert(b.count == rows_opaque_count(bytes, w, h, h as int));
            assert(forall|x: int, y: int|
                0 <= x < w && 0 <= y < h && #[trigger] is_opaque(bytes, w, h, x, y) ==> b.min_x <= x
                    <= b.max_x && b.min_y <= y <= b.max_y);
            assert(exists|y: int| 0 <= y < h && #[trigger] is_opaque(bytes, w, h, b.min_x as int, y));
        }
        Some(OpaqueBounds { count, min_x, max_x, min_y, max_y })
    }
}

/// Number of `i` in `lo .. lo + n` for which `f(i)` holds.
pub open spec fn count_true(lo: int, n: nat, f: spec_fn(int) -> bool) -> nat
    decreases n,
{
    if n == 0 {
        0
    } else {
        count_true(lo, (n - 1) as nat, f) + if f(lo + n - 1) {
            1nat
        } else {
            0nat
        }
    }
}

/// `a - b`, or zero where that would be negative.
pub open spec fn sat_sub(a: int, b: int) -> int {
    if a >= b {
        a - b
    } else {
        0
    }
}

/// The first of two probes that found a pixel.
pub open spec fn first_found(a: Option<Rgba8>, b: Option<Rgba8>) -> Option<Rgba8> {
    if a is Some {
        a
    } else {
        b
    }
}

/// 1 where a probe found a pixel whose alpha exceeds 128, else 0.
pub open spec fn touch_value(p: Option<Rgba8>) -> nat {
    if p matches Some(px) && px.a > 128 {
        1
    } else {
        0
    }
}

/// How many of the four canvas edges the artwork touches at their
/// midpoints: at the top (row 0, else row 1), the bottom (the last row, else
/// the one above), the left (column 0, else column 1) and the right (the last
/// column, else the one before), a touch being a pixel with alpha above 128.
pub open spec fn edge_touch_spec(bytes: Seq<u8>, w: u32, h: u32) -> nat {
    let mid_x = w as int / 2;
    let mid_y = h as int / 2;
    touch_value(first_found(spec_pixel(bytes, w, h, mid_x, 0), spec_pixel(bytes, w, h, mid_x, 1)))
        + touch_value(
        first_found(
            spec_pixel(bytes, w, h, mid_x, sat_sub(h as int, 1)),
            spec_pixel(bytes, w, h, mid_x, sat_sub(h as int, 2)),
        ),
    ) + touch_value(
        first_found(spec_pixel(bytes, w, h, 0, mid_y), spec_pixel(bytes, w, h, 1, mid_y)),
    ) + touch_value(
        first_found(
            spec_pixel(bytes, w, h, sat_sub(w as int, 1), mid_y),
            spec_pixel(bytes, w, h, sat_sub(w as int, 2), mid_y),
        ),
    )
}

fn touch(p: Option<Rgba8>) -> (t: u32)
    ensures
        t == touch_value(p),
{
    match p {
        Some(px) => if px.a > 128 {
            1
        } else {
            0
        },
        None => 0,
    }
}

fn first_of(a: Option<Rgba8>, b: Option<Rgba8>) -> (r: Option<Rgba8>)
    ensures
        r == first_found(a, b),
{
    if a.is_some() {
        a
    } else {
        b
    }
}

/// Counts the canvas edges that the artwork touches at their midpoints.
pub fn edge_touch_count(pixmap: &Pixmap) -> (n: u32)
    ensures
        n == edge_touch_spec(pixmap_bytes(*pixmap), pixmap_width(*pixmap), pixmap_height(*pixmap)),
{
    let w = pixmap_width_of(pixmap);
    let h = pixmap_height_of(pixmap);
    let data = pixmap_data(pixmap);
    let mid_x = w / 2;
    let mid_y = h / 2;
    let top = first_of(pixel_at(data, w, h, mid_x, 0), pixel_at(data, w, h, mid_x, 1));
    let bottom = first_of(
        pixel_at(data, w, h, mid_x, h.saturating_sub(1)),
        pixel_at(data, w, h, mid_x, h.saturating_sub(2)),
    );
    let left = first_of(pixel_at(data, w, h, 0, mid_y), pixel_at(data, w, h, 1, mid_y));
    let right = first_of(
        pixel_at(data, w, h, w.saturating_sub(1), mid_y),
        pixel_at(data, w, h, w.saturating_sub(2), mid_y),
    );
    touch(top) + touch(bottom) + touch(left) + touch(right)
}

/// Whether a probe found nothing, or a pixel with alpha below 32.
pub open spec fn clear_probe(p: Option<Rgba8>) -> bool {
    match p {
        Some(px) => px.a < 32,
        None => true,
    }
}

/// Whether all four canvas corners are transparent (alpha below 32).
pub open spec fn corners_transparent_spec(bytes: Seq<u8>, w: u32, h: u32) -> bool {
    let r = sat_sub(w as int, 1);
    let b = sat_sub(h as int, 1);
    &&& clear_probe(spec_pixel(bytes, w, h, 0, 0))
    &&& clear_probe(spec_pixel(bytes, w, h, r, 0))
    &&& clear_probe(spec_pixel(bytes, w, h, 0, b))
    &&& clear_probe(spec_pixel(bytes, w, h, r, b))
}

fn clear(p: Option<Rgba8>) -> (c: bool)
    ensures
        c == clear_probe(p),
{
    match p {
        Some(px) => px.a < 32,
        None => true,
    }
}

/// Checks whether all four canvas corners are transparent.
pub fn corners_transparent(pixmap: &Pixmap) -> (t: bool)
    ensures
        t == corners_transparent_spec(pixmap_bytes(*pixmap), pixmap_width(*pixmap), pixmap_height(*pixmap)),
{
    let w = pixmap_width_of(pixmap);
    let h = pixmap_height_of(pixmap);
    let data = pixmap_data(pixmap);
    let r = w.saturating_sub(1);
    let b = h.saturating_sub(1);
    clear(pixel_at(data, w, h, 0, 0)) && clear(pixel_at(data, w, h, r, 0)) && clear(
        pixel_at(data, w, h, 0, b),
    ) && clear(pixel_at(data, w, h, r, b))
}

/// Whether `b` describes a non-empty box inside a `w` x `h` canvas.
pub open spec fn box_fits(b: OpaqueBounds, w: u32, h: u32) -> bool {
    &&& b.min_x <= b.max_x < w
    &&& b.min_y <= b.max_y < h
}

/// The number of silhouette pixels that each side of a card crosses.
#[derive(Clone, Copy, Debug, PartialEq, Eq, Structural)]
pub struct CardSpans {
    pub top: u64,
    pub bottom: u64,
    pub left: u64,
    pub right: u64,
}

/// Width of a box.
pub open spec fn box_width(b: OpaqueBounds) -> int {
    b.max_x - b.min_x + 1
}

/// Height of a box.
pub open spec fn box_height(b: OpaqueBounds) -> int {
    b.max_y - b.min_y + 1
}

/// The spans of a card: inset by a sixteenth of the box (at least 3 pixels)
/// from each side, the number of silhouette pixels along that row (over the
/// box's columns) or column (over the box's rows).
pub open spec fn card_spans_spec(bytes: Seq<u8>, w: u32, h: u32, b: OpaqueBounds) -> CardSpans {
    let inset_y = if box_height(b) / 16 > 3 { box_height(b) / 16 } else { 3 };
    let y_top = b.min_y + inset_y;
    let y_bot = sat_sub(b.max_y as int, inset_y);
    let inset_x = if box_width(b) / 16 > 3 { box_width(b) / 16 } else { 3 };
    let x_left = b.min_x + inset_x;
    let x_right = sat_sub(b.max_x as int, inset_x);
    let nx = box_width(b) as nat;
    let ny = box_height(b) as nat;
    CardSpans {
        top: count_true(b.min_x as int, nx, |x: int| alpha_above(bytes, w, h, x, y_top, 32)) as u64,
        bottom: count_true(b.min_x as int, nx, |x: int| alpha_above(bytes, w, h, x, y_bot, 32)) as u64,
        left: count_true(b.min_y as int, ny, |y: int| alpha_above(bytes, w, h, x_left, y, 32)) as u64,
        right: count_true(b.min_y as int, ny, |y: int| alpha_above(bytes, w, h, x_right, y, 32)) as u64,
    }
}

/// Counts the silhouette pixels of row `y` over columns `lo ..= hi`.
fn row_span(data: &[u8], w: u32, h: u32, y: u32, lo: u32, hi: u32) -> (n: u64)
    requires
        data@.len() == rgba_len(w, h),
        lo <= hi < w,
    ensures
        n == count_true(lo as int, (hi - lo + 1) as nat, |x: int| alpha_above(data@, w, h, x, y as int, 32)),
{
    let ghost f = |x: int| alpha_above(data@, w, h, x, y as int, 32);
    let mut n: u64 = 0;
    let mut x: u32 = lo;
    while x <= hi
        invariant
            lo <= x <= hi + 1,
            hi < w,
            data@.len() == rgba_len(w, h),
            f == (|x: int| alpha_above(data@, w, h, x, y as int, 32)),
            n == count_true(lo as int, (x - lo) as nat, f),
            n <= x - lo,
        decreases hi + 1 - x,
    {
        let p = pixel_at(data, w, h, x, y);
        proof {
            assert(f(x as int) == (p matches Some(px) && px.a > 32));
            assert(count_true(lo as int, (x - lo + 1) as nat, f) == count_true(lo as int, (x - lo) as nat, f)
                + if f(x as int) { 1nat } else { 0nat });
        }
        if let Some(px) = p {
            if px.a > 32 {
                n = n + 1;
            }
        }
        x = x + 1;
    }
    n
}

/// Counts the silhouette pixels of column `x` over rows `lo ..= hi`.
fn column_span(data: &[u8], w: u32, h: u32, x: u32, lo: u32, hi: u32) -> (n: u64)
    requires
        data@.len() == rgba_len(w, h),
        lo <= hi < h,
    ensures
        n == count_true(lo as int, (hi - lo + 1) as nat, |y: int| alpha_above(data@, w, h, x as int, y, 32)),
{
    let ghost f = |y: int| alpha_above(data@, w, h, x as int, y, 32);
    let mut n: u64 = 0;
    let mut y: u32 = lo;
    while y <= hi
        invariant
            lo <= y <= hi + 1,
            hi < h,
            data@.len() == rgba_len(w, h),
            f == (|y: int| alpha_above(data@, w, h, x as int, y, 32)),
            n == count_true(lo as int, (y - lo) as nat, f),
            n <= y - lo,
        decreases hi + 1 - y,
    {
        let p = pixel_at(data, w, h, x, y);
        proof {
            assert(f(y as int) == (p matches Some(px) && px.a > 32));
            assert(count_true(lo as int, (y - lo + 1) as nat, f) == count_true(lo as int, (y - lo) as nat, f)
                + if f(y as int) { 1nat } else { 0nat });
        }
        if let Some(px) = p {
            if px.a > 32 {
                n = n + 1;
            }
        }
        y = y + 1;
    }
    n
}

/// Measures how many silhouette pixels each inset side of a card crosses.
pub fn card_spans(pixmap: &Pixmap, b: &OpaqueBounds) -> (s: CardSpans)
    requires
        box_fits(*b, pixmap_width(*pixmap), pixmap_height(*pixmap)),
    ensures
        s == card_spans_spec(pixmap_bytes(*pixmap), pixmap_width(*pixmap), pixmap_height(*pixmap), *b),
{
    let w = pixmap_width_of(pixmap);
    let h = pixmap_height_of(pixmap);
    let data = pixmap_data(pixmap);
    let box_w = b.max_x - b.min_x + 1;
    let box_h = b.max_y - b.min_y + 1;
    let inset_y = if box_h / 16 > 3 { box_h / 16 } else { 3 };
    let y_top: u64 = b.min_y as u64 + inset_y as u64;
    let y_bot = b.max_y.saturating_sub(inset_y);
    let top = if y_top <= 0xffff_ffff {
        row_span(data, w, h, y_top as u32, b.min_x, b.max_x)
    } else {
        proof {
            lemma_no_pixels_below(data@, w, h, b.min_x as int, (b.max_x - b.min_x + 1) as nat, y_top as int);
        }
        0
    };
    let bottom = row_span(data, w, h, y_bot, b.min_x, b.max_x);
    let inset_x = if box_w / 16 > 3 { box_w / 16 } else { 3 };
    let x_left = b.min_x + inset_x;
    let x_right = b.max_x.saturating_sub(inset_x);
    let left = column_span(data, w, h, x_left, b.min_y, b.max_y);
    let right = column_span(data, w, h, x_right, b.min_y, b.max_y);
    CardSpans { top, bottom, left, right }
}

/// A row below a `w` x `h` buffer has no pixel above any alpha.
proof fn lemma_no_pixels_below(bytes: Seq<u8>, w: u32, h: u32, lo: int, n: nat, y: int)
    requires
        y >= h,
        lo >= 0,
    ensures
        count_true(lo, n, |x: int| alpha_above(bytes, w, h, x, y, 32)) == 0,
    decreases n,
{
    if n > 0 {
        lemma_no_pixels_below(bytes, w, h, lo, (n - 1) as nat, y);
        let x = lo + n - 1;
        assert(y * w + x >= h as int * w as int) by (nonlinear_arith)
            requires
                y >= h,
                x >= 0,
                w >= 0,
        ;
        assert(!alpha_above(bytes, w, h, x, y, 32));
    }
}

/// A corner of a card's bounding box.
#[derive(Clone, Copy, Debug, PartialEq, Eq, Structural)]
pub enum Corner {
    TopLeft,
    TopRight,
    BottomLeft,
    BottomRight,
}

/// `v` limited to `lo ..= hi`.
pub open spec fn clamp_int(v: int, lo: int, hi: int) -> int {
    if v < lo {
        lo
    } else if v > hi {
        hi
    } else {
        v
    }
}

/// A premultiplied channel brought back to straight color against an alpha
/// above 200: `c * 255 / a`, rounded half up, at most 255.
pub open spec fn unpremultiply_channel(c: u8, a: u8) -> u8 {
    let v = (510 * c as int + a as int) / (2 * a as int);
    if v > 255 {
        255
    } else {
        v as u8
    }
}

/// The straight, opaque color of a premultiplied pixel with alpha above 200.
pub open spec fn unpremultiply_opaque(p: Rgba8) -> Rgba8 {
    Rgba8 {
        r: unpremultiply_channel(p.r, p.a),
        g: unpremultiply_channel(p.g, p.a),
        b: unpremultiply_channel(p.b, p.a),
        a: 255,
    }
}

/// The unit of the last of 24 significant bits of `n`: 1 below 2^24, and
/// doubled for each further bit.
pub open spec fn sig_unit(n: nat) -> nat
    decreases n,
{
    if n < 0x100_0000 {
        1
    } else {
        2 * sig_unit(n / 2)
    }
}

/// `n` rounded to 24 significant bits, to nearest with ties to even: the
/// value an `f32` holds for a whole number.
pub open spec fn round24(n: nat) -> nat {
    let p = sig_unit(n);
    let q = n / p;
    let r = n % p;
    if 2 * r > p || (2 * r == p && q % 2 == 1) {
        (q + 1) * p
    } else {
        q * p
    }
}

/// The numerator of the `f32` nearest to each probe percentage (8, 6, 10
/// and 12 percent), over `pct_scale`.
pub open spec fn pct_mantissa(pct: int) -> nat {
    if pct == 8 {
        10737418
    } else if pct == 6 {
        16106127
    } else if pct == 10 {
        13421773
    } else {
        16106127
    }
}

/// The power of two under `pct_mantissa`.
pub open spec fn pct_scale(pct: int) -> nat {
    if pct == 6 {
        268435456
    } else {
        134217728
    }
}

/// The inset of a probe as `((side as f32) * pct) as i32` computes it: the
/// side rounded to an `f32`, times the `f32` percentage, rounded to an
/// `f32`, then truncated.
pub open spec fn pct_inset(side: nat, pct: int) -> int {
    (round24(round24(side) * pct_mantissa(pct)) / pct_scale(pct)) as int
}

/// Rounds a whole number to 24 significant bits, as its conversion to `f32`
/// does.
fn round24_exec(n: u64) -> (v: u64)
    requires
        n <= 0x0200_0000_0000_0000,
    ensures
        v == round24(n as nat),
        v <= 2 * n,
{
    let mut t: u64 = n;
    let mut p: u64 = 1;
    while t >= 0x100_0000
        invariant
            n <= 0x0200_0000_0000_0000,
            p >= 1,
            t == n / p,
            p * t <= n,
            p > 1 ==> t >= 0x80_0000,
            sig_unit(n as nat) == p * sig_unit(t as nat),
        decreases t,
    {
        proof {
            vstd::arithmetic::div_mod::lemma_div_denominator(n as int, p as int, 2);
            vstd::arithmetic::div_mod::lemma_fundamental_div_mod(n as int, p as int);
            assert(p * t >= p * 0x100_0000) by (nonlinear_arith)
                requires
                    t >= 0x100_0000,
                    p >= 1,
            ;
            assert(sig_unit(t as nat) == 2 * sig_unit((t / 2) as nat));
            assert(p * (2 * sig_unit((t / 2) as nat)) == (p * 2) * sig_unit((t / 2) as nat)) by (nonlinear_arith);
            assert((p * 2) * (t / 2) <= p * t) by (nonlinear_arith)
                requires
                    p >= 1,
            ;
        }
        t = t / 2;
        p = p * 2;
    }
    proof {
        vstd::arithmetic::div_mod::lemma_fundamental_div_mod(n as int, p as int);
        assert(sig_unit(t as nat) == 1);
    }
    let r: u64 = n - p * t;
    let up = 2 * r > p || (2 * r == p && t % 2 == 1);
    proof {
        assert(r == n % p);
        assert(p * t == t * p) by (nonlinear_arith);
        if t > 0 {
            assert(p <= n) by (nonlinear_arith)
                requires
                    p * t <= n,
                    t >= 1,
                    p >= 1,
            ;
        }
    }
    if up {
        proof {
            assert((t + 1) * p == t * p + p) by (nonlinear_arith);
            assert(p > 1);
            assert(p <= n) by (nonlinear_arith)
                requires
                    p * t <= n,
                    t >= 1,
                    p >= 1,
            ;
        }
        (t + 1) * p
    } else {
        t * p
    }
}

/// Computes the inset of a probe the way the `f32` arithmetic does.
fn pct_inset_exec(side: u64, pct: u32) -> (ix: u64)
    requires
        side <= 0x1_0000_0000,
    ensures
        ix as int == pct_inset(side as nat, pct as int),
        ix <= side,
{
    let m: u64 = if pct == 8 {
        10737418
    } else if pct == 6 {
        16106127
    } else if pct == 10 {
        13421773
    } else {
        16106127
    };
    let scale: u64 = if pct == 6 {
        268435456
    } else {
        134217728
    };
    let fs = round24_exec(side);
    assert(fs * m <= 0x2_0000_0000 * 16106127) by (nonlinear_arith)
        requires
            fs <= 2 * side,
            side <= 0x1_0000_0000,
            m <= 16106127,
    ;
    let prod = fs * m;
    let rp = round24_exec(prod);
    let ix = rp / scale;
    assert(ix <= side) by (nonlinear_arith)
        requires
            ix == rp / scale,
            rp <= 2 * prod,
            prod == fs * m,
            fs <= 2 * side,
            m <= 16106127,
            scale >= 134217728,
    ;
    ix
}

/// The probe at `pct` percent of the box from a corner, toward the box's
/// center, kept inside the box: the color found there when its alpha
/// exceeds 200.
pub open spec fn corner_probe(bytes: Seq<u8>, w: u32, h: u32, b: OpaqueBounds, c: Corner, pct: int) -> Option<Rgba8> {
    let ix = pct_inset(box_width(b) as nat, pct);
    let iy = pct_inset(box_height(b) as nat, pct);
    let x = match c {
        Corner::TopLeft | Corner::BottomLeft => b.min_x + ix,
        _ => b.max_x - ix,
    };
    let y = match c {
        Corner::TopLeft | Corner::TopRight => b.min_y + iy,
        _ => b.max_y - iy,
    };
    let px = clamp_int(x, b.min_x as int, b.max_x as int);
    let py = clamp_int(y, b.min_y as int, b.max_y as int);
    match spec_pixel(bytes, w, h, px, py) {
        Some(p) => if p.a > 200 {
            Some(unpremultiply_opaque(p))
        } else {
            None
        },
        None => None,
    }
}

/// The card color at a corner: the first of the probes at 8, 6, 10 and 12
/// percent of the box that finds an opaque pixel.
pub open spec fn sample_corner_spec(bytes: Seq<u8>, w: u32, h: u32, b: OpaqueBounds, c: Corner) -> Option<Rgba8> {
    first_found(
        corner_probe(bytes, w, h, b, c, 8),
        first_found(
            corner_probe(bytes, w, h, b, c, 6),
            first_found(corner_probe(bytes, w, h, b, c, 10), corner_probe(bytes, w, h, b, c, 12)),
        ),
    )
}

fn unpremultiply(c: u8, a: u8) -> (v: u8)
    requires
        a > 0,
    ensures
        v == unpremultiply_channel(c, a),
{
    let q: u32 = (510 * (c as u32) + (a as u32)) / (2 * (a as u32));
    if q > 255 {
        255
    } else {
        q as u8
    }
}

fn corner_probe_at(data: &[u8], w: u32, h: u32, b: &OpaqueBounds, c: Corner, pct: u32) -> (r: Option<Rgba8>)
    requires
        data@.len() == rgba_len(w, h),
        box_fits(*b, w, h),
        pct <= 100,
    ensures
        r == corner_probe(data@, w, h, *b, c, pct as int),
{
    let box_w: u64 = (b.max_x - b.min_x + 1) as u64;
    let box_h: u64 = (b.max_y - b.min_y + 1) as u64;
    let ix: u64 = pct_inset_exec(box_w, pct);
    let iy: u64 = pct_inset_exec(box_h, pct);
    let x: i64 = match c {
        Corner::TopLeft | Corner::BottomLeft => b.min_x as i64 + ix as i64,
        _ => b.max_x as i64 - ix as i64,
    };
    let y: i64 = match c {
        Corner::TopLeft | Corner::TopRight => b.min_y as i64 + iy as i64,
        _ => b.max_y as i64 - iy as i64,
    };
    let px: u32 = if x < b.min_x as i64 {
        b.min_x
    } else if x > b.max_x as i64 {
        b.max_x
    } else {
        x as u32
    };
    let py: u32 = if y < b.min_y as i64 {
        b.min_y
    } else if y > b.max_y as i64 {
        b.max_y
    } else {
        y as u32
    };
    match pixel_at(data, w, h, px, py) {
        Some(p) => if p.a > 200 {
            Some(
                Rgba8 {
                    r: unpremultiply(p.r, p.a),
                    g: unpremultiply(p.g, p.a),
                    b: unpremultiply(p.b, p.a),
                    a: 255,
                },
            )
        } else {
            None
        },
        None => None,
    }
}

/// Samples the card color near one corner of its bounding box.
pub fn sample_card_corner(pixmap: &Pixmap, b: &OpaqueBounds, c: Corner) -> (r: Option<Rgba8>)
    requires
        box_fits(*b, pixmap_width(*pixmap), pixmap_height(*pixmap)),
    ensures
        r == sample_corner_spec(pixmap_bytes(*pixmap), pixmap_width(*pixmap), pixmap_height(*pixmap), *b, c),
{
    let w = pixmap_width_of(pixmap);
    let h = pixmap_height_of(pixmap);
    let data = pixmap_data(pixmap);
    let p8 = corner_probe_at(data, w, h, b, c, 8);
    if p8.is_some() {
        return p8;
    }
    let p6 = corner_probe_at(data, w, h, b, c, 6);
    if p6.is_some() {
        return p6;
    }
    let p10 = corner_probe_at(data, w, h, b, c, 10);
    if p10.is_some() {
        return p10;
    }
    corner_probe_at(data, w, h, b, c, 12)
}

/// The rim probes of a round icon: the pixels 4 pixels inside the box at the
/// middle of its top, bottom, left and right sides (kept inside the box).
pub open spec fn rim_probes(bytes: Seq<u8>, w: u32, h: u32, b: OpaqueBounds) -> (
    Option<Rgba8>,
    Option<Rgba8>,
    Option<Rgba8>,
    Option<Rgba8>,
) {
    let mid_x = (b.min_x + b.max_x) / 2;
    let mid_y = (b.min_y + b.max_y) / 2;
    let top_y = if b.min_y + 4 < b.max_y { b.min_y + 4 } else { b.max_y as int };
    let bot_y = if sat_sub(b.max_y as int, 4) > b.min_y { sat_sub(b.max_y as int, 4) } else { b.min_y as int };
    let left_x = if b.min_x + 4 < b.max_x { b.min_x + 4 } else { b.max_x as int };
    let right_x = if sat_sub(b.max_x as int, 4) > b.min_x { sat_sub(b.max_x as int, 4) } else { b.min_x as int };
    (
        spec_pixel(bytes, w, h, mid_x, top_y),
        spec_pixel(bytes, w, h, mid_x, bot_y),
        spec_pixel(bytes, w, h, left_x, mid_y),
        spec_pixel(bytes, w, h, right_x, mid_y),
    )
}

/// Absolute difference of two channels.
pub open spec fn channel_diff(a: u8, b: u8) -> int {
    if a >= b {
        a - b
    } else {
        b - a
    }
}

/// The rim colors of a round icon with a uniform rim: all four rim probes
/// find pixels with alpha above 200, and the left and right ones differ by
/// less than 60 summed over the color channels. The result is the top and
/// bottom probes' premultiplied colors, made opaque.
pub open spec fn rim_colors_spec(bytes: Seq<u8>, w: u32, h: u32, b: OpaqueBounds) -> Option<(Rgba8, Rgba8)> {
    match rim_probes(bytes, w, h, b) {
        (Some(top), Some(bot), Some(left), Some(right)) => {
            if top.a > 200 && bot.a > 200 && left.a > 200 && right.a > 200 && channel_diff(left.r, right.r)
                + channel_diff(left.g, right.g) + channel_diff(left.b, right.b) < 60 {
                Some(
                    (
                        Rgba8 { r: top.r, g: top.g, b: top.b, a: 255 },
                        Rgba8 { r: bot.r, g: bot.g, b: bot.b, a: 255 },
                    ),
                )
            } else {
                None
            }
        },
        _ => None,
    }
}

fn diff(a: u8, b: u8) -> (d: u32)
    ensures
        d == channel_diff(a, b),
{
    if a >= b {
        (a - b) as u32
    } else {
        (b - a) as u32
    }
}

/// Reads the rim of a round icon and returns its top and bottom colors where
/// the rim is uniform.
pub fn rim_colors(pixmap: &Pixmap, b: &OpaqueBounds) -> (r: Option<(Rgba8, Rgba8)>)
    requires
        box_fits(*b, pixmap_width(*pixmap), pixmap_height(*pixmap)),
    ensures
        r == rim_colors_spec(pixmap_bytes(*pixmap), pixmap_width(*pixmap), pixmap_height(*pixmap), *b),
{
    let w = pixmap_width_of(pixmap);
    let h = pixmap_height_of(pixmap);
    let data = pixmap_data(pixmap);
    let mid_x = ((b.min_x as u64 + b.max_x as u64) / 2) as u32;
    let mid_y = ((b.min_y as u64 + b.max_y as u64) / 2) as u32;
    let top_y = if (b.min_y as u64) + 4 < b.max_y as u64 { b.min_y + 4 } else { b.max_y };
    let bot_y = if b.max_y.saturating_sub(4) > b.min_y { b.max_y.saturating_sub(4) } else { b.min_y };
    let left_x = if (b.min_x as u64) + 4 < b.max_x as u64 { b.min_x + 4 } else { b.max_x };
    let right_x = if b.max_x.saturating_sub(4) > b.min_x { b.max_x.saturating_sub(4) } else { b.min_x };
    let p_top = pixel_at(data, w, h, mid_x, top_y);
    let p_bot = pixel_at(data, w, h, mid_x, bot_y);
    let p_left = pixel_at(data, w, h, left_x, mid_y);
    let p_right = pixel_at(data, w, h, right_x, mid_y);
    match (p_top, p_bot, p_left, p_right) {
        (Some(top), Some(bot), Some(left), Some(right)) => {
            if top.a > 200 && bot.a > 200 && left.a > 200 && right.a > 200 {
                let d = diff(left.r, right.r) + diff(left.g, right.g) + diff(left.b, right.b);
                if d < 60 {
                    return Some(
                        (
                            Rgba8 { r: top.r, g: top.g, b: top.b, a: 255 },
                            Rgba8 { r: bot.r, g: bot.g, b: bot.b, a: 255 },
                        ),
                    );
                }
            }
            None
        },
        _ => None,
    }
}

/// Whether the `k`-th pixel (in row-major order) is a dark ink pixel: alpha
/// above 48 and every color channel below 80.
pub open spec fn is_dark_pixel(bytes: Seq<u8>, k: int) -> bool {
    &&& bytes[4 * k + 3] > 48
    &&& bytes[4 * k] < 80
    &&& bytes[4 * k + 1] < 80
    &&& bytes[4 * k + 2] < 80
}

/// Number of dark ink pixels of a `w` x `h` buffer.
pub open spec fn dark_count_spec(bytes: Seq<u8>, w: u32, h: u32) -> nat {
    count_true(0, (w as int * h as int) as nat, |k: int| is_dark_pixel(bytes, k))
}

/// Counts the dark ink pixels (alpha above 48, brightest channel below 80).
pub fn dark_pixel_count(pixmap: &Pixmap) -> (n: u64)
    ensures
        n == dark_count_spec(pixmap_bytes(*pixmap), pixmap_width(*pixmap), pixmap_height(*pixmap)),
{
    let w = pixmap_width_of(pixmap);
    let h = pixmap_height_of(pixmap);
    let data = pixmap_data(pixmap);
    let ghost f = |k: int| is_dark_pixel(data@, k);
    let dl: usize = data.len();
    let total: usize = dl / 4;
    assert(total as int == w as int * h as int);
    let mut n: u64 = 0;
    let mut k: usize = 0;
    while k < total
        invariant
            f == (|k: int| is_dark_pixel(data@, k)),
            total as int * 4 == data@.len(),
            dl == data@.len(),
            k <= total,
            n == count_true(0, k as nat, f),
            n <= k,
        decreases total - k,
    {
        let i = 4 * k;
        let r = data[i];
        let g = data[i + 1];
        let b = data[i + 2];
        let a = data[i + 3];
        proof {
            assert(count_true(0, (k + 1) as nat, f) == count_true(0, k as nat, f) + if f(k as int) { 1nat } else { 0nat });
        }
        if a > 48 {
            let max_c = if r >= g && r >= b { r } else if g >= b { g } else { b };
            if max_c < 80 {
                n = n + 1;
            }
        }
        k = k + 1;
    }
    n
}

/// Sum, over `x` in `lo .. lo + n`, of `f(x)`.
pub open spec fn sum_over(lo: int, n: nat, f: spec_fn(int) -> nat) -> nat
    decreases n,
{
    if n == 0 {
        0
    } else {
        sum_over(lo, (n - 1) as nat, f) + f(lo + n - 1)
    }
}

/// A channel of a pixel that counts toward a band average: the pixel exists
/// and its alpha exceeds 48.
pub open spec fn band_channel(bytes: Seq<u8>, w: u32, h: u32, x: int, y: int, ch: int) -> nat {
    match spec_pixel(bytes, w, h, x, y) {
        Some(p) => if p.a > 48 {
            (if ch == 0 { p.r } else if ch == 1 { p.g } else { p.b }) as nat
        } else {
            0
        },
        None => 0,
    }
}

/// `v` limited to `lo ..= hi`, as a byte.
pub open spec fn clamp_u8(v: int, lo: u8, hi: u8) -> u8 {
    clamp_int(v, lo as int, hi as int) as u8
}

/// The dark plate of a solid dark host: the ambient tone is the average of
/// the band pixels (alpha above 48) of the row an eighth of the box (at
/// least 2 pixels) above its bottom, over the middle half of its columns, or
/// (35, 37, 43) where there is none. The plate's top takes 55% of that tone
/// limited to (26..=48, 28..=50, 32..=56), its bottom 30% limited to
/// (14..=26, 15..=28, 18..=32).
pub open spec fn dark_plate_spec(bytes: Seq<u8>, w: u32, h: u32, b: OpaqueBounds) -> (Rgba8, Rgba8) {
    let box_w = box_width(b);
    let box_h = box_height(b);
    let inset_y = if box_h / 8 > 2 { box_h / 8 } else { 2 };
    let y = if sat_sub(b.max_y as int, inset_y) > b.min_y { sat_sub(b.max_y as int, inset_y) } else { b.min_y as int };
    let lo = b.min_x + box_w / 4;
    let hi = sat_sub(b.max_x as int, box_w / 4);
    let n: nat = if hi >= lo { (hi - lo + 1) as nat } else { 0 };
    let cnt = count_true(lo, n, |x: int| alpha_above(bytes, w, h, x, y, 48));
    let sr = sum_over(lo, n, |x: int| band_channel(bytes, w, h, x, y, 0));
    let sg = sum_over(lo, n, |x: int| band_channel(bytes, w, h, x, y, 1));
    let sb = sum_over(lo, n, |x: int| band_channel(bytes, w, h, x, y, 2));
    let br: int = if cnt == 0 { 35 } else { sr as int / cnt as int };
    let bg: int = if cnt == 0 { 37 } else { sg as int / cnt as int };
    let bb: int = if cnt == 0 { 43 } else { sb as int / cnt as int };
    (
        Rgba8 {
            r: clamp_u8(br * 11 / 20, 26, 48),
            g: clamp_u8(bg * 11 / 20, 28, 50),
            b: clamp_u8(bb * 11 / 20, 32, 56),
            a: 255,
        },
        Rgba8 {
            r: clamp_u8(br * 3 / 10, 14, 26),
            g: clamp_u8(bg * 3 / 10, 15, 28),
            b: clamp_u8(bb * 3 / 10, 18, 32),
            a: 255,
        },
    )
}

fn clamp_channel(v: u64, lo: u8, hi: u8) -> (c: u8)
    requires
        lo <= hi,
    ensures
        c == clamp_u8(v as int, lo, hi),
{
    if v < lo as u64 {
        lo
    } else if v > hi as u64 {
        hi
    } else {
        v as u8
    }
}

/// Extracts the top and bottom plate colors of a solid dark host surface
/// from the ambient tone of its bottom band.
pub fn dark_plate_colors(pixmap: &Pixmap, b: &OpaqueBounds) -> (r: (Rgba8, Rgba8))
    requires
        box_fits(*b, pixmap_width(*pixmap), pixmap_height(*pixmap)),
    ensures
        r == dark_plate_spec(pixmap_bytes(*pixmap), pixmap_width(*pixmap), pixmap_height(*pixmap), *b),
{
    let w = pixmap_width_of(pixmap);
    let h = pixmap_height_of(pixmap);
    let data = pixmap_data(pixmap);
    let ghost bytes = data@;
    let box_w = b.max_x - b.min_x + 1;
    let box_h = b.max_y - b.min_y + 1;
    let inset_y = if box_h / 8 > 2 { box_h / 8 } else { 2 };
    let y = if b.max_y.saturating_sub(inset_y) > b.min_y { b.max_y.saturating_sub(inset_y) } else { b.min_y };
    let lo = b.min_x + box_w / 4;
    let hi = b.max_x.saturating_sub(box_w / 4);
    let ghost n: nat = if hi >= lo { (hi - lo + 1) as nat } else { 0 };
    let ghost fc = |x: int| alpha_above(bytes, w, h, x, y as int, 48);
    let ghost fr = |x: int| band_channel(bytes, w, h, x, y as int, 0);
    let ghost fg = |x: int| band_channel(bytes, w, h, x, y as int, 1);
    let ghost fb = |x: int| band_channel(bytes, w, h, x, y as int, 2);
    let mut cnt: u64 = 0;
    let mut sr: u64 = 0;
    let mut sg: u64 = 0;
    let mut sb: u64 = 0;
    let mut x: u32 = lo;
    while x <= hi
        invariant
            data@ == bytes,
            bytes.len() == rgba_len(w, h),
            hi < w,
            lo <= x,
            x <= hi + 1 || (x == lo && hi < lo),
            fc == (|x: int| alpha_above(bytes, w, h, x, y as int, 48)),
            fr == (|x: int| band_channel(bytes, w, h, x, y as int, 0)),
            fg == (|x: int| band_channel(bytes, w, h, x, y as int, 1)),
            fb == (|x: int| band_channel(bytes, w, h, x, y as int, 2)),
            cnt == count_true(lo as int, (x - lo) as nat, fc),
            sr == sum_over(lo as int, (x - lo) as nat, fr),
            sg == sum_over(lo as int, (x - lo) as nat, fg),
            sb == sum_over(lo as int, (x - lo) as nat, fb),
            cnt <= x - lo,
            sr <= 255 * cnt,
            sg <= 255 * cnt,
            sb <= 255 * cnt,
        decreases hi + 1 - x,
    {
        let p = pixel_at(data, w, h, x, y);
        proof {
            let k = (x - lo) as nat;
            assert(count_true(lo as int, k + 1, fc) == count_true(lo as int, k, fc) + if fc(x as int) { 1nat } else { 0nat });
            assert(sum_over(lo as int, k + 1, fr) == sum_over(lo as int, k, fr) + fr(x as int));
            assert(sum_over(lo as int, k + 1, fg) == sum_over(lo as int, k, fg) + fg(x as int));
            assert(sum_over(lo as int, k + 1, fb) == sum_over(lo as int, k, fb) + fb(x as int));
        }
        if let Some(px) = p {
            if px.a > 48 {
                cnt = cnt + 1;
                sr = sr + px.r as u64;
                sg = sg + px.g as u64;
                sb = sb + px.b as u64;
            }
        }
        x = x + 1;
    }
    proof {
        if hi >= lo {
            assert((x - lo) as nat == n);
        } else {
            assert(x == lo);
            assert(n == 0);
        }
    }
    let (br, bg, bb): (u64, u64, u64) = if cnt == 0 {
        (35, 37, 43)
    } else {
        (sr / cnt, sg / cnt, sb / cnt)
    };
    assert(br <= 255 && bg <= 255 && bb <= 255) by (nonlinear_arith)
        requires
            cnt == 0 ==> br == 35 && bg == 37 && bb == 43,
            cnt > 0 ==> br == sr / cnt && bg == sg / cnt && bb == sb / cnt,
            sr <= 255 * cnt || cnt == 0,
            sg <= 255 * cnt || cnt == 0,
            sb <= 255 * cnt || cnt == 0,
    ;
    (
        Rgba8 {
            r: clamp_channel(br * 11 / 20, 26, 48),
            g: clamp_channel(bg * 11 / 20, 28, 50),
            b: clamp_channel(bb * 11 / 20, 32, 56),
            a: 255,
        },
        Rgba8 {
            r: clamp_channel(br * 3 / 10, 14, 26),
            g: clamp_channel(bg * 3 / 10, 15, 28),
            b: clamp_channel(bb * 3 / 10, 18, 32),
            a: 255,
        },
    )
}

/// `count_true` over a range where the predicate never holds is zero.
proof fn lemma_count_none(lo: int, n: nat, f: spec_fn(int) -> bool)
    requires
        forall|i: int| lo <= i < lo + n ==> !#[trigger] f(i),
    ensures
        count_true(lo, n, f) == 0,
    decreases n,
{
    if n > 0 {
        lemma_count_none(lo, (n - 1) as nat, f);
    }
}

/// `count_true` over a range where the predicate always holds is its length.
proof fn lemma_count_all(lo: int, n: nat, f: spec_fn(int) -> bool)
    requires
        forall|i: int| lo <= i < lo + n ==> #[trigger] f(i),
    ensures
        count_true(lo, n, f) == n,
    decreases n,
{
    if n > 0 {
        lemma_count_all(lo, (n - 1) as nat, f);
    }
}

/// The `k`-th pixel of an RGBA buffer.
pub open spec fn pixel_k(bytes: Seq<u8>, k: int) -> Rgba8 {
    Rgba8 { r: bytes[4 * k], g: bytes[4 * k + 1], b: bytes[4 * k + 2], a: bytes[4 * k + 3] }
}

/// Only visible dark ink counts as dark: a pixel is counted only when its
/// alpha exceeds 48 and each of its red, green and blue channels is below
/// 80. So an image in which every pixel is faint (alpha at most 48) or has
/// some channel of at least 80 has no dark pixel, and an image in which
/// every pixel is visible with all channels below 80 is dark throughout.
pub proof fn lemma_dark_count_meaning(bytes: Seq<u8>, w: u32, h: u32)
    requires
        bytes.len() == rgba_len(w, h),
    ensures
        (forall|k: int|
            0 <= k < w as int * h as int ==> #[trigger] pixel_k(bytes, k).a <= 48 || pixel_k(bytes, k).r >= 80
                || pixel_k(bytes, k).g >= 80 || pixel_k(bytes, k).b >= 80) ==> dark_count_spec(bytes, w, h)
            == 0,
        (forall|k: int|
            0 <= k < w as int * h as int ==> #[trigger] pixel_k(bytes, k).a > 48 && pixel_k(bytes, k).r < 80
                && pixel_k(bytes, k).g < 80 && pixel_k(bytes, k).b < 80) ==> dark_count_spec(bytes, w, h)
            == w as int * h as int,
{
    let n = (w as int * h as int) as nat;
    let f = |k: int| is_dark_pixel(bytes, k);
    if forall|k: int|
        0 <= k < w as int * h as int ==> #[trigger] pixel_k(bytes, k).a <= 48 || pixel_k(bytes, k).r >= 80
            || pixel_k(bytes, k).g >= 80 || pixel_k(bytes, k).b >= 80 {
        assert forall|i: int| 0 <= i < 0 + n implies !#[trigger] f(i) by {
            assert(pixel_k(bytes, i).a == bytes[4 * i + 3]);
        }
        lemma_count_none(0, n, f);
    }
    if forall|k: int|
        0 <= k < w as int * h as int ==> #[trigger] pixel_k(bytes, k).a > 48 && pixel_k(bytes, k).r < 80
            && pixel_k(bytes, k).g < 80 && pixel_k(bytes, k).b < 80 {
        assert forall|i: int| 0 <= i < 0 + n implies #[trigger] f(i) by {
            assert(pixel_k(bytes, i).a == bytes[4 * i + 3]);
        }
        lemma_count_all(0, n, f);
    }
}

/// The dark plate is a dark gradient: its top channels lie in 26..=48,
/// 28..=50 and 32..=56, its bottom channels in 14..=26, 15..=28 and
/// 18..=32, both are opaque, and the bottom is never lighter than the top.
pub proof fn lemma_dark_plate_ranges(bytes: Seq<u8>, w: u32, h: u32, b: OpaqueBounds)
    ensures
        26 <= dark_plate_spec(bytes, w, h, b).0.r <= 48,
        28 <= dark_plate_spec(bytes, w, h, b).0.g <= 50,
        32 <= dark_plate_spec(bytes, w, h, b).0.b <= 56,
        14 <= dark_plate_spec(bytes, w, h, b).1.r <= 26,
        15 <= dark_plate_spec(bytes, w, h, b).1.g <= 28,
        18 <= dark_plate_spec(bytes, w, h, b).1.b <= 32,
        dark_plate_spec(bytes, w, h, b).0.a == 255,
        dark_plate_spec(bytes, w, h, b).1.a == 255,
        dark_plate_spec(bytes, w, h, b).1.r <= dark_plate_spec(bytes, w, h, b).0.r,
        dark_plate_spec(bytes, w, h, b).1.g <= dark_plate_spec(bytes, w, h, b).0.g,
        dark_plate_spec(bytes, w, h, b).1.b <= dark_plate_spec(bytes, w, h, b).0.b,
{
}

/// A sampled card corner is brought back to straight color by the nearest
/// whole number to `c * 255 / a`: for a channel `c` no larger than its
/// alpha `a`, the result differs from `c * 255 / a` by at most one half.
pub proof fn lemma_unpremultiply_nearest(c: u8, a: u8)
    requires
        a > 200,
        c <= a,
    ensures
        -(a as int) <= 2 * (a as int * unpremultiply_channel(c, a) as int - 255 * c as int) <= a as int,
{
    let ai = a as int;
    let ci = c as int;
    let q = (510 * ci + ai) / (2 * ai);
    assert(q <= 255 && -ai <= 2 * (ai * q - 255 * ci) <= ai) by (nonlinear_arith)
        requires
            q == (510 * ci + ai) / (2 * ai),
            ai > 200,
            0 <= ci <= ai,
    ;
    assert(unpremultiply_channel(c, a) as int == q);
}

/// Every pixel of a `w` x `h` buffer has alpha `a`.
pub open spec fn uniform_alpha(bytes: Seq<u8>, w: u32, h: u32, a: u8) -> bool {
    forall|k: int| 0 <= k < w as int * h as int ==> #[trigger] pixel_k(bytes, k).a == a
}

/// On a canvas of one alpha everywhere, the artwork touches all four edges
/// when that alpha is above 128 and none otherwise, and the corners are
/// transparent exactly when it is below 32.
pub proof fn lemma_uniform_edges_and_corners(bytes: Seq<u8>, w: u32, h: u32, a: u8)
    requires
        bytes.len() == rgba_len(w, h),
        w > 0,
        h > 0,
        w as int * h as int <= u32::MAX + 1,
        uniform_alpha(bytes, w, h, a),
    ensures
        a > 128 ==> edge_touch_spec(bytes, w, h) == 4,
        a <= 128 ==> edge_touch_spec(bytes, w, h) == 0,
        corners_transparent_spec(bytes, w, h) <==> a < 32,
{
    assert forall|x: int, y: int| 0 <= x < w && 0 <= y < h implies #[trigger] spec_pixel(bytes, w, h, x, y)
        matches Some(p) && p.a == a by {
        assert(y * w + x < w as int * h as int) by (nonlinear_arith)
            requires
                0 <= x < w,
                0 <= y < h,
        ;
        assert(pixel_k(bytes, y * w + x).a == a);
    }
    let mx = w as int / 2;
    let my = h as int / 2;
    assert(spec_pixel(bytes, w, h, mx, 0) is Some);
    assert(spec_pixel(bytes, w, h, mx, sat_sub(h as int, 1)) is Some);
    assert(spec_pixel(bytes, w, h, 0, my) is Some);
    assert(spec_pixel(bytes, w, h, sat_sub(w as int, 1), my) is Some);
    assert(spec_pixel(bytes, w, h, 0, 0) is Some);
    assert(spec_pixel(bytes, w, h, sat_sub(w as int, 1), 0) is Some);
    assert(spec_pixel(bytes, w, h, 0, sat_sub(h as int, 1)) is Some);
    assert(spec_pixel(bytes, w, h, sat_sub(w as int, 1), sat_sub(h as int, 1)) is Some);
}

proof fn lemma_row_count_uniform(bytes: Seq<u8>, w: u32, h: u32, y: int, c: int, all: bool)
    requires
        0 <= y < h,
        0 <= c <= w,
        forall|x: int| 0 <= x < w ==> #[trigger] is_opaque(bytes, w, h, x, y) == all,
    ensures
        row_opaque_count(bytes, w, h, y, c) == if all { c } else { 0 },
    decreases c,
{
    if c > 0 {
        lemma_row_count_uniform(bytes, w, h, y, c - 1, all);
        assert(is_opaque(bytes, w, h, c - 1, y) == all);
    }
}

proof fn lemma_rows_count_uniform(bytes: Seq<u8>, w: u32, h: u32, r: int, all: bool)
    requires
        0 <= r <= h,
        forall|x: int, y: int| 0 <= x < w && 0 <= y < h ==> #[trigger] is_opaque(bytes, w, h, x, y) == all,
    ensures
        rows_opaque_count(bytes, w, h, r) == if all { r * w } else { 0 },
    decreases r,
{
    if r > 0 {
        lemma_rows_count_uniform(bytes, w, h, r - 1, all);
        assert forall|x: int| 0 <= x < w implies #[trigger] is_opaque(bytes, w, h, x, r - 1) == all by {}
        lemma_row_count_uniform(bytes, w, h, r - 1, w as int, all);
        assert((r - 1) * w + w == r * w) by (nonlinear_arith);
    }
}

/// The silhouette is the pixels with alpha above 32: on a canvas of one
/// alpha everywhere there is a silhouette exactly when that alpha is above
/// 32, and then its bounds (as `opaque_bounds` returns them) are the whole
/// canvas, every pixel counted.
pub proof fn lemma_uniform_silhouette(bytes: Seq<u8>, w: u32, h: u32, a: u8, b: OpaqueBounds)
    requires
        bytes.len() == rgba_len(w, h),
        w > 0,
        h > 0,
        w as int * h as int <= u32::MAX + 1,
        uniform_alpha(bytes, w, h, a),
    ensures
        has_silhouette(bytes, w, h) <==> a > 32,
        a > 32 && is_silhouette_bounds(bytes, w, h, b) && box_fits(b, w, h) ==> {
            &&& b.count == w as int * h as int
            &&& b.min_x == 0 && b.max_x == w - 1
            &&& b.min_y == 0 && b.max_y == h - 1
        },
{
    assert forall|x: int, y: int| 0 <= x < w && 0 <= y < h implies #[trigger] is_opaque(bytes, w, h, x, y)
        == (a > 32) by {
        assert(y * w + x < w as int * h as int) by (nonlinear_arith)
            requires
                0 <= x < w,
                0 <= y < h,
        ;
        assert(pixel_k(bytes, y * w + x).a == a);
    }
    if a > 32 {
        assert(is_opaque(bytes, w, h, 0, 0));
    }
    lemma_rows_count_uniform(bytes, w, h, h as int, a > 32);
    assert(h as int * w as int == w as int * h as int) by (nonlinear_arith);
    if a > 32 && is_silhouette_bounds(bytes, w, h, b) && box_fits(b, w, h) {
        assert(is_opaque(bytes, w, h, 0, 0));
        assert(is_opaque(bytes, w, h, w - 1, h - 1));
    }
}

} // verus!
