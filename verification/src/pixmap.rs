//! The premultiplied RGBA8 pixel buffer of `tiny_skia`, as the rest of the
//! library sees it: a width, a height and a byte sequence in RGBA order.

use vstd::prelude::*;
use tiny_skia::Pixmap;

verus! {

#[verifier::external_type_specification]
#[verifier::external_body]
pub struct ExPixmap(tiny_skia::Pixmap);

/// Copies a pixmap (`Clone` for `tiny_skia::Pixmap`, derived there): the copy
/// has the same size and the same bytes.
pub assume_specification[<tiny_skia::Pixmap as Clone>::clone](p: &Pixmap) -> (r: Pixmap)
    ensures
        pixmap_width(r) == pixmap_width(*p),
        pixmap_height(r) == pixmap_height(*p),
        pixmap_bytes(r) == pixmap_bytes(*p),
;

/// The bytes a pixmap holds: premultiplied RGBA8, row by row, with no padding.
pub uninterp spec fn pixmap_bytes(p: Pixmap) -> Seq<u8>;

/// The width a pixmap was made with.
pub uninterp spec fn pixmap_width(p: Pixmap) -> u32;

/// The height a pixmap was made with.
pub uninterp spec fn pixmap_height(p: Pixmap) -> u32;

/// The sizes `tiny_skia` accepts for a pixmap: both sides non-zero, a row of
/// at most `i32::MAX` bytes, and a buffer whose length fits in `usize`.
pub open spec fn pixmap_size_ok(width: u32, height: u32) -> bool {
    &&& width > 0
    &&& height > 0
    &&& width as int * 4 <= i32::MAX as int
    &&& width as int * height as int * 4 <= usize::MAX as int
}

/// Number of bytes of a `width` x `height` RGBA8 buffer.
pub open spec fn rgba_len(width: u32, height: u32) -> int {
    width as int * height as int * 4
}

/// Builds a pixmap that takes over `data` as its premultiplied RGBA8 buffer
/// (`tiny_skia::Pixmap::from_vec`). `tiny_skia` accepts the buffer exactly
/// when the size is one it can hold and the length is `width * height * 4`.
#[verifier::external_body]
pub(crate) fn pixmap_from_rgba(width: u32, height: u32, data: Vec<u8>) -> (r: Option<Pixmap>)
    ensures
        r is Some <==> (pixmap_size_ok(width, height) && data@.len() == rgba_len(width, height)),
        r matches Some(p) ==> {
            &&& pixmap_width(p) == width
            &&& pixmap_height(p) == height
            &&& pixmap_bytes(p) == data@
        },
{
    let size = tiny_skia::IntSize::from_wh(width, height)?;
    Pixmap::from_vec(data, size)
}

/// The width of a pixmap (`tiny_skia::Pixmap::width`). Every pixmap that
/// `tiny_skia` builds has a size it accepts and a buffer of exactly
/// `width * height * 4` bytes.
#[verifier::external_body]
pub(crate) fn pixmap_width_of(p: &Pixmap) -> (w: u32)
    ensures
        w == pixmap_width(*p),
        pixmap_size_ok(w, pixmap_height(*p)),
        pixmap_bytes(*p).len() == rgba_len(w, pixmap_height(*p)),
{
    p.width()
}

/// The height of a pixmap (`tiny_skia::Pixmap::height`).
#[verifier::external_body]
pub(crate) fn pixmap_height_of(p: &Pixmap) -> (h: u32)
    ensures
        h == pixmap_height(*p),
        pixmap_size_ok(pixmap_width(*p), h),
        pixmap_bytes(*p).len() == rgba_len(pixmap_width(*p), h),
{
    p.height()
}

/// The premultiplied RGBA8 buffer of a pixmap (`tiny_skia::Pixmap::data`).
#[verifier::external_body]
pub(crate) fn pixmap_data(p: &Pixmap) -> (d: &[u8])
    ensures
        d@ == pixmap_bytes(*p),
        d@.len() == rgba_len(pixmap_width(*p), pixmap_height(*p)),
{
    p.data()
}

} // verus!
