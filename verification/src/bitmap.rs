//! The processed icon bitmap and its PNG, data URI and SVG embeddings.

use vstd::prelude::*;
use tiny_skia::Pixmap;
use crate::base64::{base64_encode, base64_spec};
use crate::pixmap::{
    pixmap_bytes, pixmap_data, pixmap_height, pixmap_height_of, pixmap_width, pixmap_width_of,
};
use crate::text::{decimal_chars, push_decimal, string_push_str};

verus! {

#[verifier::external_type_specification]
#[verifier::external_body]
pub struct ExEncodingError(png::EncodingError);

/// The PNG file that `tiny_skia` writes for a pixmap of the given size and
/// premultiplied RGBA8 contents, or `None` where the encoder fails.
pub uninterp spec fn png_encoding(width: u32, height: u32, premultiplied: Seq<u8>) -> Option<
    Seq<u8>,
>;

/// The eight bytes that open every PNG file.
pub open spec fn png_signature() -> Seq<u8> {
    seq![137u8, 80, 78, 71, 13, 10, 26, 10]
}

/// Encodes a pixmap as PNG (`tiny_skia::Pixmap::encode_png`): the pixels are
/// demultiplied and written as 8-bit RGBA into a fresh buffer, which the
/// `png` encoder opens with the PNG signature. The encoder fails only on a
/// zero size, an invalid color and depth pair, a buffer of the wrong length
/// or a failed write, none of which can happen for a pixmap written to a
/// vector, so encoding always succeeds. The bytes depend on the size and
/// the pixels alone.
#[verifier::external_body]
pub(crate) fn encode_png(p: &Pixmap) -> (r: Result<Vec<u8>, png::EncodingError>)
    ensures
        r is Ok,
        r is Ok <==> png_encoding(pixmap_width(*p), pixmap_height(*p), pixmap_bytes(*p)) is Some,
        r matches Ok(bytes) ==> png_encoding(pixmap_width(*p), pixmap_height(*p), pixmap_bytes(*p))
            == Some(bytes@),
        r matches Ok(bytes) ==> bytes@.len() >= 8 && bytes@.subrange(0, 8) == png_signature(),
{
    p.encode_png()
}

/// Processed application icon bitmap in RGBA8 format.
pub struct IconBitmap {
    width: u32,
    height: u32,
    pixmap: Pixmap,
}

impl Clone for IconBitmap {
    /// A copy with the same size and the same pixels.
    fn clone(&self) -> (r: Self)
        ensures
            r.spec_width() == self.spec_width(),
            r.spec_height() == self.spec_height(),
            pixmap_width(r.spec_pixmap()) == pixmap_width(self.spec_pixmap()),
            pixmap_height(r.spec_pixmap()) == pixmap_height(self.spec_pixmap()),
            pixmap_bytes(r.spec_pixmap()) == pixmap_bytes(self.spec_pixmap()),
    {
        proof {
            use_type_invariant(self);
        }
        IconBitmap { width: self.width, height: self.height, pixmap: self.pixmap.clone() }
    }
}

/// The prefix of a PNG data URI.
pub open spec fn data_uri_prefix() -> Seq<char> {
    "data:image/png;base64,"@
}

/// The data URI of PNG bytes.
pub open spec fn data_uri_spec(png: Seq<u8>) -> Seq<char> {
    data_uri_prefix() + base64_spec(png)
}

/// The standalone SVG document that embeds an image of the given size by URI.
pub open spec fn svg_markup_spec(width: u32, height: u32, uri: Seq<char>) -> Seq<char> {
    let w = decimal_chars(width as nat);
    let h = decimal_chars(height as nat);
    "<svg xmlns=\"http://www.w3.org/2000/svg\" viewBox=\"0 0 "@ + w + " "@ + h
        + "\"><image href=\""@ + uri + "\" x=\"0\" y=\"0\" width=\""@ + w + "\" height=\""@ + h
        + "\"/></svg>"@
}

impl IconBitmap {
    /// The recorded size is that of the pixmap.
    #[verifier::type_invariant]
    spec fn size_matches(self) -> bool {
        &&& self.width == pixmap_width(self.pixmap)
        &&& self.height == pixmap_height(self.pixmap)
    }

    /// The width recorded for the bitmap.
    pub closed spec fn spec_width(&self) -> u32 {
        self.width
    }

    /// The height recorded for the bitmap.
    pub closed spec fn spec_height(&self) -> u32 {
        self.height
    }

    /// The pixmap the bitmap holds.
    pub closed spec fn spec_pixmap(&self) -> Pixmap {
        self.pixmap
    }

    /// The PNG file of the bitmap's pixels, where it can be encoded.
    pub open spec fn spec_png(&self) -> Option<Seq<u8>> {
        png_encoding(
            pixmap_width(self.spec_pixmap()),
            pixmap_height(self.spec_pixmap()),
            pixmap_bytes(self.spec_pixmap()),
        )
    }

    /// Creates an `IconBitmap` from an existing `tiny_skia::Pixmap`.
    pub fn from_pixmap(pixmap: Pixmap) -> (r: Self)
        ensures
            r.spec_width() == pixmap_width(pixmap),
            r.spec_height() == pixmap_height(pixmap),
            r.spec_pixmap() == pixmap,
    {
        let width = pixmap_width_of(&pixmap);
        let height = pixmap_height_of(&pixmap);
        IconBitmap { width, height, pixmap }
    }

    /// The width of the bitmap, which is that of its pixmap.
    pub fn width(&self) -> (w: u32)
        ensures
            w == self.spec_width(),
            w == pixmap_width(self.spec_pixmap()),
    {
        proof {
            use_type_invariant(self);
        }
        self.width
    }

    /// The height of the bitmap, which is that of its pixmap.
    pub fn height(&self) -> (h: u32)
        ensures
            h == self.spec_height(),
            h == pixmap_height(self.spec_pixmap()),
    {
        proof {
            use_type_invariant(self);
        }
        self.height
    }

    /// The pixmap of the bitmap.
    pub fn pixmap(&self) -> (p: &Pixmap)
        ensures
            *p == self.spec_pixmap(),
    {
        &self.pixmap
    }

    /// Gives up the bitmap for its pixmap.
    pub fn into_pixmap(self) -> (p: Pixmap)
        ensures
            p == self.spec_pixmap(),
    {
        self.pixmap
    }

    /// Returns premultiplied RGBA8 pixel slice (native `tiny_skia` layout).
    pub fn as_premultiplied_rgba(&self) -> (d: &[u8])
        ensures
            d@ == pixmap_bytes(self.spec_pixmap()),
    {
        pixmap_data(&self.pixmap)
    }

    /// Encodes the icon bitmap as standard PNG bytes.
    pub fn to_png_bytes(&self) -> (r: Result<Vec<u8>, png::EncodingError>)
        ensures
            r is Ok,
            self.spec_png() is Some,
            r matches Ok(bytes) ==> self.spec_png() == Some(bytes@),
            r matches Ok(bytes) ==> bytes@.len() >= 8 && bytes@.subrange(0, 8) == png_signature(),
    {
        encode_png(&self.pixmap)
    }

    /// Returns a base64-encoded `data:image/png;base64,...` URI string.
    pub fn to_data_uri(&self) -> (r: Option<String>)
        ensures
            r is Some,
            self.spec_png() is Some,
            r matches Some(uri) ==> uri@ == data_uri_spec(self.spec_png()->0),
    {
        match self.to_png_bytes() {
            Ok(png) => {
                let mut uri = String::new();
                string_push_str(&mut uri, "data:image/png;base64,");
                let encoded = base64_encode(png.as_slice());
                string_push_str(&mut uri, encoded.as_str());
                Some(uri)
            },
            Err(_) => None,
        }
    }

    /// Wraps the processed squircle icon in a standalone SVG document.
    ///
    /// This enables seamless vector integration in GUI engines (e.g. `iced::widget::svg`)
    /// without requiring a separate raster image pipeline.
    pub fn to_svg_markup(&self) -> (r: Option<String>)
        ensures
            r is Some,
            self.spec_png() is Some,
            r matches Some(svg) ==> svg@ == svg_markup_spec(
                self.spec_width(),
                self.spec_height(),
                data_uri_spec(self.spec_png()->0),
            ),
    {
        let uri = match self.to_data_uri() {
            Some(u) => u,
            None => return None,
        };
        let w = self.width;
        let h = self.height;
        let mut svg = String::new();
        string_push_str(&mut svg, "<svg xmlns=\"http://www.w3.org/2000/svg\" viewBox=\"0 0 ");
        push_decimal(&mut svg, w as u64);
        string_push_str(&mut svg, " ");
        push_decimal(&mut svg, h as u64);
        string_push_str(&mut svg, "\"><image href=\"");
        string_push_str(&mut svg, uri.as_str());
        string_push_str(&mut svg, "\" x=\"0\" y=\"0\" width=\"");
        push_decimal(&mut svg, w as u64);
        string_push_str(&mut svg, "\" height=\"");
        push_decimal(&mut svg, h as u64);
        string_push_str(&mut svg, "\"/></svg>");
        Some(svg)
    }
}

} // verus!
