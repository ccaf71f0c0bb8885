use squircle_icon_rs::base64::base64_encode;
use squircle_icon_rs::bitmap::IconBitmap;
use tiny_skia::Pixmap;

#[test]
fn test_icon_bitmap_to_png_and_svg() {
    let mut pixmap = Pixmap::new(64, 64).unwrap();
    pixmap.fill(tiny_skia::Color::from_rgba8(255, 0, 0, 255));
    let bitmap = IconBitmap::from_pixmap(pixmap);
    let png_bytes = bitmap.to_png_bytes().expect("encode png");
    assert!(png_bytes.starts_with(b"\x89PNG\r\n\x1a\n"));

    let svg = bitmap.to_svg_markup().expect("generate svg markup");
    assert!(svg.contains("<svg xmlns=\"http://www.w3.org/2000/svg\" viewBox=\"0 0 64 64\">"));
    assert!(svg.contains("<image href=\"data:image/png;base64,"));
}

#[test]
fn base64_padding_cases() {
    assert_eq!(base64_encode(b""), "");
    assert_eq!(base64_encode(b"M"), "TQ==");
    assert_eq!(base64_encode(b"Ma"), "TWE=");
    assert_eq!(base64_encode(b"Man"), "TWFu");
    assert_eq!(base64_encode(b"Many hands"), "TWFueSBoYW5kcw==");
    assert_eq!(base64_encode(&[0xff, 0xfe, 0xfd, 0xfc]), "//79/A==");
}

#[test]
fn base64_length_and_concatenation() {
    let data: Vec<u8> = (0u8..=200).collect();
    for n in 0..data.len() {
        assert_eq!(base64_encode(&data[..n]).len(), 4 * ((n + 2) / 3));
    }
    let a = &data[..9];
    let b = &data[9..20];
    let whole = base64_encode(&data[..20]);
    assert_eq!(whole, format!("{}{}", base64_encode(a), base64_encode(b)));
}

#[test]
fn bitmap_accessors_and_embeddings() {
    let mut pixmap = Pixmap::new(3, 2).unwrap();
    pixmap.fill(tiny_skia::Color::from_rgba8(0, 0, 255, 255));
    let bitmap = IconBitmap::from_pixmap(pixmap.clone());
    assert_eq!(bitmap.width(), 3);
    assert_eq!(bitmap.height(), 2);
    assert_eq!(bitmap.as_premultiplied_rgba(), pixmap.data());
    assert_eq!(bitmap.pixmap().data(), pixmap.data());
    let png = bitmap.to_png_bytes().unwrap();
    let uri = bitmap.to_data_uri().unwrap();
    assert_eq!(uri, format!("data:image/png;base64,{}", base64_encode(&png)));
    let svg = bitmap.to_svg_markup().unwrap();
    assert_eq!(
        svg,
        format!(
            "<svg xmlns=\"http://www.w3.org/2000/svg\" viewBox=\"0 0 3 2\"><image href=\"{uri}\" x=\"0\" y=\"0\" width=\"3\" height=\"2\"/></svg>"
        )
    );
    assert_eq!(bitmap.into_pixmap().data(), pixmap.data());
}

#[test]
fn bitmap_clone_keeps_size_and_pixels() {
    let mut pixmap = Pixmap::new(5, 4).unwrap();
    pixmap.fill(tiny_skia::Color::from_rgba8(10, 20, 30, 255));
    let bitmap = IconBitmap::from_pixmap(pixmap);
    let copy = bitmap.clone();
    assert_eq!(copy.width(), 5);
    assert_eq!(copy.height(), 4);
    assert_eq!(copy.as_premultiplied_rgba(), bitmap.as_premultiplied_rgba());
}

fn decode_base64(text: &str) -> Vec<u8> {
    fn value(c: u8) -> u32 {
        match c {
            b'A'..=b'Z' => (c - b'A') as u32,
            b'a'..=b'z' => (c - b'a') as u32 + 26,
            b'0'..=b'9' => (c - b'0') as u32 + 52,
            b'+' => 62,
            _ => 63,
        }
    }
    let mut out = Vec::new();
    for g in text.as_bytes().chunks(4) {
        let v2 = if g[2] == b'=' { 0 } else { value(g[2]) };
        let v3 = if g[3] == b'=' { 0 } else { value(g[3]) };
        let n = (value(g[0]) << 18) | (value(g[1]) << 12) | (v2 << 6) | v3;
        out.push((n >> 16) as u8);
        if g[2] != b'=' {
            out.push((n >> 8) as u8);
        }
        if g[3] != b'=' {
            out.push(n as u8);
        }
    }
    out
}

#[test]
fn base64_decodes_back() {
    let data: Vec<u8> = (0u8..=255).rev().collect();
    for n in 0..40 {
        assert_eq!(decode_base64(&base64_encode(&data[..n])), &data[..n]);
    }
    assert_eq!(decode_base64(&base64_encode(&data)), data);
}

#[test]
fn png_bytes_open_with_the_signature() {
    let pixmap = Pixmap::new(2, 3).unwrap();
    let png = IconBitmap::from_pixmap(pixmap).to_png_bytes().unwrap();
    assert_eq!(&png[..8], &[137, 80, 78, 71, 13, 10, 26, 10]);
}
