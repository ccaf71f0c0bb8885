use squircle_icon_rs::raster::{is_svg_path, rasterize_image_data, RasterError};
use tiny_skia::Pixmap;

fn png_of(p: &Pixmap) -> Vec<u8> {
    p.encode_png().unwrap()
}

#[test]
fn raster_same_size_keeps_opaque_pixels() {
    let mut p = Pixmap::new(4, 4).unwrap();
    p.fill(tiny_skia::Color::from_rgba8(200, 100, 50, 255));
    let out = rasterize_image_data(&png_of(&p), 4, 4).expect("decode");
    assert_eq!(out.width(), 4);
    assert_eq!(out.height(), 4);
    assert_eq!(out.data(), p.data());
}

fn png_of_straight(w: u32, h: u32, rgba: Vec<u8>) -> Vec<u8> {
    let img = image::RgbaImage::from_raw(w, h, rgba).unwrap();
    let mut out = std::io::Cursor::new(Vec::new());
    img.write_to(&mut out, image::ImageFormat::Png).unwrap();
    out.into_inner()
}

#[test]
fn raster_clears_faint_and_premultiplies() {
    // A faint pixel (alpha 8), a translucent red (200, 0, 0) at alpha 128,
    // and a translucent (40, 20, 0) at alpha 128.
    let png = png_of_straight(3, 1, vec![8, 8, 8, 8, 200, 0, 0, 128, 40, 20, 0, 128]);
    let out = rasterize_image_data(&png, 3, 1).expect("decode");
    assert_eq!(out.data(), &[0, 0, 0, 0, 100, 0, 0, 128, 20, 10, 0, 128]);
    // Premultiplied pixels never exceed their alpha.
    for px in out.data().chunks(4) {
        assert!(px[0] <= px[3] && px[1] <= px[3] && px[2] <= px[3]);
    }
}

#[test]
fn raster_resizes_to_target() {
    let mut p = Pixmap::new(8, 8).unwrap();
    p.fill(tiny_skia::Color::from_rgba8(0, 0, 255, 255));
    let out = rasterize_image_data(&png_of(&p), 16, 16).expect("decode");
    assert_eq!(out.width(), 16);
    assert_eq!(out.height(), 16);
    assert_eq!(out.data().len(), 16 * 16 * 4);
    let c = out.pixel(8, 8).unwrap();
    assert_eq!((c.red(), c.green(), c.blue(), c.alpha()), (0, 0, 255, 255));
}

#[test]
fn raster_errors() {
    assert!(matches!(rasterize_image_data(b"not an image", 0, 4), Err(RasterError::InvalidSize)));
    assert!(matches!(rasterize_image_data(b"not an image", 4, 0), Err(RasterError::InvalidSize)));
    assert!(matches!(rasterize_image_data(b"not an image", 4, 4), Err(RasterError::ImageDecode(_))));
}

#[test]
fn svg_paths_by_final_name() {
    assert!(is_svg_path("/dir/ICON.SVG"));
    assert!(is_svg_path("icon.svg"));
    assert!(!is_svg_path("/dir/icon.png"));
    assert!(!is_svg_path("/dir.svg/icon"));
    assert!(!is_svg_path("/dir/.svg"));
}
