use squircle_icon_rs::plate::{
    effective_profile, framing_plan, needs_detection, plate_plan, theme_plate, GlyphPlacement, MattingStrategy,
    PlateTheme, ProfileKind,
};
use squircle_icon_rs::profile::{
    card_spans, corners_transparent, dark_pixel_count, dark_plate_colors, edge_touch_count,
    opaque_bounds, rim_colors, sample_card_corner, Corner, OpaqueBounds, Rgba8,
};
use tiny_skia::Pixmap;

fn put(p: &mut Pixmap, x: u32, y: u32, c: [u8; 4]) {
    let w = p.width();
    let i = ((y * w + x) * 4) as usize;
    p.data_mut()[i..i + 4].copy_from_slice(&c);
}

fn rgba(r: u8, g: u8, b: u8, a: u8) -> Rgba8 {
    Rgba8 { r, g, b, a }
}

#[test]
fn silhouette_bounds_of_a_rectangle() {
    let mut p = Pixmap::new(10, 10).unwrap();
    for y in 3..=7 {
        for x in 2..=5 {
            put(&mut p, x, y, [10, 20, 30, 255]);
        }
    }
    // Faint pixels are not part of the silhouette.
    put(&mut p, 9, 9, [0, 0, 0, 32]);
    let b = opaque_bounds(&p).expect("silhouette");
    assert_eq!(b, OpaqueBounds { count: 20, min_x: 2, max_x: 5, min_y: 3, max_y: 7 });
    assert!(opaque_bounds(&Pixmap::new(4, 4).unwrap()).is_none());
}

#[test]
fn edges_and_corners() {
    let mut full = Pixmap::new(100, 100).unwrap();
    full.fill(tiny_skia::Color::from_rgba8(0, 100, 200, 255));
    assert_eq!(edge_touch_count(&full), 4);
    assert!(!corners_transparent(&full));

    let empty = Pixmap::new(100, 100).unwrap();
    assert_eq!(edge_touch_count(&empty), 0);
    assert!(corners_transparent(&empty));

    // Only the top edge touches, one row in.
    let mut top = Pixmap::new(10, 10).unwrap();
    put(&mut top, 5, 0, [0, 0, 0, 100]);
    put(&mut top, 5, 1, [0, 0, 0, 255]);
    assert_eq!(edge_touch_count(&top), 0);
    put(&mut top, 5, 0, [0, 0, 0, 129]);
    assert_eq!(edge_touch_count(&top), 1);
}

#[test]
fn card_spans_of_a_full_card() {
    let mut full = Pixmap::new(100, 100).unwrap();
    full.fill(tiny_skia::Color::from_rgba8(20, 50, 100, 255));
    let b = opaque_bounds(&full).unwrap();
    let s = card_spans(&full, &b);
    assert_eq!((s.top, s.bottom, s.left, s.right), (100, 100, 100, 100));

    // A hole in row 6 (the top inset) is not counted.
    put(&mut full, 50, 6, [0, 0, 0, 0]);
    let s = card_spans(&full, &b);
    assert_eq!(s.top, 99);
}

#[test]
fn corner_sampling_unpremultiplies() {
    let mut p = Pixmap::new(100, 100).unwrap();
    for y in 0..100 {
        for x in 0..100 {
            put(&mut p, x, y, [100, 50, 25, 204]);
        }
    }
    let b = opaque_bounds(&p).unwrap();
    let c = sample_card_corner(&p, &b, Corner::TopLeft).unwrap();
    let un = |v: u8| ((v as f32 / 204.0 * 255.0).round()) as u8;
    assert_eq!(c, rgba(un(100), un(50), un(25), 255));
    assert_eq!(c, rgba(125, 63, 31, 255));
    // A translucent card has no sampled color.
    let mut q = Pixmap::new(20, 20).unwrap();
    for y in 0..20 {
        for x in 0..20 {
            put(&mut q, x, y, [10, 10, 10, 150]);
        }
    }
    let bq = opaque_bounds(&q).unwrap();
    assert_eq!(sample_card_corner(&q, &bq, Corner::BottomRight), None);
}

#[test]
fn rim_of_a_uniform_disc() {
    let mut p = Pixmap::new(40, 40).unwrap();
    p.fill(tiny_skia::Color::from_rgba8(86, 92, 100, 255));
    let b = opaque_bounds(&p).unwrap();
    assert_eq!(rim_colors(&p, &b), Some((rgba(86, 92, 100, 255), rgba(86, 92, 100, 255))));
    // Left and right rims of very different colors are not uniform.
    let mid = 19;
    put(&mut p, 4, mid, [255, 255, 255, 255]);
    put(&mut p, 35, mid, [0, 0, 0, 255]);
    assert_eq!(rim_colors(&p, &b), None);
}

#[test]
fn dark_host_plate() {
    let mut p = Pixmap::new(20, 20).unwrap();
    p.fill(tiny_skia::Color::from_rgba8(20, 20, 20, 255));
    assert_eq!(dark_pixel_count(&p), 400);
    let b = opaque_bounds(&p).unwrap();
    let (top, bottom) = dark_plate_colors(&p, &b);
    assert_eq!(top, rgba(26, 28, 32, 255));
    assert_eq!(bottom, rgba(14, 15, 18, 255));

    let mut q = Pixmap::new(20, 20).unwrap();
    q.fill(tiny_skia::Color::from_rgba8(80, 60, 90, 255));
    assert_eq!(dark_pixel_count(&q), 0);
    let (top, bottom) = dark_plate_colors(&q, &b);
    // 55% and 30% of the band tone, limited to the dark ranges.
    assert_eq!(top, rgba(44, 33, 49, 255));
    assert_eq!(bottom, rgba(24, 18, 27, 255));
}

#[test]
fn plate_plans() {
    assert!(needs_detection(MattingStrategy::Auto));
    assert!(needs_detection(MattingStrategy::AlwaysPlate));
    assert!(!needs_detection(MattingStrategy::SquircleClipOnly));
    assert!(!needs_detection(MattingStrategy::Raw));

    let card = ProfileKind::PreFramedSquircle { top: rgba(1, 2, 3, 255), bottom: rgba(4, 5, 6, 255) };
    assert_eq!(effective_profile(MattingStrategy::Auto, card), card);
    assert_eq!(
        effective_profile(MattingStrategy::AlwaysPlate, card),
        ProfileKind::FloatingCutout { top: None, bottom: None }
    );
    assert_eq!(effective_profile(MattingStrategy::SquircleClipOnly, card), ProfileKind::FullBleed);

    // Clipping only adds nothing: no plate, no border, the icon at its size.
    for theme in [PlateTheme::Light, PlateTheme::Dark] {
        let plan = framing_plan(MattingStrategy::SquircleClipOnly, card, theme);
        assert_eq!(plan.top, rgba(0, 0, 0, 0));
        assert_eq!(plan.bottom, rgba(0, 0, 0, 0));
        assert_eq!(plan.border, rgba(0, 0, 0, 0));
        assert_eq!(plan.placement, GlyphPlacement::Identity);
    }
    assert_eq!(framing_plan(MattingStrategy::Auto, card, PlateTheme::Light), plate_plan(card, PlateTheme::Light));
    assert_eq!(
        framing_plan(MattingStrategy::AlwaysPlate, card, PlateTheme::Light).placement,
        GlyphPlacement::Inset
    );

    let plan = plate_plan(card, PlateTheme::Light);
    assert_eq!(plan.top, rgba(1, 2, 3, 255));
    assert_eq!(plan.bottom, rgba(4, 5, 6, 255));
    assert_eq!(plan.placement, GlyphPlacement::CardFit);
    assert_eq!(plan.border, rgba(0, 0, 0, 20));

    let plan = plate_plan(ProfileKind::FullBleed, PlateTheme::Dark);
    assert_eq!((plan.top, plan.bottom), theme_plate(PlateTheme::Dark));
    assert_eq!((plan.top, plan.bottom), (rgba(48, 48, 51, 255), rgba(28, 28, 30, 255)));
    assert_eq!(plan.placement, GlyphPlacement::Identity);
    assert_eq!(plan.border, rgba(255, 255, 255, 30));

    // An extracted dark cutout plate gets a light hairline even in the light theme.
    let dark = ProfileKind::FloatingCutout { top: Some(rgba(40, 40, 45, 255)), bottom: None };
    let plan = plate_plan(dark, PlateTheme::Light);
    assert_eq!((plan.top, plan.bottom), (rgba(40, 40, 45, 255), rgba(40, 40, 45, 255)));
    assert_eq!(plan.placement, GlyphPlacement::Inset);
    assert_eq!(plan.border, rgba(255, 255, 255, 30));

    let plain = ProfileKind::FloatingCutout { top: None, bottom: None };
    let plan = plate_plan(plain, PlateTheme::Light);
    assert_eq!((plan.top, plan.bottom), (rgba(255, 255, 255, 255), rgba(242, 242, 247, 255)));
    assert_eq!(plan.border, rgba(0, 0, 0, 20));
}

#[test]
fn theme_and_strategy_codes() {
    assert_eq!(PlateTheme::default(), PlateTheme::Light);
    assert_eq!(MattingStrategy::default(), MattingStrategy::Auto);
    assert_eq!(PlateTheme::Light.code(), 0);
    assert_eq!(PlateTheme::Dark.code(), 1);
    assert_eq!(MattingStrategy::Auto.code(), 0);
    assert_eq!(MattingStrategy::AlwaysPlate.code(), 1);
    assert_eq!(MattingStrategy::SquircleClipOnly.code(), 2);
    assert_eq!(MattingStrategy::Raw.code(), 3);
}
