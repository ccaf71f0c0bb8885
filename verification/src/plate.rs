//! Plate framing decisions: themes, matting strategies, the detected icon
//! archetype, and the plan (plate colors, glyph placement, hairline border)
//! that a renderer carries out inside the squircle mask.

use vstd::prelude::*;
use crate::profile::Rgba8;

verus! {

/// Icon background plate styling theme.
#[derive(Debug, Clone, Copy, PartialEq, Eq, Structural)]
pub enum PlateTheme {
    Light,
    Dark,
}

impl Default for PlateTheme {
    fn default() -> (t: Self)
        ensures
            t == PlateTheme::Light,
    {
        PlateTheme::Light
    }
}

/// Strategy for framing an application icon.
#[derive(Debug, Clone, Copy, PartialEq, Eq, Structural)]
pub enum MattingStrategy {
    /// Automatically detects if an icon is a circular or transparent cutout,
    /// generating an Apple-style continuous curvature plate only when appropriate.
    Auto,
    /// Always forces the icon into a macOS squircle plate.
    AlwaysPlate,
    /// Only clips the continuous curvature corners without generating a background plate.
    SquircleClipOnly,
    /// No plate and no corner clipping.
    Raw,
}

impl Default for MattingStrategy {
    fn default() -> (s: Self)
        ensures
            s == MattingStrategy::Auto,
    {
        MattingStrategy::Auto
    }
}

impl PlateTheme {
    /// The theme's number in cache keys: `Light` is 0, `Dark` is 1.
    pub fn code(self) -> (c: u8)
        ensures
            c == (if self == PlateTheme::Light { 0u8 } else { 1u8 }),
    {
        match self {
            PlateTheme::Light => 0,
            PlateTheme::Dark => 1,
        }
    }
}

impl MattingStrategy {
    /// The strategy's number in cache keys, in declaration order from 0.
    pub fn code(self) -> (c: u8)
        ensures
            c == match self {
                MattingStrategy::Auto => 0u8,
                MattingStrategy::AlwaysPlate => 1u8,
                MattingStrategy::SquircleClipOnly => 2u8,
                MattingStrategy::Raw => 3u8,
            },
    {
        match self {
            MattingStrategy::Auto => 0,
            MattingStrategy::AlwaysPlate => 1,
            MattingStrategy::SquircleClipOnly => 2,
            MattingStrategy::Raw => 3,
        }
    }
}

/// The archetype of an icon and the plate colors found for it.
#[allow(inconsistent_fields)]
#[derive(Debug, Clone, Copy, PartialEq, Eq, Structural)]
pub enum ProfileKind {
    /// Icon fills the entire canvas with opaque corners.
    FullBleed,
    /// Icon is an existing card with transparent padding, with the card's
    /// top and bottom background colors.
    PreFramedSquircle { top: Rgba8, bottom: Rgba8 },
    /// Icon has a uniform circular rim, with its top and bottom rim colors.
    UniformColoredCircle { top: Rgba8, bottom: Rgba8 },
    /// Cutout glyph or badge, with plate colors extracted from a dark host
    /// surface where there is one.
    FloatingCutout { top: Option<Rgba8>, bottom: Option<Rgba8> },
}

/// Where the source image goes on the plate.
#[derive(Debug, Clone, Copy, PartialEq, Eq, Structural)]
pub enum GlyphPlacement {
    /// At its own size, covering the tile.
    Identity,
    /// The pre-framed card, scaled and moved so that it bleeds into the tile.
    CardFit,
    /// Scaled down by the glyph scale and centered.
    Inset,
}

/// What a renderer paints inside the squircle mask: a vertical gradient from
/// `top` to `bottom`, the source image placed by `placement`, then a hairline
/// border in `border`.
#[derive(Debug, Clone, Copy, PartialEq, Eq, Structural)]
pub struct PlatePlan {
    pub top: Rgba8,
    pub bottom: Rgba8,
    pub placement: GlyphPlacement,
    pub border: Rgba8,
}

/// Opaque color from its channels.
pub open spec fn opaque(r: u8, g: u8, b: u8) -> Rgba8 {
    Rgba8 { r, g, b, a: 255 }
}

/// The default plate gradient of a theme: white to (242, 242, 247) for
/// `Light`, (48, 48, 51) to (28, 28, 30) for `Dark`.
pub open spec fn theme_plate_spec(theme: PlateTheme) -> (Rgba8, Rgba8) {
    match theme {
        PlateTheme::Light => (opaque(255, 255, 255), opaque(242, 242, 247)),
        PlateTheme::Dark => (opaque(48, 48, 51), opaque(28, 28, 30)),
    }
}

/// Whether the strategy looks at the image to choose its profile.
pub open spec fn needs_detection_spec(strategy: MattingStrategy) -> bool {
    strategy == MattingStrategy::Auto || strategy == MattingStrategy::AlwaysPlate
}

/// The profile a strategy settles on: `Auto` keeps what was detected,
/// `AlwaysPlate` keeps a detected cutout and turns anything else into a
/// plain cutout, and the strategies that add no plate (`SquircleClipOnly`,
/// `Raw`) look at no profile and settle on full bleed.
pub open spec fn effective_profile_spec(strategy: MattingStrategy, detected: ProfileKind) -> ProfileKind {
    match strategy {
        MattingStrategy::Auto => detected,
        MattingStrategy::AlwaysPlate => match detected {
            ProfileKind::FloatingCutout { .. } => detected,
            _ => ProfileKind::FloatingCutout { top: None, bottom: None },
        },
        _ => ProfileKind::FullBleed,
    }
}

/// Whether a color reads as dark: luminance `0.299 r + 0.587 g + 0.114 b`
/// below 45% of full scale.
pub open spec fn is_dark_color(c: Rgba8) -> bool {
    299 * c.r + 587 * c.g + 114 * c.b < 114750
}

/// Whether the plate surface is dark: an extracted cutout plate whose top is
/// dark, else the `Dark` theme.
pub open spec fn dark_surface_spec(profile: ProfileKind, theme: PlateTheme) -> bool {
    match profile {
        ProfileKind::FloatingCutout { top: Some(t), .. } => is_dark_color(t),
        _ => theme == PlateTheme::Dark,
    }
}

/// The plan for a profile: plate colors, placement and border.
pub open spec fn plate_plan_spec(profile: ProfileKind, theme: PlateTheme) -> PlatePlan {
    let (top, bottom, placement) = match profile {
        ProfileKind::FullBleed => (theme_plate_spec(theme).0, theme_plate_spec(theme).1, GlyphPlacement::Identity),
        ProfileKind::PreFramedSquircle { top, bottom } => (top, bottom, GlyphPlacement::CardFit),
        ProfileKind::UniformColoredCircle { top, bottom } => (top, bottom, GlyphPlacement::Inset),
        ProfileKind::FloatingCutout { top: Some(t), bottom: Some(b) } => (t, b, GlyphPlacement::Inset),
        ProfileKind::FloatingCutout { top: Some(t), bottom: None } => (t, t, GlyphPlacement::Inset),
        ProfileKind::FloatingCutout { .. } => (theme_plate_spec(theme).0, theme_plate_spec(theme).1, GlyphPlacement::Inset),
    };
    let border = if dark_surface_spec(profile, theme) || theme == PlateTheme::Dark {
        Rgba8 { r: 255, g: 255, b: 255, a: 30 }
    } else {
        Rgba8 { r: 0, g: 0, b: 0, a: 20 }
    };
    PlatePlan { top, bottom, placement, border }
}

/// Transparent black: a color that paints nothing.
pub open spec fn transparent() -> Rgba8 {
    Rgba8 { r: 0, g: 0, b: 0, a: 0 }
}

/// The plan of a strategy that adds nothing to the icon: no plate (both
/// gradient colors transparent), the icon at its own size, and no border.
pub open spec fn clip_only_plan_spec() -> PlatePlan {
    PlatePlan {
        top: transparent(),
        bottom: transparent(),
        placement: GlyphPlacement::Identity,
        border: transparent(),
    }
}

/// The plan a strategy frames an icon with: `SquircleClipOnly` (and `Raw`,
/// which is not framed at all) paint nothing inside the mask; `Auto` and
/// `AlwaysPlate` plan the plate of the profile they settle on.
pub open spec fn framing_plan_spec(strategy: MattingStrategy, detected: ProfileKind, theme: PlateTheme) -> PlatePlan {
    match strategy {
        MattingStrategy::SquircleClipOnly | MattingStrategy::Raw => clip_only_plan_spec(),
        _ => plate_plan_spec(effective_profile_spec(strategy, detected), theme),
    }
}

/// The default plate gradient of a theme.
pub fn theme_plate(theme: PlateTheme) -> (r: (Rgba8, Rgba8))
    ensures
        r == theme_plate_spec(theme),
{
    match theme {
        PlateTheme::Light => (
            Rgba8 { r: 255, g: 255, b: 255, a: 255 },
            Rgba8 { r: 242, g: 242, b: 247, a: 255 },
        ),
        PlateTheme::Dark => (
            Rgba8 { r: 48, g: 48, b: 51, a: 255 },
            Rgba8 { r: 28, g: 28, b: 30, a: 255 },
        ),
    }
}

/// Whether a strategy needs the icon's profile to be detected.
pub fn needs_detection(strategy: MattingStrategy) -> (r: bool)
    ensures
        r == needs_detection_spec(strategy),
{
    match strategy {
        MattingStrategy::Auto | MattingStrategy::AlwaysPlate => true,
        _ => false,
    }
}

/// Settles the profile a strategy frames the icon with.
pub fn effective_profile(strategy: MattingStrategy, detected: ProfileKind) -> (p: ProfileKind)
    ensures
        p == effective_profile_spec(strategy, detected),
{
    match strategy {
        MattingStrategy::Auto => detected,
        MattingStrategy::AlwaysPlate => match detected {
            ProfileKind::FloatingCutout { top, bottom } => ProfileKind::FloatingCutout { top, bottom },
            _ => ProfileKind::FloatingCutout { top: None, bottom: None },
        },
        _ => ProfileKind::FullBleed,
    }
}

/// Checks whether a color reads as dark.
pub fn is_dark(c: Rgba8) -> (d: bool)
    ensures
        d == is_dark_color(c),
{
    299 * (c.r as u32) + 587 * (c.g as u32) + 114 * (c.b as u32) < 114750
}

/// Plans the plate for a profile and theme.
pub fn plate_plan(profile: ProfileKind, theme: PlateTheme) -> (plan: PlatePlan)
    ensures
        plan == plate_plan_spec(profile, theme),
{
    let (themed_top, themed_bottom) = theme_plate(theme);
    let (top, bottom, placement) = match profile {
        ProfileKind::FullBleed => (themed_top, themed_bottom, GlyphPlacement::Identity),
        ProfileKind::PreFramedSquircle { top, bottom } => (top, bottom, GlyphPlacement::CardFit),
        ProfileKind::UniformColoredCircle { top, bottom } => (top, bottom, GlyphPlacement::Inset),
        ProfileKind::FloatingCutout { top: Some(t), bottom: Some(b) } => (t, b, GlyphPlacement::Inset),
        ProfileKind::FloatingCutout { top: Some(t), bottom: None } => (t, t, GlyphPlacement::Inset),
        ProfileKind::FloatingCutout { .. } => (themed_top, themed_bottom, GlyphPlacement::Inset),
    };
    let dark_surface = match profile {
        ProfileKind::FloatingCutout { top: Some(t), .. } => is_dark(t),
        _ => match theme {
            PlateTheme::Dark => true,
            PlateTheme::Light => false,
        },
    };
    let dark_theme = match theme {
        PlateTheme::Dark => true,
        PlateTheme::Light => false,
    };
    let border = if dark_surface || dark_theme {
        Rgba8 { r: 255, g: 255, b: 255, a: 30 }
    } else {
        Rgba8 { r: 0, g: 0, b: 0, a: 20 }
    };
    PlatePlan { top, bottom, placement, border }
}

/// The plate takes the colors found in the icon, whatever the theme: a
/// uniform circle is set inset on its rim colors, a pre-framed card keeps
/// its card colors and is fitted to the tile, and a cutout with an
/// extracted plate is inset on that plate (its top color throughout where no
/// bottom color was found).
pub proof fn lemma_plate_follows_detected_colors(top: Rgba8, bottom: Rgba8, theme: PlateTheme)
    ensures
        plate_plan_spec(ProfileKind::UniformColoredCircle { top, bottom }, theme).top == top,
        plate_plan_spec(ProfileKind::UniformColoredCircle { top, bottom }, theme).bottom == bottom,
        plate_plan_spec(ProfileKind::UniformColoredCircle { top, bottom }, theme).placement
            == GlyphPlacement::Inset,
        plate_plan_spec(ProfileKind::PreFramedSquircle { top, bottom }, theme).top == top,
        plate_plan_spec(ProfileKind::PreFramedSquircle { top, bottom }, theme).bottom == bottom,
        plate_plan_spec(ProfileKind::PreFramedSquircle { top, bottom }, theme).placement
            == GlyphPlacement::CardFit,
        plate_plan_spec(ProfileKind::FloatingCutout { top: Some(top), bottom: Some(bottom) }, theme).top
            == top,
        plate_plan_spec(ProfileKind::FloatingCutout { top: Some(top), bottom: Some(bottom) }, theme).bottom
            == bottom,
        plate_plan_spec(ProfileKind::FloatingCutout { top: Some(top), bottom: None }, theme).bottom == top,
        framing_plan_spec(MattingStrategy::Auto, ProfileKind::UniformColoredCircle { top, bottom }, theme).top
            == top,
        framing_plan_spec(MattingStrategy::Auto, ProfileKind::UniformColoredCircle { top, bottom }, theme).bottom
            == bottom,
{
}

/// `AlwaysPlate` always insets the glyph on a plate, whatever was detected.
pub proof fn lemma_always_plate_insets(detected: ProfileKind, theme: PlateTheme)
    ensures
        framing_plan_spec(MattingStrategy::AlwaysPlate, detected, theme).placement == GlyphPlacement::Inset,
{
}

/// `SquircleClipOnly` only clips the corners: whatever was detected, its
/// plan paints no plate and no border, and leaves the icon at its own size.
pub proof fn lemma_clip_only_paints_nothing(detected: ProfileKind, theme: PlateTheme)
    ensures
        framing_plan_spec(MattingStrategy::SquircleClipOnly, detected, theme) == clip_only_plan_spec(),
        framing_plan_spec(MattingStrategy::SquircleClipOnly, detected, theme).top.a == 0,
        framing_plan_spec(MattingStrategy::SquircleClipOnly, detected, theme).bottom.a == 0,
        framing_plan_spec(MattingStrategy::SquircleClipOnly, detected, theme).border.a == 0,
        framing_plan_spec(MattingStrategy::SquircleClipOnly, detected, theme).placement
            == GlyphPlacement::Identity,
{
}

/// The faint white of a border on a dark surface.
pub open spec fn faint_white() -> Rgba8 {
    Rgba8 { r: 255, g: 255, b: 255, a: 30 }
}

/// The faint black of a border on a light surface.
pub open spec fn faint_black() -> Rgba8 {
    Rgba8 { r: 0, g: 0, b: 0, a: 20 }
}

/// Whether a profile is a cutout with an extracted plate whose top is dark.
pub open spec fn extracted_dark(profile: ProfileKind) -> bool {
    match profile {
        ProfileKind::FloatingCutout { top: Some(t), .. } => is_dark_color(t),
        _ => false,
    }
}

/// Plans the framing of an icon for a strategy, a detected profile and a
/// theme.
pub fn framing_plan(strategy: MattingStrategy, detected: ProfileKind, theme: PlateTheme) -> (plan: PlatePlan)
    ensures
        plan == framing_plan_spec(strategy, detected, theme),
{
    match strategy {
        MattingStrategy::SquircleClipOnly | MattingStrategy::Raw => PlatePlan {
            top: Rgba8 { r: 0, g: 0, b: 0, a: 0 },
            bottom: Rgba8 { r: 0, g: 0, b: 0, a: 0 },
            placement: GlyphPlacement::Identity,
            border: Rgba8 { r: 0, g: 0, b: 0, a: 0 },
        },
        _ => plate_plan(effective_profile(strategy, detected), theme),
    }
}

/// On the dark theme the hairline border is always faint white; on the
/// light theme it is faint white exactly on an extracted dark cutout plate,
/// and faint black everywhere else.
pub proof fn lemma_border_contrast(profile: ProfileKind, theme: PlateTheme)
    ensures
        theme == PlateTheme::Dark ==> plate_plan_spec(profile, theme).border == faint_white(),
        theme == PlateTheme::Light && extracted_dark(profile) ==> plate_plan_spec(profile, theme).border
            == faint_white(),
        theme == PlateTheme::Light && !extracted_dark(profile) ==> plate_plan_spec(profile, theme).border
            == faint_black(),
{
}

} // verus!
