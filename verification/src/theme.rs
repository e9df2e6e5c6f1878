//! The system theme the badge renders against and its color palette: the
//! one place the badge and tray-icon colors come from.

use vstd::prelude::*;

verus! {

/// The Windows system-UI theme we render against.
#[derive(Clone, Copy, PartialEq, Eq, Debug, Structural)]
pub enum Theme {
    Light,
    Dark,
}

/// A GDI color value, `0x00BBGGRR`.
#[derive(Clone, Copy, PartialEq, Eq, Debug, Structural)]
pub struct ColorRef(pub u32);

/// Colors for one theme. The grays here are symmetric, so byte order does
/// not matter.
#[derive(Clone, Copy, PartialEq, Eq, Debug, Structural)]
pub struct Palette {
    pub bg: ColorRef,
    pub text: ColorRef,
    pub border: ColorRef,
}

/// Dark: dark pill, near-white text, mid-gray border.
pub open spec fn dark_palette() -> Palette {
    Palette { bg: ColorRef(0x0020_2020), text: ColorRef(0x00F0_F0F0), border: ColorRef(0x0050_5050) }
}

/// Light: the dark palette's pill and text swapped, with a light-gray border.
pub open spec fn light_palette() -> Palette {
    Palette { bg: ColorRef(0x00F0_F0F0), text: ColorRef(0x0020_2020), border: ColorRef(0x00C8_C8C8) }
}

pub open spec fn palette_spec(theme: Theme) -> Palette {
    match theme {
        Theme::Dark => dark_palette(),
        Theme::Light => light_palette(),
    }
}

impl Palette {
    /// Pure `Theme` -> colors mapping.
    pub fn for_theme(theme: Theme) -> (p: Palette)
        ensures
            p == palette_spec(theme),
    {
        match theme {
            Theme::Dark => Palette {
                bg: ColorRef(0x0020_2020),
                text: ColorRef(0x00F0_F0F0),
                border: ColorRef(0x0050_5050),
            },
            Theme::Light => Palette {
                bg: ColorRef(0x00F0_F0F0),
                text: ColorRef(0x0020_2020),
                border: ColorRef(0x00C8_C8C8),
            },
        }
    }
}

/// The theme for the stored `SystemUsesLightTheme` value: `Some(1)` is
/// light; any other value, or no value read (missing or unreadable), is dark.
pub fn theme_from_light_flag(value: Option<u32>) -> (t: Theme)
    ensures
        t == (if value == Some(1u32) {
            Theme::Light
        } else {
            Theme::Dark
        }),
{
    match value {
        Some(v) => if v == 1 {
            Theme::Light
        } else {
            Theme::Dark
        },
        None => Theme::Dark,
    }
}

/// The light palette inverts the dark one: pill and text colors trade places.
pub proof fn lemma_light_inverts_dark()
    ensures
        palette_spec(Theme::Light).bg == palette_spec(Theme::Dark).text,
        palette_spec(Theme::Light).text == palette_spec(Theme::Dark).bg,
{
}

/// In both themes the text color differs from the pill color, and the border
/// from both.
pub proof fn lemma_palette_colors_distinct(theme: Theme)
    ensures
        palette_spec(theme).text != palette_spec(theme).bg,
        palette_spec(theme).border != palette_spec(theme).bg,
        palette_spec(theme).border != palette_spec(theme).text,
{
}

} // verus!
