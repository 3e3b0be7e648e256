//! Preview themes: how the rendered Markdown looks, independent of the
//! application's light/dark chrome. Colours are `0xRRGGBB` values.

use vstd::prelude::*;

verus! {

#[derive(Clone, Copy, Debug, PartialEq, Eq, Structural)]
pub enum PreviewTheme {
    /// Follow the application theme (light or dark with the system).
    System,
    Github,
    Newsprint,
    Night,
    Sepia,
    SolarizedLight,
    SolarizedDark,
}

/// Every theme, in menu order.
pub const ALL: [PreviewTheme; 7] = [
    PreviewTheme::System,
    PreviewTheme::Github,
    PreviewTheme::Newsprint,
    PreviewTheme::Night,
    PreviewTheme::Sepia,
    PreviewTheme::SolarizedLight,
    PreviewTheme::SolarizedDark,
];

/// The colours and type of one fixed theme.
#[derive(Clone, Copy, Debug, PartialEq, Eq, Structural)]
pub struct Palette {
    pub background: u32,
    pub foreground: u32,
    pub muted: u32,
    pub link: u32,
    pub code_background: u32,
    pub border: u32,
    pub serif: bool,
    pub dark: bool,
}

impl Default for PreviewTheme {
    fn default() -> (theme: PreviewTheme)
        ensures
            theme == PreviewTheme::System,
    {
        PreviewTheme::System
    }
}

/// The menu label of a theme.
pub open spec fn theme_label(theme: PreviewTheme) -> &'static str {
    match theme {
        PreviewTheme::System => "System",
        PreviewTheme::Github => "GitHub",
        PreviewTheme::Newsprint => "Newsprint",
        PreviewTheme::Night => "Night",
        PreviewTheme::Sepia => "Sepia",
        PreviewTheme::SolarizedLight => "Solarized Light",
        PreviewTheme::SolarizedDark => "Solarized Dark",
    }
}

pub open spec fn palette_of(
    background: u32,
    foreground: u32,
    muted: u32,
    link: u32,
    code_background: u32,
    border: u32,
    serif: bool,
    dark: bool,
) -> Palette {
    Palette { background, foreground, muted, link, code_background, border, serif, dark }
}

/// The fixed palette of each theme; the theme that follows the
/// application has none.
pub open spec fn theme_palette(theme: PreviewTheme) -> Option<Palette> {
    match theme {
        PreviewTheme::System => None,
        PreviewTheme::Github => Some(
            palette_of(0xffffff, 0x1f2328, 0x59636e, 0x0969da, 0xf6f8fa, 0xd1d9e0, false, false),
        ),
        PreviewTheme::Newsprint => Some(
            palette_of(0xf3f2ee, 0x1f0909, 0x6a6560, 0x8b3a10, 0xe7e6e1, 0xc9c8c3, true, false),
        ),
        PreviewTheme::Night => Some(
            palette_of(0x363b40, 0xd9d9d9, 0x9aa0a6, 0x7fb2f0, 0x2b2f33, 0x4b5259, false, true),
        ),
        PreviewTheme::Sepia => Some(
            palette_of(0xf4ecd8, 0x5b4636, 0x8b7355, 0x9c5a1e, 0xeadfc3, 0xd9c9a3, true, false),
        ),
        PreviewTheme::SolarizedLight => Some(
            palette_of(0xfdf6e3, 0x586e75, 0x93a1a1, 0x268bd2, 0xeee8d5, 0xd6cfb8, false, false),
        ),
        PreviewTheme::SolarizedDark => Some(
            palette_of(0x002b36, 0x93a1a1, 0x657b83, 0x268bd2, 0x073642, 0x0f4a5a, false, true),
        ),
    }
}

/// The red, green and blue channels of a `0xRRGGBB` colour.
pub open spec fn red(color: u32) -> int {
    (color / 0x10000) as int % 0x100
}

pub open spec fn green(color: u32) -> int {
    (color / 0x100) as int % 0x100
}

pub open spec fn blue(color: u32) -> int {
    color as int % 0x100
}

pub open spec fn max3(a: int, b: int, c: int) -> int {
    if a >= b && a >= c {
        a
    } else if b >= c {
        b
    } else {
        c
    }
}

pub open spec fn min3(a: int, b: int, c: int) -> int {
    if a <= b && a <= c {
        a
    } else if b <= c {
        b
    } else {
        c
    }
}

/// The HSL lightness of a colour, in units of 1/510: lightness is
/// `(max + min) / 2` of the channels scaled to `0..=1`, so a lightness
/// `l` is `l * 510` here and one half is 255.
pub open spec fn lightness510(color: u32) -> int {
    max3(red(color), green(color), blue(color)) + min3(red(color), green(color), blue(color))
}

impl PreviewTheme {
    pub fn label(self) -> (label: &'static str)
        ensures
            label == theme_label(self),
    {
        match self {
            PreviewTheme::System => "System",
            PreviewTheme::Github => "GitHub",
            PreviewTheme::Newsprint => "Newsprint",
            PreviewTheme::Night => "Night",
            PreviewTheme::Sepia => "Sepia",
            PreviewTheme::SolarizedLight => "Solarized Light",
            PreviewTheme::SolarizedDark => "Solarized Dark",
        }
    }

    /// The fixed palette, or `None` for the theme that follows the app.
    pub fn palette(self) -> (palette: Option<Palette>)
        ensures
            palette == theme_palette(self),
            palette is None <==> self == PreviewTheme::System,
    {
        match self {
            PreviewTheme::System => None,
            PreviewTheme::Github => Some(
                Palette {
                    background: 0xffffff,
                    foreground: 0x1f2328,
                    muted: 0x59636e,
                    link: 0x0969da,
                    code_background: 0xf6f8fa,
                    border: 0xd1d9e0,
                    serif: false,
                    dark: false,
                },
            ),
            PreviewTheme::Newsprint => Some(
                Palette {
                    background: 0xf3f2ee,
                    foreground: 0x1f0909,
                    muted: 0x6a6560,
                    link: 0x8b3a10,
                    code_background: 0xe7e6e1,
                    border: 0xc9c8c3,
                    serif: true,
                    dark: false,
                },
            ),
            PreviewTheme::Night => Some(
                Palette {
                    background: 0x363b40,
                    foreground: 0xd9d9d9,
                    muted: 0x9aa0a6,
                    link: 0x7fb2f0,
                    code_background: 0x2b2f33,
                    border: 0x4b5259,
                    serif: false,
                    dark: true,
                },
            ),
            PreviewTheme::Sepia => Some(
                Palette {
                    background: 0xf4ecd8,
                    foreground: 0x5b4636,
                    muted: 0x8b7355,
                    link: 0x9c5a1e,
                    code_background: 0xeadfc3,
                    border: 0xd9c9a3,
                    serif: true,
                    dark: false,
                },
            ),
            PreviewTheme::SolarizedLight => Some(
                Palette {
                    background: 0xfdf6e3,
                    foreground: 0x586e75,
                    muted: 0x93a1a1,
                    link: 0x268bd2,
                    code_background: 0xeee8d5,
                    border: 0xd6cfb8,
                    serif: false,
                    dark: false,
                },
            ),
            PreviewTheme::SolarizedDark => Some(
                Palette {
                    background: 0x002b36,
                    foreground: 0x93a1a1,
                    muted: 0x657b83,
                    link: 0x268bd2,
                    code_background: 0x073642,
                    border: 0x0f4a5a,
                    serif: false,
                    dark: true,
                },
            ),
        }
    }
}

impl Palette {
    /// The body font family, or `None` to keep the application's. Serif
    /// themes name the serif font that the platform ships: "DejaVu Serif"
    /// on Linux, "Georgia" elsewhere.
    pub fn font_family(&self, on_linux: bool) -> (family: Option<&'static str>)
        ensures
            !self.serif ==> family is None,
            self.serif && on_linux ==> family == Some("DejaVu Serif"),
            self.serif && !on_linux ==> family == Some("Georgia"),
    {
        if !self.serif {
            return None;
        }
        Some(
            if on_linux {
                "DejaVu Serif"
            } else {
                "Georgia"
            },
        )
    }
}

/// Only the theme that follows the application lacks a palette.
pub proof fn lemma_only_system_lacks_a_palette(theme: PreviewTheme)
    ensures
        theme_palette(theme) is None <==> theme == PreviewTheme::System,
{
}

/// A palette is marked dark exactly when its background is darker than
/// half lightness, and its text differs from its background by more than
/// 0.4 in lightness (204 in units of 1/510).
pub proof fn lemma_dark_palettes_have_dark_backgrounds(theme: PreviewTheme)
    ensures
        theme_palette(theme) matches Some(p) ==> {
            &&& p.dark <==> lightness510(p.background) < 255
            &&& lightness510(p.foreground) - lightness510(p.background) > 204
                || lightness510(p.background) - lightness510(p.foreground) > 204
        },
{
}

} // verus!
