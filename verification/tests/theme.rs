use smep::theme::{PreviewTheme, ALL};

fn lightness(color: u32) -> f32 {
    let r = ((color >> 16) & 0xff) as f32 / 255.0;
    let g = ((color >> 8) & 0xff) as f32 / 255.0;
    let b = (color & 0xff) as f32 / 255.0;
    (r.max(g).max(b) + r.min(g).min(b)) / 2.0
}

#[test]
fn only_system_lacks_a_palette() {
    for theme in ALL {
        assert_eq!(
            theme.palette().is_none(),
            theme == PreviewTheme::System,
            "{theme:?}"
        );
    }
}

#[test]
fn dark_palettes_have_dark_backgrounds() {
    for theme in ALL {
        let Some(palette) = theme.palette() else {
            continue;
        };
        assert_eq!(lightness(palette.background) < 0.5, palette.dark, "{theme:?}");
        assert!(
            (lightness(palette.foreground) - lightness(palette.background)).abs() > 0.4,
            "{theme:?} text must contrast with its background"
        );
    }
}

#[test]
fn labels_and_the_default_theme() {
    assert_eq!(PreviewTheme::default(), PreviewTheme::System);
    assert_eq!(PreviewTheme::Github.label(), "GitHub");
    assert_eq!(PreviewTheme::SolarizedDark.label(), "Solarized Dark");
    assert_eq!(ALL.len(), 7);
}

#[test]
fn serif_themes_name_a_serif_font() {
    let newsprint = PreviewTheme::Newsprint.palette().unwrap();
    assert_eq!(newsprint.font_family(true), Some("DejaVu Serif"));
    assert_eq!(newsprint.font_family(false), Some("Georgia"));
    let github = PreviewTheme::Github.palette().unwrap();
    assert_eq!(github.font_family(true), None);
    assert_eq!(github.background, 0xffffff);
    assert_eq!(PreviewTheme::Night.palette().unwrap().background, 0x363b40);
}
