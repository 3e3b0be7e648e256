use std::path::PathBuf;

use smep::settings::Settings;
use smep::theme::PreviewTheme;

fn temp_path(tag: &str) -> PathBuf {
    PathBuf::from(format!("/tmp/smep-settings-{tag}")).join("settings.toml")
}

#[test]
fn a_missing_file_gives_defaults_with_the_path_kept() {
    let path = temp_path("missing");
    let settings = Settings::load_from(path.clone(), None);
    assert_eq!(settings.preview_theme, PreviewTheme::System);
    assert_eq!(settings.path, Some(path));
}

#[test]
fn what_the_file_held_is_kept_with_its_path() {
    let path = temp_path("stored");
    let stored = Settings {
        preview_theme: PreviewTheme::Night,
        path: None,
    };
    let settings = Settings::load_from(path.clone(), Some(stored));
    assert_eq!(settings.preview_theme, PreviewTheme::Night);
    assert_eq!(settings.path, Some(path));
}

#[test]
fn without_a_default_path_the_settings_are_the_defaults() {
    let stored = Settings {
        preview_theme: PreviewTheme::Sepia,
        path: None,
    };
    let settings = Settings::load(None, Some(stored));
    assert_eq!(settings, Settings::default());
    let path = temp_path("load");
    let settings = Settings::load(Some(path.clone()), None);
    assert_eq!(settings.preview_theme, PreviewTheme::System);
    assert_eq!(settings.path, Some(path));
}
