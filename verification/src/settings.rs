//! User settings, kept in a small TOML file under the platform config dir.
//! Reading and writing the file happen outside this library; here is what
//! the settings are once read.

use std::path::PathBuf;
use vstd::prelude::*;

use crate::theme::PreviewTheme;

verus! {

/// Overrides the config directory (mostly for tests and portable setups).
pub const DIR_ENV: &'static str = "SMEP_CONFIG_DIR";

#[derive(Clone, Debug, PartialEq)]
pub struct Settings {
    pub preview_theme: PreviewTheme,
    /// Where these settings live; `None` means they are never written.
    pub path: Option<PathBuf>,
}

impl Default for Settings {
    fn default() -> (settings: Settings)
        ensures
            settings.preview_theme == PreviewTheme::System,
            settings.path is None,
    {
        Settings { preview_theme: PreviewTheme::System, path: None }
    }
}

impl Settings {
    /// The settings kept at `path`, given what its file held: `stored` is
    /// the settings the file parsed into, or `None` where the file is
    /// missing, unreadable or malformed, which gives the defaults. Either
    /// way the path is kept.
    pub fn load_from(path: PathBuf, stored: Option<Settings>) -> (settings: Settings)
        ensures
            settings.preview_theme == (match stored {
                Some(s) => s.preview_theme,
                None => PreviewTheme::System,
            }),
            settings.path == Some(path),
    {
        let mut settings = match stored {
            Some(s) => s,
            None => Settings::default(),
        };
        settings.path = Some(path);
        settings
    }

    /// The settings at the default path, given what its file held; with no
    /// default path, the defaults, never written.
    pub fn load(path: Option<PathBuf>, stored: Option<Settings>) -> (settings: Settings)
        ensures
            path is None ==> settings.preview_theme == PreviewTheme::System && settings.path is None,
            path is Some ==> settings.preview_theme == (match stored {
                Some(s) => s.preview_theme,
                None => PreviewTheme::System,
            }) && settings.path == path,
    {
        match path {
            Some(path) => Settings::load_from(path, stored),
            None => Settings::default(),
        }
    }
}

} // verus!
