//! smep: the logic of a Markdown editor and previewer, verified.

pub mod highlight;
pub mod insert;
pub mod io;
pub mod mdast;
pub mod rendered;
pub mod runs;
pub mod settings;
pub mod text;
pub mod theme;
