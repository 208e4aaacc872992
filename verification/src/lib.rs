//! Ebook conversion core: MOBI 6 file assembly, Markdown import and export
//! helpers, YAML front matter framing, and image format detection.

pub mod export;
pub mod image;
pub mod import;
pub mod model;
pub mod text;
pub mod mobi;
pub mod util;
