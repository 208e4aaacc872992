//! Importers: Markdown documents and their YAML front matter.

pub mod front_matter;
pub mod markdown;
