//! Shared image processing utilities.
//!
//! Format detection by magic bytes and the configuration that exporters use
//! when they downscale or convert images.

pub mod convert;

pub use convert::{ImageConfig, ImageFormat, detect_format, is_supported_format};
