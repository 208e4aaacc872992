//! MOBI-specific building blocks: PalmDoc compression and HTML filtering.

pub mod html_filter;
pub mod palmdoc;
