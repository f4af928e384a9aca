//! Cleanup of scanned page images: background detection, grouping of ink
//! pixels into connected graphemes, removal of specks, and rendering.

pub mod raster;
pub mod analyzer;
pub mod grapheme;
pub mod cleaner;
pub mod laws;

pub use raster::Raster;
pub use analyzer::{AnalyzeError, ImageAnalyzer};
pub use grapheme::{AnalyzedImage, Grapheme};
pub use cleaner::ImageCleaner;
