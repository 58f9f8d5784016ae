//! Font data and TrueType subsetting.

pub mod font;
pub mod sfnt;
pub mod glyf;
pub mod cmap;
pub mod subset;
pub mod cmap_lookup;
