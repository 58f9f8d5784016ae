//! A verified core for generating business-document PDFs: byte-level
//! formatting, image header validation, TrueType subsetting, PDF object
//! writing and the small text rules the layout engine relies on.

pub mod text;
pub mod bytes;
pub mod currency;
pub mod fonts;
pub mod pdf;
pub mod image;
pub mod document;
pub mod style;
pub mod element;
pub mod theme;
pub mod layout;
pub mod template;
pub mod snapshot;
