//! The layout engine's integer and text rules: structure roles, layout
//! warnings, table-of-contents anchors, list markers and hyphenation.

pub mod render_node;
pub mod warnings;
pub mod toc;
pub mod list;
pub mod text;
pub mod hyphenate;
pub mod table;
pub mod leaf;
