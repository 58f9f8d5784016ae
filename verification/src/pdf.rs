//! PDF object syntax: number formatting, the object/xref writer and
//! content-stream operators.

pub mod num;
pub mod writer;
pub mod content;
pub mod doc;
pub mod struct_tree;
pub mod font_objects;
pub mod pages;
pub mod outline;
pub mod document;
