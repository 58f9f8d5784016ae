//! Inline text runs of the document model.

use vstd::prelude::*;
use crate::style::TextStyle;

verus! {

/// A run of text in one style, a piece of a rich-text paragraph.
#[derive(Clone, Debug)]
pub struct Span {
    pub text: String,
    pub style: TextStyle,
}

impl Span {
    pub fn new(text: String, style: TextStyle) -> (s: Self)
        ensures
            s.text@ == text@,
            s.style == style,
    {
        Span { text, style }
    }
}

/// What wrapped text measures: its widest line and its total height, in
/// millionths of a point, and its number of lines.
#[derive(Clone, Copy, PartialEq, Eq, Debug)]
pub struct TextMeasurement {
    pub width: u128,
    pub height: u128,
    pub lines: usize,
}

} // verus!
