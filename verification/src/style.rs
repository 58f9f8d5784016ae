//! Flat style properties shared across elements.

use vstd::prelude::*;

verus! {

/// Opaque handle for a font: the document model only ever sees this key,
/// never font bytes.
#[derive(Clone, Copy, PartialEq, Eq, Hash, PartialOrd, Ord, Debug)]
pub struct FontKey(pub &'static str);

impl FontKey {
    /// The built-in regular sans face.
    pub fn sans_regular() -> (k: Self)
        ensures
            k.0@ == "sans-regular"@,
    {
        FontKey("sans-regular")
    }

    /// The built-in bold sans face.
    pub fn sans_bold() -> (k: Self)
        ensures
            k.0@ == "sans-bold"@,
    {
        FontKey("sans-bold")
    }

    /// The built-in italic sans face.
    pub fn sans_italic() -> (k: Self)
        ensures
            k.0@ == "sans-italic"@,
    {
        FontKey("sans-italic")
    }

    /// The built-in bold italic sans face.
    pub fn sans_bold_italic() -> (k: Self)
        ensures
            k.0@ == "sans-bold-italic"@,
    {
        FontKey("sans-bold-italic")
    }

    /// A key for a caller-registered font.
    pub fn custom(name: &'static str) -> (k: Self)
        ensures
            k.0 == name,
    {
        FontKey(name)
    }
}

#[derive(Clone, Copy, PartialEq, Eq, Debug)]
pub enum Align {
    Start,
    Center,
    End,
    /// Text only: word gaps stretch so that every line but the last of a
    /// paragraph is flush with both edges. Containers treat it as `Start`.
    Justify,
}

impl Default for Align {
    fn default() -> (a: Self)
        ensures
            a == Align::Start,
    {
        Align::Start
    }
}

/// Overflow policy for fixed-size elements.
#[derive(Clone, Copy, PartialEq, Eq, Debug)]
pub enum Overflow {
    /// Clip hard at the element's box (the default).
    Clip,
    /// Single-line text only: truncate with a trailing ellipsis.
    Ellipsis,
}

impl Default for Overflow {
    fn default() -> (o: Self)
        ensures
            o == Overflow::Clip,
    {
        Overflow::Clip
    }
}

/// An RGB color, one byte per channel.
#[derive(Clone, Copy, PartialEq, Eq, Debug)]
pub struct Color(pub u8, pub u8, pub u8);

impl Color {
    /// Black.
    pub fn black() -> (c: Self)
        ensures
            c == Color(0, 0, 0),
    {
        Color(0, 0, 0)
    }

    /// White.
    pub fn white() -> (c: Self)
        ensures
            c == Color(255, 255, 255),
    {
        Color(255, 255, 255)
    }

    pub fn rgb(r: u8, g: u8, b: u8) -> (c: Self)
        ensures
            c == Color(r, g, b),
    {
        Color(r, g, b)
    }
}

impl Default for Color {
    fn default() -> (c: Self)
        ensures
            c == Color(0, 0, 0),
    {
        Color(0, 0, 0)
    }
}

/// How text is drawn. `size` is in thousandths of a point; `line_height`
/// is a multiple of the size, in thousandths (1200 is 1.2).
#[derive(Clone, Copy, PartialEq, Eq, Debug)]
pub struct TextStyle {
    pub font: FontKey,
    pub size: u32,
    pub color: Color,
    pub align: Align,
    pub line_height: u32,
}

impl Default for TextStyle {
    /// Regular sans, 12 pt, black, start-aligned, line height 1.2.
    fn default() -> (s: Self)
        ensures
            s.font.0@ == "sans-regular"@,
            s.size == 12_000,
            s.color == Color(0, 0, 0),
            s.align == Align::Start,
            s.line_height == 1200,
    {
        TextStyle {
            font: FontKey::sans_regular(),
            size: 12_000,
            color: Color::black(),
            align: Align::Start,
            line_height: 1200,
        }
    }
}

/// A language automatic hyphenation can insert break points for.
#[derive(Clone, Copy, Debug, PartialEq, Eq)]
pub enum HyphenationLanguage {
    EnglishUs,
    German,
}

/// A list item's marker.
#[derive(Clone, Debug)]
pub enum Marker {
    Bullet,
    /// An explicit number.
    Number(u32),
}

/// Named text-style roles a theme provides.
#[derive(Clone, Copy, PartialEq, Eq, Debug)]
pub enum ThemeRole {
    Body,
    Caption,
    Heading1,
    Heading2,
    Heading3,
    TableHeader,
    Muted,
}

/// What happens when a template placeholder does not resolve.
#[derive(Clone, Copy, Debug, PartialEq, Eq)]
pub enum MissingPlaceholder {
    /// Fail the whole render (the default).
    Error,
    /// Substitute an empty string (a whole-string placeholder becomes
    /// JSON `null`).
    Empty,
}

} // verus!
