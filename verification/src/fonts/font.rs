//! Font data: loading and validating a static TrueType font.

use vstd::prelude::*;

verus! {

#[derive(Clone, Copy, PartialEq, Eq, Debug)]
pub enum FontError {
    /// Not a static TrueType `glyf` font (variable fonts and CFF/OTF are
    /// rejected).
    UnsupportedFont,
    /// Malformed font data that could not be parsed at all.
    ParseError,
    /// Structurally inconsistent font tables discovered while subsetting
    /// (e.g. a `loca`/`glyf`/`maxp` mismatch).
    MalformedFont,
}

/// Whether `ttf_parser::Face::parse(font, 0)` accepts `font`.
pub uninterp spec fn ttf_parses(font: Seq<u8>) -> bool;

/// Whether the face `ttf_parser` parses from `font` has a `glyf` table.
pub uninterp spec fn ttf_has_glyf(font: Seq<u8>) -> bool;

/// Whether the face `ttf_parser` parses from `font` is variable.
pub uninterp spec fn ttf_is_variable(font: Seq<u8>) -> bool;

/// `ttf_parser::Face::parse(bytes, 0)`: whether it succeeds. Nothing about
/// which inputs it accepts is stated beyond naming the answer.
#[verifier::external_body]
fn face_parses(bytes: &[u8]) -> (r: bool)
    ensures
        r == ttf_parses(bytes@),
{
    ttf_parser::Face::parse(bytes, 0).is_ok()
}

/// `Face::tables().glyf.is_some()` on the face parsed from `bytes` (`false`
/// when parsing fails).
#[verifier::external_body]
fn face_has_glyf(bytes: &[u8]) -> (r: bool)
    ensures
        r == ttf_has_glyf(bytes@),
{
    match ttf_parser::Face::parse(bytes, 0) {
        Ok(face) => face.tables().glyf.is_some(),
        Err(_) => false,
    }
}

/// `Face::is_variable()` on the face parsed from `bytes` (`false` when
/// parsing fails).
#[verifier::external_body]
fn face_is_variable(bytes: &[u8]) -> (r: bool)
    ensures
        r == ttf_is_variable(bytes@),
{
    match ttf_parser::Face::parse(bytes, 0) {
        Ok(face) => face.is_variable(),
        Err(_) => false,
    }
}

/// The glyph `ttf_parser`'s `Face::glyph_index` maps `c` to in the face
/// parsed from `font` (the first Unicode `cmap` subtable that has it).
pub uninterp spec fn ttf_glyph_index(font: Seq<u8>, c: char) -> Option<u16>;

/// `Face::glyph_hor_advance` for glyph `gid` of the face parsed from
/// `font`, in font units.
pub uninterp spec fn ttf_hor_advance(font: Seq<u8>, gid: u16) -> Option<u16>;

/// `Face::units_per_em` of the face parsed from `font`.
pub uninterp spec fn ttf_units_per_em(font: Seq<u8>) -> u16;

/// `Face::glyph_index(c)` on the face parsed from `bytes` (`None` when
/// parsing fails).
#[verifier::external_body]
fn face_glyph_index(bytes: &[u8], c: char) -> (r: Option<u16>)
    ensures
        ttf_parses(bytes@) ==> r == ttf_glyph_index(bytes@, c),
{
    match ttf_parser::Face::parse(bytes, 0) {
        Ok(face) => face.glyph_index(c).map(|g| g.0),
        Err(_) => None,
    }
}

/// `Face::glyph_hor_advance(gid)` on the face parsed from `bytes` (`None`
/// when parsing fails).
#[verifier::external_body]
fn face_hor_advance(bytes: &[u8], gid: u16) -> (r: Option<u16>)
    ensures
        ttf_parses(bytes@) ==> r == ttf_hor_advance(bytes@, gid),
{
    match ttf_parser::Face::parse(bytes, 0) {
        Ok(face) => face.glyph_hor_advance(ttf_parser::GlyphId(gid)),
        Err(_) => None,
    }
}

/// `Face::units_per_em()` on the face parsed from `bytes`, which
/// `ttf_parser` documents to lie in `16..=16384`.
#[verifier::external_body]
fn face_units_per_em(bytes: &[u8]) -> (r: u16)
    requires
        ttf_parses(bytes@),
    ensures
        r == ttf_units_per_em(bytes@),
        16 <= r <= 16384,
{
    match ttf_parser::Face::parse(bytes, 0) {
        Ok(face) => face.units_per_em(),
        Err(_) => 16,
    }
}

/// `Face::ascender` of the face parsed from `font`, in font units.
pub uninterp spec fn ttf_ascender(font: Seq<u8>) -> i16;

/// `Face::descender` of the face parsed from `font`, in font units.
pub uninterp spec fn ttf_descender(font: Seq<u8>) -> i16;

/// `Face::capital_height` of the face parsed from `font` (`None` without
/// an `OS/2` table that records it).
pub uninterp spec fn ttf_cap_height(font: Seq<u8>) -> Option<i16>;

/// `Face::global_bounding_box` of the face parsed from `font`, as
/// `(x_min, y_min, x_max, y_max)` in font units.
pub uninterp spec fn ttf_bbox(font: Seq<u8>) -> (i16, i16, i16, i16);

/// `Face::is_italic` of the face parsed from `font`.
pub uninterp spec fn ttf_is_italic(font: Seq<u8>) -> bool;

/// `Face::is_bold` of the face parsed from `font`.
pub uninterp spec fn ttf_is_bold(font: Seq<u8>) -> bool;

/// `Face::ascender()` on the face parsed from `bytes`; only named.
#[verifier::external_body]
fn face_ascender(bytes: &[u8]) -> (r: i16)
    requires
        ttf_parses(bytes@),
    ensures
        r == ttf_ascender(bytes@),
{
    match ttf_parser::Face::parse(bytes, 0) {
        Ok(face) => face.ascender(),
        Err(_) => 0,
    }
}

/// `Face::descender()` on the face parsed from `bytes`; only named.
#[verifier::external_body]
fn face_descender(bytes: &[u8]) -> (r: i16)
    requires
        ttf_parses(bytes@),
    ensures
        r == ttf_descender(bytes@),
{
    match ttf_parser::Face::parse(bytes, 0) {
        Ok(face) => face.descender(),
        Err(_) => 0,
    }
}

/// `Face::capital_height()` on the face parsed from `bytes`; only named.
#[verifier::external_body]
fn face_cap_height(bytes: &[u8]) -> (r: Option<i16>)
    requires
        ttf_parses(bytes@),
    ensures
        r == ttf_cap_height(bytes@),
{
    match ttf_parser::Face::parse(bytes, 0) {
        Ok(face) => face.capital_height(),
        Err(_) => None,
    }
}

/// `Face::global_bounding_box()` on the face parsed from `bytes`, its
/// `Rect` taken apart field by field; only named.
#[verifier::external_body]
fn face_bbox(bytes: &[u8]) -> (r: (i16, i16, i16, i16))
    requires
        ttf_parses(bytes@),
    ensures
        r == ttf_bbox(bytes@),
{
    match ttf_parser::Face::parse(bytes, 0) {
        Ok(face) => {
            let b = face.global_bounding_box();
            (b.x_min, b.y_min, b.x_max, b.y_max)
        },
        Err(_) => (0, 0, 0, 0),
    }
}

/// `Face::is_italic()` on the face parsed from `bytes`; only named.
#[verifier::external_body]
fn face_is_italic(bytes: &[u8]) -> (r: bool)
    requires
        ttf_parses(bytes@),
    ensures
        r == ttf_is_italic(bytes@),
{
    match ttf_parser::Face::parse(bytes, 0) {
        Ok(face) => face.is_italic(),
        Err(_) => false,
    }
}

/// `Face::is_bold()` on the face parsed from `bytes`; only named.
#[verifier::external_body]
fn face_is_bold(bytes: &[u8]) -> (r: bool)
    requires
        ttf_parses(bytes@),
    ensures
        r == ttf_is_bold(bytes@),
{
    match ttf_parser::Face::parse(bytes, 0) {
        Ok(face) => face.is_bold(),
        Err(_) => false,
    }
}

/// The vertical metrics, bounding box and style flags of a font, in font
/// units as the font records them.
#[derive(Clone, Copy, PartialEq, Eq, Debug)]
pub struct VerticalMetrics {
    pub ascent: i16,
    pub descent: i16,
    /// The capital height, or the ascent where the font records none.
    pub cap_height: i16,
    /// `(x_min, y_min, x_max, y_max)`.
    pub bbox: (i16, i16, i16, i16),
    pub is_italic: bool,
    pub is_bold: bool,
}

/// What `FontData::load` decides for `font`.
pub open spec fn load_result(font: Seq<u8>) -> Result<(), FontError> {
    if !ttf_parses(font) {
        Err(FontError::ParseError)
    } else if !ttf_has_glyf(font) || ttf_is_variable(font) {
        Err(FontError::UnsupportedFont)
    } else {
        Ok(())
    }
}

impl FontError {
    /// The error's message.
    pub fn message(&self) -> (s: &'static str)
        ensures
            s@ == match *self {
                FontError::UnsupportedFont => "unsupported font (need static TrueType glyf)"@,
                FontError::ParseError => "could not parse font data"@,
                FontError::MalformedFont => "malformed or inconsistent font tables"@,
            },
    {
        match self {
            FontError::UnsupportedFont => "unsupported font (need static TrueType glyf)",
            FontError::ParseError => "could not parse font data",
            FontError::MalformedFont => "malformed or inconsistent font tables",
        }
    }
}

/// Owns the bytes of a static TrueType font with `glyf` outlines.
#[derive(Debug)]
pub struct FontData {
    bytes: Vec<u8>,
}

impl Clone for FontData {
    fn clone(&self) -> (r: Self)
        ensures
            r@ == self@,
    {
        proof {
            use_type_invariant(self);
        }
        FontData { bytes: self.bytes.clone() }
    }
}

impl View for FontData {
    type V = Seq<u8>;

    open spec fn view(&self) -> Seq<u8> {
        self.spec_bytes()
    }
}

impl FontData {
    pub closed spec fn spec_bytes(&self) -> Seq<u8> {
        self.bytes@
    }

    #[verifier::type_invariant]
    closed spec fn accepted(&self) -> bool {
        load_result(self.bytes@) is Ok
    }

    /// Accepts only static TrueType fonts with `glyf` outlines: unparsable
    /// bytes are a `ParseError`, a font without `glyf` or a variable font is
    /// `UnsupportedFont`.
    pub fn load(bytes: Vec<u8>) -> (r: Result<FontData, FontError>)
        ensures
            match load_result(bytes@) {
                Ok(()) => r matches Ok(f) && f@ == bytes@,
                Err(e) => r == Err::<FontData, FontError>(e),
            },
    {
        if !face_parses(bytes.as_slice()) {
            return Err(FontError::ParseError);
        }
        if !face_has_glyf(bytes.as_slice()) {
            return Err(FontError::UnsupportedFont);
        }
        if face_is_variable(bytes.as_slice()) {
            return Err(FontError::UnsupportedFont);
        }
        Ok(FontData { bytes })
    }

    /// The glyph a character maps to, or `None` when the font has none
    /// for it.
    pub fn glyph_id(&self, ch: char) -> (r: Option<u16>)
        ensures
            r == ttf_glyph_index(self@, ch),
    {
        proof {
            use_type_invariant(self);
        }
        face_glyph_index(self.bytes.as_slice(), ch)
    }

    /// A character's advance width in font units, or `None` when the font
    /// has no glyph (or no advance) for it.
    pub fn advance_units(&self, ch: char) -> (r: Option<u16>)
        ensures
            r == match ttf_glyph_index(self@, ch) {
                Some(g) => ttf_hor_advance(self@, g),
                None => None,
            },
    {
        proof {
            use_type_invariant(self);
        }
        match face_glyph_index(self.bytes.as_slice(), ch) {
            Some(g) => face_hor_advance(self.bytes.as_slice(), g),
            None => None,
        }
    }

    /// The font's units per em.
    pub fn units_per_em(&self) -> (r: u16)
        ensures
            r == ttf_units_per_em(self@),
            16 <= r <= 16384,
    {
        proof {
            use_type_invariant(self);
        }
        face_units_per_em(self.bytes.as_slice())
    }

    /// The font's ascent, descent, capital height (the ascent where the
    /// font records none), bounding box and italic and bold flags.
    pub fn vertical_metrics(&self) -> (m: VerticalMetrics)
        ensures
            m.ascent == ttf_ascender(self@),
            m.descent == ttf_descender(self@),
            m.cap_height == match ttf_cap_height(self@) {
                Some(c) => c,
                None => ttf_ascender(self@),
            },
            m.bbox == ttf_bbox(self@),
            m.is_italic == ttf_is_italic(self@),
            m.is_bold == ttf_is_bold(self@),
    {
        proof {
            use_type_invariant(self);
        }
        let b = self.bytes.as_slice();
        let ascent = face_ascender(b);
        let cap_height = match face_cap_height(b) {
            Some(c) => c,
            None => ascent,
        };
        VerticalMetrics {
            ascent,
            descent: face_descender(b),
            cap_height,
            bbox: face_bbox(b),
            is_italic: face_is_italic(b),
            is_bold: face_is_bold(b),
        }
    }

    /// The font's bytes.
    pub fn bytes(&self) -> (b: &[u8])
        ensures
            b@ == self@,
            load_result(b@) is Ok,
    {
        proof {
            use_type_invariant(self);
        }
        self.bytes.as_slice()
    }
}

} // verus!
