//! Document-level plain data: orientation, metadata, PDF dates and the
//! page context handed to headers and footers.

use vstd::prelude::*;
use crate::text::{dec_padded, push_dec_padded, string_from_chars};

verus! {

#[derive(Clone, Copy, PartialEq, Eq, Debug)]
pub enum Orientation {
    Portrait,
    Landscape,
}

impl Default for Orientation {
    fn default() -> (o: Self)
        ensures
            o == Orientation::Portrait,
    {
        Orientation::Portrait
    }
}

/// A UTC timestamp for `/CreationDate` and `/ModDate`. Always supplied by
/// the caller, never read from a clock, so that the same document gives
/// the same bytes.
#[derive(Clone, Copy, PartialEq, Eq, Debug)]
pub struct PdfDate {
    pub year: u16,
    pub month: u8,
    pub day: u8,
    pub hour: u8,
    pub minute: u8,
    pub second: u8,
}

/// `D:YYYYMMDDHHmmSSZ`, the PDF date format (UTC only).
pub open spec fn pdf_date_chars(d: PdfDate) -> Seq<char> {
    seq!['D', ':'] + dec_padded(d.year as nat, 4) + dec_padded(d.month as nat, 2) + dec_padded(d.day as nat, 2)
        + dec_padded(d.hour as nat, 2) + dec_padded(d.minute as nat, 2) + dec_padded(d.second as nat, 2) + seq!['Z']
}

/// `YYYY-MM-DDTHH:mm:SSZ`, ISO 8601 as XMP wants it.
pub open spec fn xmp_date_chars(d: PdfDate) -> Seq<char> {
    dec_padded(d.year as nat, 4) + seq!['-'] + dec_padded(d.month as nat, 2) + seq!['-'] + dec_padded(d.day as nat, 2)
        + seq!['T'] + dec_padded(d.hour as nat, 2) + seq![':'] + dec_padded(d.minute as nat, 2) + seq![':']
        + dec_padded(d.second as nat, 2) + seq!['Z']
}

impl PdfDate {
    pub fn new(year: u16, month: u8, day: u8, hour: u8, minute: u8, second: u8) -> (d: Self)
        ensures
            d == (PdfDate { year, month, day, hour, minute, second }),
    {
        PdfDate { year, month, day, hour, minute, second }
    }

    /// `D:YYYYMMDDHHmmSSZ`, the PDF date string format, UTC only.
    pub fn to_pdf_string(self) -> (s: String)
        ensures
            s@ == pdf_date_chars(self),
    {
        let mut out: Vec<char> = Vec::new();
        out.push('D');
        out.push(':');
        push_dec_padded(&mut out, self.year as u64, 4);
        push_dec_padded(&mut out, self.month as u64, 2);
        push_dec_padded(&mut out, self.day as u64, 2);
        push_dec_padded(&mut out, self.hour as u64, 2);
        push_dec_padded(&mut out, self.minute as u64, 2);
        push_dec_padded(&mut out, self.second as u64, 2);
        out.push('Z');
        assert(out@ =~= pdf_date_chars(self));
        string_from_chars(out)
    }

    /// ISO 8601 for XMP: the same fields as `to_pdf_string`, reordered and
    /// punctuated.
    pub fn to_xmp_string(self) -> (s: String)
        ensures
            s@ == xmp_date_chars(self),
    {
        let mut out: Vec<char> = Vec::new();
        push_dec_padded(&mut out, self.year as u64, 4);
        out.push('-');
        push_dec_padded(&mut out, self.month as u64, 2);
        out.push('-');
        push_dec_padded(&mut out, self.day as u64, 2);
        out.push('T');
        push_dec_padded(&mut out, self.hour as u64, 2);
        out.push(':');
        push_dec_padded(&mut out, self.minute as u64, 2);
        out.push(':');
        push_dec_padded(&mut out, self.second as u64, 2);
        out.push('Z');
        assert(out@ =~= xmp_date_chars(self));
        string_from_chars(out)
    }
}

/// Document metadata; every field is optional.
#[derive(Clone, Debug)]
pub struct DocumentMetadata {
    pub title: Option<String>,
    pub author: Option<String>,
    pub subject: Option<String>,
    pub keywords: Option<String>,
    pub creator: Option<String>,
    pub creation_date: Option<PdfDate>,
    pub mod_date: Option<PdfDate>,
}

impl Default for DocumentMetadata {
    fn default() -> (m: Self)
        ensures
            m.title is None && m.author is None && m.subject is None && m.keywords is None && m.creator is None
                && m.creation_date is None && m.mod_date is None,
    {
        DocumentMetadata {
            title: None,
            author: None,
            subject: None,
            keywords: None,
            creator: None,
            creation_date: None,
            mod_date: None,
        }
    }
}

/// What headers and footers are evaluated with on every page.
#[derive(Clone, Copy, Debug)]
pub struct PageContext {
    pub page: usize,
    pub total_pages: usize,
}

/// The first page (1-based) a header or footer shows on by default.
pub fn default_visible_from() -> (p: usize)
    ensures
        p == 1,
{
    1
}

} // verus!
