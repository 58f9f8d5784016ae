//! Embedded fonts: each subset TrueType font is written as a `Type0` font
//! with a `CIDFontType2` descendant, a font descriptor, the embedded font
//! program and a `ToUnicode` map. Metrics are fixed-point thousandths.

use vstd::prelude::*;
use vstd::string::StringSliceAdditionalSpecFns;
use vstd::utf8::encode_utf8;
use crate::pdf::doc::{descriptor_flags, to_unicode_cmap, to_unicode_program};
use crate::pdf::num::milli_chars;
use crate::pdf::writer::{object_bytes, ref_chars, stream_bytes, zlib_compressed, PdfWriter, Ref, has_offset, keeps_offsets, offsets_cover};
use crate::text::{chars_of, dec_chars, push_all, push_dec, string_from_chars};

verus! {

/// A subset, embedded TrueType font. CIDs are the subset's own glyph IDs.
pub struct CidFont {
    pub base_font: String,
    /// The subset sfnt bytes.
    pub subset_bytes: Vec<u8>,
    /// Advance width per CID, in thousandths of a text-space unit.
    pub widths: Vec<i64>,
    pub ascent: i64,
    pub descent: i64,
    pub cap_height: i64,
    pub italic_angle: i64,
    /// FontBBox: (xmin, ymin, xmax, ymax).
    pub bbox: (i64, i64, i64, i64),
    pub is_italic: bool,
    pub is_bold: bool,
    /// `(CID, character)` pairs for the `ToUnicode` map.
    pub to_unicode: Vec<(u16, char)>,
}

/// Fixed-point numbers, space-separated.
pub open spec fn join_milli(ws: Seq<i64>) -> Seq<char>
    decreases ws.len(),
{
    if ws.len() == 0 {
        Seq::empty()
    } else if ws.len() == 1 {
        milli_chars(ws[0] as int)
    } else {
        join_milli(ws.drop_last()) + seq![' '] + milli_chars(ws.last() as int)
    }
}

/// The `Type0` font dictionary.
pub open spec fn type0_body(base: Seq<char>, cid: nat, to_unicode: nat) -> Seq<char> {
    "<< /Type /Font /Subtype /Type0 /BaseFont /"@ + base + " /Encoding /Identity-H /DescendantFonts ["@ + ref_chars(cid)
        + "] /ToUnicode "@ + ref_chars(to_unicode) + " >>"@
}

/// The `CIDFontType2` dictionary with the widths of CIDs `0..`.
pub open spec fn cid_body(base: Seq<char>, descriptor: nat, widths: Seq<i64>) -> Seq<char> {
    "<< /Type /Font /Subtype /CIDFontType2 /BaseFont /"@ + base
        + " /CIDSystemInfo << /Registry (Adobe) /Ordering (Identity) /Supplement 0 >> /FontDescriptor "@ + ref_chars(
        descriptor,
    ) + " /DW 1000 /W [0 ["@ + join_milli(widths) + "]] /CIDToGIDMap /Identity >>"@
}

/// The font descriptor dictionary.
pub open spec fn descriptor_body(f: CidFont, file: nat) -> Seq<char> {
    "<< /Type /FontDescriptor /FontName /"@ + f.base_font@ + " /Flags "@ + dec_chars(
        if f.is_italic { 96nat } else { 32nat },
    ) + " /FontBBox ["@ + milli_chars(f.bbox.0 as int) + " "@ + milli_chars(f.bbox.1 as int) + " "@ + milli_chars(
        f.bbox.2 as int,
    ) + " "@ + milli_chars(f.bbox.3 as int) + "] /ItalicAngle "@ + milli_chars(f.italic_angle as int) + " /Ascent "@
        + milli_chars(f.ascent as int) + " /Descent "@ + milli_chars(f.descent as int) + " /CapHeight "@ + milli_chars(
        f.cap_height as int,
    ) + " /StemV "@ + dec_chars(if f.is_bold { 120nat } else { 80nat }) + " /FontFile2 "@ + ref_chars(file) + " >>"@
}

/// The five objects of one font: `base..base + 3` for the `Type0` font,
/// its descendant, descriptor and program, `to_unicode` for its map.
#[verifier::opaque]
pub open spec fn font_objects(f: CidFont, base: nat, to_unicode: nat) -> Seq<u8> {
    object_bytes(base, encode_utf8(type0_body(f.base_font@, base + 1, to_unicode))) + object_bytes(
        base + 1,
        encode_utf8(cid_body(f.base_font@, base + 2, f.widths@)),
    ) + object_bytes(base + 2, encode_utf8(descriptor_body(f, base + 3))) + stream_bytes(
        base + 3,
        "/Filter /FlateDecode ".spec_bytes() + encode_utf8("/Length1 "@ + dec_chars(f.subset_bytes@.len())),
        zlib_compressed(f.subset_bytes@, 6),
    ) + stream_bytes(
        to_unicode,
        "/Filter /FlateDecode ".spec_bytes() + encode_utf8(Seq::empty()),
        zlib_compressed(to_unicode_program(f.to_unicode@), 6),
    )
}

/// The objects of the first `k` fonts when the font references start at
/// `first`: four per font up front, then one `ToUnicode` reference per
/// font.
pub open spec fn fonts_written(fonts: Seq<CidFont>, first: nat, k: nat) -> Seq<u8>
    decreases k,
{
    if k == 0 {
        Seq::empty()
    } else {
        fonts_written(fonts, first, (k - 1) as nat) + font_objects(
            fonts[k - 1],
            (first + 4 * (k - 1)) as nat,
            (first + 4 * fonts.len() + (k - 1)) as nat,
        )
    }
}

/// Resource entries `/<prefix>1 <ref> /<prefix>2 <ref> ...` for the
/// first `k` references.
pub open spec fn resource_entries(prefix: Seq<char>, refs: Seq<nat>, k: nat) -> Seq<char>
    decreases k,
{
    if k == 0 {
        Seq::empty()
    } else {
        let e = seq!['/'] + prefix + dec_chars(k) + seq![' '] + ref_chars(refs[k - 1]);
        if k == 1 {
            e
        } else {
            resource_entries(prefix, refs, (k - 1) as nat) + seq![' '] + e
        }
    }
}

/// The `Type0` font references: every fourth from `first`.
pub open spec fn type0_refs(first: nat, n: nat) -> Seq<nat> {
    Seq::new(n, |i: int| (first + 4 * i) as nat)
}

/// Appends fixed-point numbers, space-separated.
fn push_join_milli(out: &mut Vec<char>, ws: &Vec<i64>)
    ensures
        final(out)@ == old(out)@ + join_milli(ws@),
{
    let ghost start = out@;
    let mut i: usize = 0;
    while i < ws.len()
        invariant
            i <= ws@.len(),
            out@ == start + join_milli(ws@.take(i as int)),
        decreases ws@.len() - i,
    {
        assert(ws@.take(i + 1).drop_last() =~= ws@.take(i as int));
        if i > 0 {
            out.push(' ');
        }
        let s = crate::pdf::num::fmt_milli(ws[i]);
        let cs = chars_of(s.as_str());
        push_all(out, &cs);
        i = i + 1;
        assert(out@ =~= start + join_milli(ws@.take(i as int)));
    }
    assert(ws@.take(ws@.len() as int) =~= ws@);
}

/// Appends the characters of `s`.
pub fn push_text(out: &mut Vec<char>, s: &str)
    ensures
        final(out)@ == old(out)@ + s@,
{
    let cs = chars_of(s);
    push_all(out, &cs);
}

/// Appends `N 0 R`.
pub fn push_ref(out: &mut Vec<char>, id: u32)
    ensures
        final(out)@ == old(out)@ + ref_chars(id as nat),
{
    let ghost start = out@;
    push_dec(out, id as u64);
    out.push(' ');
    out.push('0');
    out.push(' ');
    out.push('R');
    assert(out@ =~= start + ref_chars(id as nat));
}

/// Appends a fixed-point number.
pub fn push_milli_chars(out: &mut Vec<char>, m: i64)
    ensures
        final(out)@ == old(out)@ + milli_chars(m as int),
{
    let s = crate::pdf::num::fmt_milli(m);
    push_text(out, s.as_str());
}

/// The `Type0` font dictionary's text.
fn type0_text(font: &CidFont, base: u32, to_unicode: u32) -> (s: String)
    requires
        base + 1 <= u32::MAX,
    ensures
        s@ == type0_body(font.base_font@, (base + 1) as nat, to_unicode as nat),
{
    let mut t0: Vec<char> = Vec::new();
    push_text(&mut t0, "<< /Type /Font /Subtype /Type0 /BaseFont /");
    push_text(&mut t0, font.base_font.as_str());
    push_text(&mut t0, " /Encoding /Identity-H /DescendantFonts [");
    push_ref(&mut t0, base + 1);
    push_text(&mut t0, "] /ToUnicode ");
    push_ref(&mut t0, to_unicode);
    push_text(&mut t0, " >>");
    assert(t0@ =~= type0_body(font.base_font@, (base + 1) as nat, to_unicode as nat));
    string_from_chars(t0)
}

/// The `CIDFontType2` dictionary's text.
fn cid_text(font: &CidFont, base: u32) -> (s: String)
    requires
        base + 2 <= u32::MAX,
    ensures
        s@ == cid_body(font.base_font@, (base + 2) as nat, font.widths@),
{
    let mut cid: Vec<char> = Vec::new();
    push_text(&mut cid, "<< /Type /Font /Subtype /CIDFontType2 /BaseFont /");
    push_text(&mut cid, font.base_font.as_str());
    push_text(&mut cid, " /CIDSystemInfo << /Registry (Adobe) /Ordering (Identity) /Supplement 0 >> /FontDescriptor ");
    push_ref(&mut cid, base + 2);
    push_text(&mut cid, " /DW 1000 /W [0 [");
    push_join_milli(&mut cid, &font.widths);
    push_text(&mut cid, "]] /CIDToGIDMap /Identity >>");
    assert(cid@ =~= cid_body(font.base_font@, (base + 2) as nat, font.widths@));
    string_from_chars(cid)
}

/// The font descriptor's text.
fn descriptor_text(font: &CidFont, base: u32) -> (s: String)
    requires
        base + 3 <= u32::MAX,
    ensures
        s@ == descriptor_body(*font, (base + 3) as nat),
{
    let mut d: Vec<char> = Vec::new();
    push_text(&mut d, "<< /Type /FontDescriptor /FontName /");
    push_text(&mut d, font.base_font.as_str());
    push_text(&mut d, " /Flags ");
    push_dec(&mut d, descriptor_flags(font.is_italic) as u64);
    push_text(&mut d, " /FontBBox [");
    push_milli_chars(&mut d, font.bbox.0);
    push_text(&mut d, " ");
    push_milli_chars(&mut d, font.bbox.1);
    push_text(&mut d, " ");
    push_milli_chars(&mut d, font.bbox.2);
    push_text(&mut d, " ");
    push_milli_chars(&mut d, font.bbox.3);
    push_text(&mut d, "] /ItalicAngle ");
    push_milli_chars(&mut d, font.italic_angle);
    push_text(&mut d, " /Ascent ");
    push_milli_chars(&mut d, font.ascent);
    push_text(&mut d, " /Descent ");
    push_milli_chars(&mut d, font.descent);
    push_text(&mut d, " /CapHeight ");
    push_milli_chars(&mut d, font.cap_height);
    push_text(&mut d, " /StemV ");
    let stemv: u64 = if font.is_bold {
        120
    } else {
        80
    };
    push_dec(&mut d, stemv);
    push_text(&mut d, " /FontFile2 ");
    push_ref(&mut d, base + 3);
    push_text(&mut d, " >>");
    assert(d@ =~= descriptor_body(*font, (base + 3) as nat));
    string_from_chars(d)
}

/// Writes one font's five objects.
fn write_font(w: &mut PdfWriter, font: &CidFont, base: u32, to_unicode: u32)
    requires
        old(w).wf(),
        base >= 1,
        base + 3 <= u32::MAX,
        to_unicode >= 1,
    ensures
        final(w).wf(),
        final(w).bytes() == old(w).bytes() + font_objects(*font, base as nat, to_unicode as nat),
        final(w).next_id() == old(w).next_id(),
        keeps_offsets(old(w).offsets(), final(w).offsets()),
        offsets_cover(final(w).offsets(), base as nat, (base + 4) as nat),
        has_offset(final(w).offsets(), to_unicode as nat),
{
    let ghost start = w.bytes();
    let t0s = type0_text(font, base, to_unicode);
    w.object(Ref(base), t0s.as_str());
    let ghost b1 = w.bytes();
    let ghost o1 = w.offsets();
    let cids = cid_text(font, base);
    w.object(Ref(base + 1), cids.as_str());
    let ghost b2 = w.bytes();
    let ghost o2 = w.offsets();
    let ds = descriptor_text(font, base);
    w.object(Ref(base + 2), ds.as_str());
    let ghost b3 = w.bytes();
    let ghost o3 = w.offsets();
    let mut l1: Vec<char> = Vec::new();
    push_text(&mut l1, "/Length1 ");
    push_dec(&mut l1, font.subset_bytes.len() as u64);
    let l1s = string_from_chars(l1);
    w.compressed_stream(Ref(base + 3), l1s.as_str(), font.subset_bytes.as_slice());
    let ghost b4 = w.bytes();
    let ghost o4 = w.offsets();
    let program = to_unicode_cmap(&font.to_unicode);
    let empty = string_from_chars(Vec::new());
    w.compressed_stream(Ref(to_unicode), empty.as_str(), program.as_slice());
    proof {
        reveal(font_objects);
        assert(l1s@ =~= "/Length1 "@ + dec_chars(font.subset_bytes@.len()));
        assert(empty@ =~= Seq::<char>::empty());
        assert(w.bytes() =~= start + font_objects(*font, base as nat, to_unicode as nat));
        assert forall|id: nat| base <= id < base + 4 implies #[trigger] has_offset(w.offsets(), id) by {
            if id == base as nat {
                assert(has_offset(o1, id));
            } else if id == base + 1 {
                assert(has_offset(o2, id));
            } else if id == base + 2 {
                assert(has_offset(o3, id));
            } else {
                assert(has_offset(o4, id));
            }
        }
    }
}

/// Writes every font (its four main references are allocated up front for
/// all fonts, then one `ToUnicode` reference per font) and returns the
/// `/Font` resource entries `/F1 <ref> ...`.
pub fn write_fonts(w: &mut PdfWriter, fonts: &Vec<CidFont>) -> (res: String)
    requires
        old(w).wf(),
        old(w).next_id() + 5 * fonts@.len() < u32::MAX,
    ensures
        final(w).wf(),
        final(w).bytes() == old(w).bytes() + fonts_written(fonts@, old(w).next_id(), fonts@.len()),
        final(w).next_id() == old(w).next_id() + 5 * fonts@.len(),
        res@ == resource_entries(seq!['F'], type0_refs(old(w).next_id(), fonts@.len()), fonts@.len()),
        keeps_offsets(old(w).offsets(), final(w).offsets()),
        offsets_cover(final(w).offsets(), old(w).next_id(), final(w).next_id()),
{
    let first = w.next_object_id();
    let n = fonts.len();
    let mut k: usize = 0;
    while k < 4 * n
        invariant
            k <= 4 * n,
            n == fonts@.len(),
            first == old(w).next_id(),
            first + 5 * n < u32::MAX,
            w.wf(),
            w.next_id() == first + k,
            w.bytes() == old(w).bytes(),
            w.offsets() == old(w).offsets(),
        decreases 4 * n - k,
    {
        let _ = w.allocate();
        k = k + 1;
    }
    let mut entries: Vec<char> = Vec::new();
    let mut i: usize = 0;
    while i < n
        invariant
            i <= n == fonts@.len(),
            first == old(w).next_id(),
            first >= 1,
            first + 5 * n < u32::MAX,
            w.wf(),
            w.next_id() == first + 4 * n + i,
            w.bytes() == old(w).bytes() + fonts_written(fonts@, first as nat, i as nat),
            entries@ == resource_entries(seq!['F'], type0_refs(first as nat, n as nat), i as nat),
            keeps_offsets(old(w).offsets(), w.offsets()),
            offsets_cover(w.offsets(), first as nat, (first + 4 * i) as nat),
            offsets_cover(w.offsets(), (first + 4 * n) as nat, (first + 4 * n + i) as nat),
        decreases n - i,
    {
        let ghost before = w.offsets();
        let tu = w.allocate();
        let base = first + 4 * (i as u32);
        write_font(w, &fonts[i], base, tu.0);
        proof {
            assert forall|id: nat| first <= id < first + 4 * (i + 1) implies #[trigger] has_offset(w.offsets(), id) by {
                if id < first + 4 * i {
                    assert(has_offset(before, id));
                }
            }
            assert forall|id: nat| first + 4 * n <= id < first + 4 * n + i + 1 implies #[trigger] has_offset(
                w.offsets(),
                id,
            ) by {
                if id < first + 4 * n + i {
                    assert(has_offset(before, id));
                }
            }
        }
        if i > 0 {
            entries.push(' ');
        }
        entries.push('/');
        entries.push('F');
        push_dec(&mut entries, (i as u64) + 1);
        entries.push(' ');
        push_ref(&mut entries, base);
        i = i + 1;
        proof {
            assert(type0_refs(first as nat, n as nat)[i - 1] == base);
            assert(entries@ =~= resource_entries(seq!['F'], type0_refs(first as nat, n as nat), i as nat));
        }
    }
    proof {
        assert forall|id: nat| first <= id < w.next_id() implies #[trigger] has_offset(w.offsets(), id) by {
            if id >= first + 4 * n {
                assert(first + 4 * n <= id < first + 4 * n + n);
            }
        }
    }
    string_from_chars(entries)
}

} // verus!
