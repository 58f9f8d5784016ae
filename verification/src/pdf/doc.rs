//! Document-level PDF pieces: literal strings, resource names, image
//! XObjects and the `ToUnicode` character map.

use vstd::prelude::*;
use vstd::string::StringSliceAdditionalSpecFns;
use vstd::utf8::encode_utf8;
use crate::bytes::push_bytes;
use crate::pdf::num::{dec_bytes, hex_bytes, push_dec_bytes, push_hex, push_str};
use crate::pdf::writer::{stream_bytes, zlib_compressed, PdfWriter, Ref, has_offset, keeps_offsets, offsets_cover};
use crate::text::{chars_of, dec_chars, push_dec, string_from_chars};

verus! {

// ---------------------------------------------------------------------
// Literal strings.
// ---------------------------------------------------------------------

/// One character inside a literal string: backslash and both parentheses
/// get a backslash in front.
pub open spec fn escape_char(c: char) -> Seq<char> {
    if c == '\\' || c == '(' || c == ')' {
        seq!['\\', c]
    } else {
        seq![c]
    }
}

/// Every character of `s` escaped.
pub open spec fn escaped(s: Seq<char>) -> Seq<char>
    decreases s.len(),
{
    if s.len() == 0 {
        Seq::empty()
    } else {
        escaped(s.drop_last()) + escape_char(s.last())
    }
}

/// `s` as a PDF literal string: escaped and in parentheses.
pub open spec fn pdf_string_chars(s: Seq<char>) -> Seq<char> {
    seq!['('] + escaped(s) + seq![')']
}

/// Reading a literal string's body back: a backslash takes the next
/// character literally.
pub open spec fn unescaped(t: Seq<char>) -> Seq<char>
    decreases t.len(),
{
    if t.len() == 0 {
        Seq::empty()
    } else if t[0] == '\\' && t.len() >= 2 {
        seq![t[1]] + unescaped(t.skip(2))
    } else {
        seq![t[0]] + unescaped(t.skip(1))
    }
}

/// Formats `s` as a PDF literal string, escaping backslashes and
/// parentheses.
pub fn format_pdf_string(s: &str) -> (r: String)
    ensures
        r@ == pdf_string_chars(s@),
{
    let cs = chars_of(s);
    let mut out: Vec<char> = Vec::new();
    out.push('(');
    let mut i: usize = 0;
    while i < cs.len()
        invariant
            i <= cs@.len(),
            out@ == seq!['('] + escaped(cs@.take(i as int)),
        decreases cs@.len() - i,
    {
        assert(cs@.take(i + 1).drop_last() =~= cs@.take(i as int));
        let c = cs[i];
        if c == '\\' || c == '(' || c == ')' {
            out.push('\\');
        }
        out.push(c);
        i = i + 1;
        assert(out@ =~= seq!['('] + escaped(cs@.take(i as int)));
    }
    out.push(')');
    assert(cs@.take(cs@.len() as int) =~= cs@);
    assert(out@ =~= pdf_string_chars(s@));
    string_from_chars(out)
}

proof fn lemma_escaped_cons(c: char, r: Seq<char>)
    ensures
        escaped(seq![c] + r) == escape_char(c) + escaped(r),
    decreases r.len(),
{
    if r.len() == 0 {
        assert((seq![c] + r).drop_last() =~= Seq::<char>::empty());
        assert(escaped(Seq::<char>::empty()) =~= Seq::<char>::empty());
        assert(escaped(seq![c] + r) =~= escape_char(c));
        assert(escape_char(c) + escaped(r) =~= escape_char(c));
    } else {
        lemma_escaped_cons(c, r.drop_last());
        assert((seq![c] + r).drop_last() =~= seq![c] + r.drop_last());
        assert((seq![c] + r).last() == r.last());
        assert(escaped(seq![c] + r) =~= escape_char(c) + escaped(r.drop_last()) + escape_char(r.last()));
    }
}

/// Reading a formatted literal string's body back gives the original
/// text: the escaping loses nothing.
pub proof fn lemma_pdf_string_round_trip(s: Seq<char>)
    ensures
        unescaped(escaped(s)) == s,
        pdf_string_chars(s).len() == escaped(s).len() + 2,
    decreases s.len(),
{
    if s.len() > 0 {
        let c = s[0];
        let r = s.skip(1);
        assert(s =~= seq![c] + r);
        lemma_escaped_cons(c, r);
        lemma_pdf_string_round_trip(r);
        let t = escape_char(c) + escaped(r);
        if c == '\\' || c == '(' || c == ')' {
            assert(t.skip(2) =~= escaped(r));
        } else {
            assert(t.skip(1) =~= escaped(r));
        }
        assert(unescaped(t) =~= s);
    }
}

// ---------------------------------------------------------------------
// Font descriptor flags.
// ---------------------------------------------------------------------

/// FontDescriptor `/Flags`: Nonsymbolic (32), plus Italic (64).
pub fn descriptor_flags(is_italic: bool) -> (f: u32)
    ensures
        f == (if is_italic { 96u32 } else { 32u32 }),
{
    let mut flags = 32u32;
    if is_italic {
        flags = flags + 64;
    }
    flags
}

// ---------------------------------------------------------------------
// Image XObjects.
// ---------------------------------------------------------------------

#[derive(Clone, Copy, PartialEq, Eq, Debug)]
pub enum ColorSpace {
    DeviceGray,
    DeviceRgb,
}

/// The color space's PDF name.
pub open spec fn color_space_name(cs: ColorSpace) -> Seq<char> {
    match cs {
        ColorSpace::DeviceGray => "DeviceGray"@,
        ColorSpace::DeviceRgb => "DeviceRGB"@,
    }
}

impl ColorSpace {
    /// The color space's PDF name.
    pub fn as_pdf_name(self) -> (s: &'static str)
        ensures
            s@ == color_space_name(self),
    {
        match self {
            ColorSpace::DeviceGray => "DeviceGray",
            ColorSpace::DeviceRgb => "DeviceRGB",
        }
    }
}

#[derive(Clone, Copy, PartialEq, Eq, Debug)]
pub enum ImageDataFilter {
    /// Raw samples, compressed like any other stream.
    Raw,
    /// The original JPEG bytes, embedded as they are.
    DctDecode,
}

/// One embeddable image XObject. `smask` is PNG alpha: itself an image
/// (gray, raw, without a further mask).
pub struct ImageXObject {
    pub width_px: u32,
    pub height_px: u32,
    pub color_space: ColorSpace,
    pub bits_per_component: u8,
    pub filter: ImageDataFilter,
    pub bytes: Vec<u8>,
    pub smask: Option<Box<ImageXObject>>,
}

/// Document metadata for the `/Info` dictionary; dates are already
/// formatted PDF date strings.
#[derive(Clone, Debug)]
pub struct PdfMetadata {
    pub title: Option<String>,
    pub author: Option<String>,
    pub subject: Option<String>,
    pub keywords: Option<String>,
    pub creator: Option<String>,
    pub creation_date: Option<String>,
    pub mod_date: Option<String>,
}

impl Default for PdfMetadata {
    fn default() -> (m: Self)
        ensures
            m.title is None && m.author is None && m.subject is None && m.keywords is None && m.creator is None
                && m.creation_date is None && m.mod_date is None,
    {
        PdfMetadata {
            title: None,
            author: None,
            subject: None,
            keywords: None,
            creator: None,
            creation_date: None,
            mod_date: None,
        }
    }
}

/// How many objects an image takes: itself and its masks.
pub open spec fn image_objects(img: ImageXObject) -> nat
    decreases img,
{
    match img.smask {
        Some(m) => 1 + image_objects(*m),
        None => 1,
    }
}

/// An image's stream dictionary entries (after `/Length`).
pub open spec fn image_dict(img: ImageXObject, smask: Option<nat>) -> Seq<u8> {
    "/Type /XObject /Subtype /Image /Width ".spec_bytes() + dec_bytes(img.width_px as nat) + " /Height ".spec_bytes()
        + dec_bytes(img.height_px as nat) + " /ColorSpace /".spec_bytes() + encode_utf8(
        color_space_name(img.color_space),
    ) + " /BitsPerComponent ".spec_bytes() + dec_bytes(img.bits_per_component as nat) + match img.filter {
        ImageDataFilter::Raw => Seq::empty(),
        ImageDataFilter::DctDecode => " /Filter /DCTDecode".spec_bytes(),
    } + match smask {
        Some(id) => " /SMask ".spec_bytes() + dec_bytes(id) + " 0 R".spec_bytes(),
        None => Seq::empty(),
    }
}

/// The image's own stream object, numbered `id`: raw samples compressed,
/// JPEG bytes as they are.
pub open spec fn image_stream(img: ImageXObject, id: nat, smask: Option<nat>) -> Seq<u8> {
    match img.filter {
        ImageDataFilter::Raw => stream_bytes(
            id,
            "/Filter /FlateDecode ".spec_bytes() + image_dict(img, smask),
            zlib_compressed(img.bytes@, 6),
        ),
        ImageDataFilter::DctDecode => stream_bytes(id, image_dict(img, smask), img.bytes@),
    }
}

/// What writing an image appends when the next free ID is `first`: its
/// mask (if any) first, then the image itself, numbered after the mask.
pub open spec fn image_written(img: ImageXObject, first: nat) -> Seq<u8>
    decreases img,
{
    match img.smask {
        Some(m) => image_written(*m, first) + image_stream(img, first + image_objects(*m), Some((first + image_objects(*m) - 1) as nat)),
        None => image_stream(img, first, None),
    }
}

/// An image's stream dictionary entries.
fn image_dict_bytes(image: &ImageXObject, smask_ref: Option<Ref>) -> (dict: Vec<u8>)
    ensures
        dict@ == image_dict(
            *image,
            match smask_ref {
                Some(r) => Some(r.0 as nat),
                None => None,
            },
        ),
{
    let mut dict: Vec<u8> = Vec::new();
    push_str(&mut dict, "/Type /XObject /Subtype /Image /Width ");
    push_dec_bytes(&mut dict, image.width_px as u64);
    push_str(&mut dict, " /Height ");
    push_dec_bytes(&mut dict, image.height_px as u64);
    push_str(&mut dict, " /ColorSpace /");
    push_str(&mut dict, image.color_space.as_pdf_name());
    push_str(&mut dict, " /BitsPerComponent ");
    push_dec_bytes(&mut dict, image.bits_per_component as u64);
    match image.filter {
        ImageDataFilter::Raw => {},
        ImageDataFilter::DctDecode => {
            push_str(&mut dict, " /Filter /DCTDecode");
        },
    }
    match smask_ref {
        Some(r) => {
            push_str(&mut dict, " /SMask ");
            push_dec_bytes(&mut dict, r.0 as u64);
            push_str(&mut dict, " 0 R");
        },
        None => {},
    }
    assert(dict@ =~= image_dict(
        *image,
        match smask_ref {
            Some(r) => Some(r.0 as nat),
            None => None,
        },
    ));
    dict
}

/// Writes one image XObject (its mask first, if any) and returns the
/// image's reference.
pub fn write_image(w: &mut PdfWriter, image: &ImageXObject) -> (r: Ref)
    requires
        old(w).wf(),
        old(w).next_id() + image_objects(*image) < u32::MAX,
    ensures
        final(w).wf(),
        final(w).bytes() == old(w).bytes() + image_written(*image, old(w).next_id()),
        final(w).next_id() == old(w).next_id() + image_objects(*image),
        r.0 == old(w).next_id() + image_objects(*image) - 1,
        keeps_offsets(old(w).offsets(), final(w).offsets()),
        offsets_cover(final(w).offsets(), old(w).next_id(), final(w).next_id()),
    decreases image,
{
    let ghost first = w.next_id();
    let smask_ref = match &image.smask {
        Some(m) => Some(write_image(w, m)),
        None => None,
    };
    let ghost sm: Option<nat> = match smask_ref {
        Some(r) => Some(r.0 as nat),
        None => None,
    };
    let ghost mid = w.bytes();
    let ghost mid_offsets = w.offsets();
    let image_ref = w.allocate();
    let dict = image_dict_bytes(image, smask_ref);
    match image.filter {
        ImageDataFilter::Raw => w.write_compressed_stream(image_ref, dict.as_slice(), image.bytes.as_slice()),
        ImageDataFilter::DctDecode => w.write_stream(image_ref, dict.as_slice(), image.bytes.as_slice()),
    }
    assert(w.bytes() =~= old(w).bytes() + image_written(*image, first));
    proof {
        assert forall|id: nat| first <= id < w.next_id() implies #[trigger] has_offset(w.offsets(), id) by {
            if id < image_ref.0 {
                assert(has_offset(mid_offsets, id));
            }
        }
    }
    image_ref
}

// ---------------------------------------------------------------------
// ToUnicode.
// ---------------------------------------------------------------------

/// The UTF-16 code units of `c`: one below U+10000, else a surrogate pair.
pub open spec fn utf16_units(c: char) -> Seq<nat> {
    let v = c as nat;
    if v < 0x10000 {
        seq![v]
    } else {
        seq![(0xD800 + (v - 0x10000) / 1024) as nat, (0xDC00 + (v - 0x10000) % 1024) as nat]
    }
}

/// Code units as four uppercase hex digits each.
pub open spec fn hex_units(units: Seq<nat>) -> Seq<u8>
    decreases units.len(),
{
    if units.len() == 0 {
        Seq::empty()
    } else {
        hex_units(units.drop_last()) + hex_bytes(units.last(), 4, true)
    }
}

/// One `bfchar` entry: `<CID> <UTF-16 hex>`.
pub open spec fn bfchar_line(cid: u16, c: char) -> Seq<u8> {
    "<".spec_bytes() + hex_bytes(cid as nat, 4, true) + "> <".spec_bytes() + hex_units(utf16_units(c)) + ">\n".spec_bytes()
}

/// The `bfchar` entries of `pairs`, in order.
pub open spec fn bfchar_lines(pairs: Seq<(u16, char)>) -> Seq<u8>
    decreases pairs.len(),
{
    if pairs.len() == 0 {
        Seq::empty()
    } else {
        bfchar_lines(pairs.drop_last()) + bfchar_line(pairs.last().0, pairs.last().1)
    }
}

/// The `bfchar` blocks from entry `s` on, at most 100 entries each.
pub open spec fn bfchar_blocks(pairs: Seq<(u16, char)>, s: nat) -> Seq<u8>
    decreases pairs.len() - s,
{
    if s >= pairs.len() {
        Seq::empty()
    } else {
        let n: nat = if pairs.len() - s < 100 { (pairs.len() - s) as nat } else { 100 };
        dec_bytes(n) + " beginbfchar\n".spec_bytes() + bfchar_lines(pairs.subrange(s as int, s + n as int)) + "endbfchar\n".spec_bytes()
            + bfchar_blocks(pairs, s + n)
    }
}

/// The fixed start of the `ToUnicode` CMap program.
pub open spec fn cmap_prologue() -> Seq<u8> {
    "/CIDInit /ProcSet findresource begin\n12 dict begin\nbegincmap\n/CIDSystemInfo << /Registry (Adobe) /Ordering (UCS) /Supplement 0 >> def\n/CMapName /Adobe-Identity-UCS def\n/CMapType 2 def\n1 begincodespacerange\n<0000> <FFFF>\nendcodespacerange\n".spec_bytes()
}

/// The fixed end of the `ToUnicode` CMap program.
pub open spec fn cmap_epilogue() -> Seq<u8> {
    "endcmap\nCMapType findresource /CMap defineresource pop\nend\nend".spec_bytes()
}

/// The `ToUnicode` CMap program mapping each CID back to its character.
pub open spec fn to_unicode_program(pairs: Seq<(u16, char)>) -> Seq<u8> {
    cmap_prologue() + bfchar_blocks(pairs, 0) + cmap_epilogue()
}

/// Appends one `bfchar` entry.
fn push_bfchar_line(out: &mut Vec<u8>, cid: u16, c: char)
    ensures
        final(out)@ == old(out)@ + bfchar_line(cid, c),
{
    let ghost start = out@;
    push_str(out, "<");
    push_hex(out, cid as u64, 4, true);
    push_str(out, "> <");
    let v = c as u32;
    let ghost mid = out@;
    if v < 0x10000 {
        push_hex(out, v as u64, 4, true);
        proof {
            let u = utf16_units(c);
            assert(u.drop_last() =~= Seq::<nat>::empty());
            assert(hex_units(Seq::<nat>::empty()) =~= Seq::<u8>::empty());
            assert(out@ =~= mid + hex_units(u));
        }
    } else {
        let u = v - 0x10000;
        push_hex(out, (0xD800 + u / 1024) as u64, 4, true);
        push_hex(out, (0xDC00 + u % 1024) as u64, 4, true);
        proof {
            let us = utf16_units(c);
            assert(us.drop_last().drop_last() =~= Seq::<nat>::empty());
            assert(hex_units(Seq::<nat>::empty()) =~= Seq::<u8>::empty());
            assert(us.drop_last() =~= seq![us[0]]);
            assert(seq![us[0]].drop_last() =~= Seq::<nat>::empty());
            assert(hex_units(us.drop_last()) =~= hex_bytes(us[0], 4, true));
            assert(us.last() == us[1]);
            assert(us[0] == (0xD800 + u / 1024) as nat);
            assert(us[1] == (0xDC00 + u % 1024) as nat);
            assert(out@ =~= mid + hex_units(us));
        }
    }
    push_str(out, ">\n");
    assert(out@ =~= start + bfchar_line(cid, c));
}

/// The `ToUnicode` CMap program body: each CID back to its character, so
/// that text stays copyable and searchable through Identity-H CIDs; the
/// entries come in `bfchar` blocks of at most 100.
pub fn to_unicode_cmap(pairs: &Vec<(u16, char)>) -> (body: Vec<u8>)
    ensures
        body@ == to_unicode_program(pairs@),
{
    let mut out: Vec<u8> = Vec::new();
    push_str(&mut out, "/CIDInit /ProcSet findresource begin\n12 dict begin\nbegincmap\n/CIDSystemInfo << /Registry (Adobe) /Ordering (UCS) /Supplement 0 >> def\n/CMapName /Adobe-Identity-UCS def\n/CMapType 2 def\n1 begincodespacerange\n<0000> <FFFF>\nendcodespacerange\n");
    let ghost head = out@;
    let len = pairs.len();
    let mut s: usize = 0;
    while s < len
        invariant
            s <= len == pairs@.len(),
            out@ + bfchar_blocks(pairs@, s as nat) == head + bfchar_blocks(pairs@, 0),
        decreases len - s,
    {
        let n: usize = if len - s < 100 {
            len - s
        } else {
            100
        };
        let ghost before = out@;
        push_dec_bytes(&mut out, n as u64);
        push_str(&mut out, " beginbfchar\n");
        let ghost lines_start = out@;
        let mut k: usize = 0;
        while k < n
            invariant
                k <= n,
                s + n <= len == pairs@.len(),
                out@ == lines_start + bfchar_lines(pairs@.subrange(s as int, s + k)),
            decreases n - k,
        {
            let (cid, c) = pairs[s + k];
            push_bfchar_line(&mut out, cid, c);
            assert(pairs@.subrange(s as int, s + k + 1).drop_last() =~= pairs@.subrange(s as int, s + k));
            k = k + 1;
        }
        push_str(&mut out, "endbfchar\n");
        assert(out@ + bfchar_blocks(pairs@, (s + n) as nat) =~= before + bfchar_blocks(pairs@, s as nat));
        s = s + n;
    }
    push_str(&mut out, "endcmap\nCMapType findresource /CMap defineresource pop\nend\nend");
    assert(out@ =~= to_unicode_program(pairs@));
    out
}

} // verus!
