//! The whole document: catalog, page tree, pages, fonts, images, bookmarks
//! and the `/Info` dictionary, then the cross-reference table.

use vstd::prelude::*;
use vstd::utf8::encode_utf8;
use crate::pdf::doc::{
    format_pdf_string, image_objects, image_written, pdf_string_chars, write_image, ImageXObject, PdfMetadata,
};
use crate::pdf::font_objects::{push_ref, push_text, resource_entries, write_fonts, CidFont, fonts_written, type0_refs};
use crate::pdf::outline::{list_size, outline_written, write_outline, PdfOutlineNode};
use crate::pdf::pages::{annots_before, consecutive_refs, pages_written, page_ref_ids, write_pages, PdfPage};
use crate::pdf::writer::{
    obj_at, object_bytes, pdf_header, recorded_offset, ref_chars, tail_bytes, PdfWriter, Ref, has_offset,
    keeps_offsets, offsets_cover,
};
use crate::text::{dec_chars, push_dec, string_from_chars};

verus! {

/// A document being assembled: fonts, images and pages are registered,
/// then `write` produces the file.
pub struct PdfDocument {
    fonts: Vec<CidFont>,
    images: Vec<ImageXObject>,
    pages: Vec<PdfPage>,
    pub metadata: PdfMetadata,
    /// Top-level bookmarks; none means no `/Outlines` object at all.
    pub outline: Vec<PdfOutlineNode>,
}

impl PdfDocument {
    /// The registered fonts, in order.
    pub closed spec fn font_list(&self) -> Seq<CidFont> {
        self.fonts@
    }

    /// The registered images, in order.
    pub closed spec fn image_list(&self) -> Seq<ImageXObject> {
        self.images@
    }

    /// The pages, in order.
    pub closed spec fn page_list(&self) -> Seq<PdfPage> {
        self.pages@
    }

    /// The top-level bookmarks.
    pub closed spec fn outline_list(&self) -> Seq<PdfOutlineNode> {
        self.outline@
    }

    /// The metadata.
    pub closed spec fn meta(&self) -> PdfMetadata {
        self.metadata
    }
}

/// How many objects the first `k` images take.
pub open spec fn images_before(images: Seq<ImageXObject>, k: nat) -> nat
    decreases k,
{
    if k == 0 || k > images.len() {
        0
    } else {
        images_before(images, (k - 1) as nat) + image_objects(images[k - 1])
    }
}

/// The first `k` images' objects, numbered from `first`.
pub open spec fn images_written(images: Seq<ImageXObject>, first: nat, k: nat) -> Seq<u8>
    decreases k,
{
    if k == 0 || k > images.len() {
        Seq::empty()
    } else {
        images_written(images, first, (k - 1) as nat) + image_written(
            images[k - 1],
            first + images_before(images, (k - 1) as nat),
        )
    }
}

/// Each image's own reference (after its masks).
pub open spec fn image_ref_ids(images: Seq<ImageXObject>, first: nat) -> Seq<nat> {
    Seq::new(images.len(), |i: int| (first + images_before(images, (i + 1) as nat) - 1) as nat)
}

/// The producer named in `/Info`.
pub open spec fn producer() -> Seq<char> {
    "lwpdf 0.1.0"@
}

/// One optional `/Info` entry, with a separating space before it.
pub open spec fn info_entry(key: Seq<char>, value: Option<String>) -> Seq<char> {
    match value {
        Some(v) => key + seq![' '] + pdf_string_chars(v@) + seq![' '],
        None => Seq::empty(),
    }
}

/// The `/Info` dictionary: each present field, then `/Producer`.
pub open spec fn info_body(m: PdfMetadata) -> Seq<char> {
    "<< "@ + info_entry("/Title"@, m.title) + info_entry("/Author"@, m.author) + info_entry("/Subject"@, m.subject)
        + info_entry("/Keywords"@, m.keywords) + info_entry("/Creator"@, m.creator) + info_entry(
        "/CreationDate"@,
        m.creation_date,
    ) + info_entry("/ModDate"@, m.mod_date) + "/Producer "@ + pdf_string_chars(producer()) + " >>"@
}

/// The object numbers the document uses: images, fonts, pages (with
/// their contents and links), bookmarks, in this order after the catalog
/// (1) and the page tree (2).
pub open spec fn fonts_first(d: PdfDocument) -> nat {
    3 + images_before(d.image_list(), d.image_list().len())
}

pub open spec fn pages_first(d: PdfDocument) -> nat {
    fonts_first(d) + 5 * d.font_list().len()
}

pub open spec fn outline_first(d: PdfDocument) -> nat {
    pages_first(d) + 2 * d.page_list().len() + annots_before(d.page_list(), d.page_list().len())
}

pub open spec fn info_id(d: PdfDocument) -> nat {
    outline_first(d) + if d.outline_list().len() > 0 {
        1 + list_size(d.outline_list(), d.outline_list().len())
    } else {
        0
    }
}

/// The image resource entries `/Im1 <ref> ...`.
pub open spec fn image_resources(d: PdfDocument) -> Seq<char> {
    resource_entries("Im"@, image_ref_ids(d.image_list(), 3), d.image_list().len())
}

/// The font resource entries `/F1 <ref> ...`.
pub open spec fn font_resources(d: PdfDocument) -> Seq<char> {
    resource_entries(seq!['F'], type0_refs(fonts_first(d), d.font_list().len()), d.font_list().len())
}

/// A page tree's dictionary for `n` pages numbered from `first`.
pub open spec fn page_tree_chars(first: nat, n: nat) -> Seq<char> {
    "<< /Type /Pages /Kids ["@ + consecutive_refs(first, n) + "] /Count "@ + dec_chars(n) + " >>"@
}

/// The page tree's dictionary.
pub open spec fn page_tree_body(d: PdfDocument) -> Seq<char> {
    page_tree_chars(pages_first(d), d.page_list().len())
}

/// The bookmark objects, when there are bookmarks.
pub open spec fn outline_objects(d: PdfDocument) -> Seq<u8> {
    if d.outline_list().len() > 0 {
        outline_written(d.outline_list(), outline_first(d), page_ref_ids(pages_first(d), d.page_list().len()))
    } else {
        Seq::empty()
    }
}

/// A catalog's dictionary: the page tree, and the bookmarks' root when
/// there is one.
pub open spec fn catalog_chars(pages: nat, outlines: Option<nat>) -> Seq<char> {
    let outlines_entry = match outlines {
        Some(o) => " /Outlines "@ + ref_chars(o),
        None => Seq::empty(),
    };
    "<< /Type /Catalog /Pages "@ + ref_chars(pages) + outlines_entry + " >>"@
}

/// The catalog's dictionary; `/Outlines` only when there are bookmarks.
pub open spec fn catalog_body(d: PdfDocument) -> Seq<char> {
    catalog_chars(2, if d.outline_list().len() > 0 { Some(outline_first(d)) } else { None })
}

/// The document's objects, in the order they are written, after the file
/// header: images, fonts, pages, the page tree, bookmarks, the catalog and
/// `/Info`.
#[verifier::opaque]
pub open spec fn document_body(d: PdfDocument) -> Seq<u8> {
    pdf_header() + images_written(d.image_list(), 3, d.image_list().len()) + fonts_written(
        d.font_list(),
        fonts_first(d),
        d.font_list().len(),
    ) + pages_written(d.page_list(), pages_first(d), d.page_list().len(), 2, font_resources(d), image_resources(d))
        + object_bytes(2, encode_utf8(page_tree_body(d))) + outline_objects(d) + object_bytes(
        1,
        encode_utf8(catalog_body(d)),
    ) + object_bytes(info_id(d), encode_utf8(info_body(d.meta())))
}

/// The whole file: the objects, then the cross-reference table with the
/// given offsets, and the trailer naming the catalog (1) and `/Info`, with
/// the document ID made from the hashes `h1` and `h2`.
pub open spec fn document_file(d: PdfDocument, offsets: Seq<usize>, h1: u64, h2: u64) -> Seq<u8> {
    let body = document_body(d);
    body + tail_bytes(body, offsets, info_id(d) + 1, Ref(1), Some(Ref(info_id(d) as u32)), h1, h2)
}

/// Whether every object number fits.
pub open spec fn document_fits(d: PdfDocument) -> bool {
    info_id(d) + 2 < u32::MAX
}

proof fn lemma_images_before_mono(images: Seq<ImageXObject>, a: nat, b: nat)
    requires
        a <= b <= images.len(),
    ensures
        images_before(images, a) <= images_before(images, b),
    decreases b,
{
    if a < b {
        lemma_images_before_mono(images, a, (b - 1) as nat);
    }
}

/// Appends one optional `/Info` entry.
fn push_info_entry(out: &mut Vec<char>, key: &str, value: &Option<String>)
    ensures
        final(out)@ == old(out)@ + info_entry(key@, *value),
{
    let ghost start = out@;
    match value {
        Some(v) => {
            push_text(out, key);
            out.push(' ');
            let f = format_pdf_string(v.as_str());
            push_text(out, f.as_str());
            out.push(' ');
        },
        None => {},
    }
    assert(out@ =~= start + info_entry(key@, *value));
}

/// The `/Info` dictionary's text.
fn info_text(m: &PdfMetadata) -> (s: String)
    ensures
        s@ == info_body(*m),
{
    let mut v: Vec<char> = Vec::new();
    push_text(&mut v, "<< ");
    push_info_entry(&mut v, "/Title", &m.title);
    push_info_entry(&mut v, "/Author", &m.author);
    push_info_entry(&mut v, "/Subject", &m.subject);
    push_info_entry(&mut v, "/Keywords", &m.keywords);
    push_info_entry(&mut v, "/Creator", &m.creator);
    push_info_entry(&mut v, "/CreationDate", &m.creation_date);
    push_info_entry(&mut v, "/ModDate", &m.mod_date);
    push_text(&mut v, "/Producer ");
    let p = format_pdf_string("lwpdf 0.1.0");
    push_text(&mut v, p.as_str());
    push_text(&mut v, " >>");
    assert(v@ =~= info_body(*m));
    string_from_chars(v)
}

/// Resource entries `/<prefix>1 <ref> ...` for `refs`.
fn resource_text(prefix: &str, refs: &Vec<Ref>) -> (s: String)
    ensures
        s@ == resource_entries(prefix@, refs@.map_values(|r: Ref| r.0 as nat), refs@.len()),
{
    let ghost ids = refs@.map_values(|r: Ref| r.0 as nat);
    let mut v: Vec<char> = Vec::new();
    let mut i: usize = 0;
    while i < refs.len()
        invariant
            i <= refs@.len(),
            ids == refs@.map_values(|r: Ref| r.0 as nat),
            v@ == resource_entries(prefix@, ids, i as nat),
        decreases refs@.len() - i,
    {
        if i > 0 {
            v.push(' ');
        }
        v.push('/');
        push_text(&mut v, prefix);
        push_dec(&mut v, (i as u64) + 1);
        v.push(' ');
        push_ref(&mut v, refs[i].0);
        i = i + 1;
        assert(v@ =~= resource_entries(prefix@, ids, i as nat));
    }
    string_from_chars(v)
}

/// The page references as `N 0 R` items, space-separated.
fn kids_text(refs: &Vec<Ref>, first: u32) -> (s: String)
    requires
        forall|j: int| 0 <= j < refs@.len() ==> #[trigger] refs@[j].0 == first + j,
    ensures
        s@ == consecutive_refs(first as nat, refs@.len()),
{
    let mut v: Vec<char> = Vec::new();
    let mut i: usize = 0;
    while i < refs.len()
        invariant
            i <= refs@.len(),
            forall|j: int| 0 <= j < refs@.len() ==> #[trigger] refs@[j].0 == first + j,
            v@ == consecutive_refs(first as nat, i as nat),
        decreases refs@.len() - i,
    {
        if i > 0 {
            v.push(' ');
        }
        push_ref(&mut v, refs[i].0);
        i = i + 1;
        assert(v@ =~= consecutive_refs(first as nat, i as nat));
    }
    string_from_chars(v)
}

/// The page tree's dictionary text.
fn page_tree_text(refs: &Vec<Ref>, first: u32) -> (s: String)
    requires
        forall|j: int| 0 <= j < refs@.len() ==> #[trigger] refs@[j].0 == first + j,
    ensures
        s@ == page_tree_chars(first as nat, refs@.len()),
{
    let kids = kids_text(refs, first);
    let mut v: Vec<char> = Vec::new();
    push_text(&mut v, "<< /Type /Pages /Kids [");
    push_text(&mut v, kids.as_str());
    push_text(&mut v, "] /Count ");
    push_dec(&mut v, refs.len() as u64);
    push_text(&mut v, " >>");
    assert(v@ =~= page_tree_chars(first as nat, refs@.len()));
    string_from_chars(v)
}

/// The catalog's dictionary text.
fn catalog_text(pages: Ref, outlines: Option<Ref>) -> (s: String)
    ensures
        s@ == catalog_chars(
            pages.0 as nat,
            match outlines {
                Some(r) => Some(r.0 as nat),
                None => None,
            },
        ),
{
    let mut v: Vec<char> = Vec::new();
    push_text(&mut v, "<< /Type /Catalog /Pages ");
    push_ref(&mut v, pages.0);
    let ghost mid = v@;
    match outlines {
        Some(r) => {
            push_text(&mut v, " /Outlines ");
            push_ref(&mut v, r.0);
        },
        None => {},
    }
    push_text(&mut v, " >>");
    assert(v@ =~= catalog_chars(
        pages.0 as nat,
        match outlines {
            Some(r) => Some(r.0 as nat),
            None => None,
        },
    ));
    string_from_chars(v)
}

/// Writes every image in order and returns their references.
fn write_images(w: &mut PdfWriter, images: &Vec<ImageXObject>) -> (refs: Vec<Ref>)
    requires
        old(w).wf(),
        old(w).next_id() + images_before(images@, images@.len()) < u32::MAX,
    ensures
        final(w).wf(),
        final(w).bytes() == old(w).bytes() + images_written(images@, old(w).next_id(), images@.len()),
        final(w).next_id() == old(w).next_id() + images_before(images@, images@.len()),
        refs@.map_values(|r: Ref| r.0 as nat) == image_ref_ids(images@, old(w).next_id()),
        keeps_offsets(old(w).offsets(), final(w).offsets()),
        offsets_cover(final(w).offsets(), old(w).next_id(), final(w).next_id()),
{
    let ghost first = w.next_id();
    let mut refs: Vec<Ref> = Vec::new();
    let mut i: usize = 0;
    while i < images.len()
        invariant
            i <= images@.len(),
            w.wf(),
            first == old(w).next_id(),
            first + images_before(images@, images@.len()) < u32::MAX,
            w.next_id() == first + images_before(images@, i as nat),
            w.bytes() == old(w).bytes() + images_written(images@, first, i as nat),
            refs@.len() == i,
            forall|j: int| 0 <= j < i ==> (#[trigger] refs@[j]).0 == first + images_before(images@, (j + 1) as nat) - 1,
            keeps_offsets(old(w).offsets(), w.offsets()),
            offsets_cover(w.offsets(), first, w.next_id()),
        decreases images@.len() - i,
    {
        proof {
            lemma_images_before_mono(images@, (i + 1) as nat, images@.len());
        }
        let ghost before = w.offsets();
        let ghost before_next = w.next_id();
        let r = write_image(w, &images[i]);
        proof {
            assert forall|id: nat| first <= id < w.next_id() implies #[trigger] has_offset(w.offsets(), id) by {
                if id < before_next {
                    assert(has_offset(before, id));
                }
            }
        }
        refs.push(r);
        i = i + 1;
    }
    assert(refs@.map_values(|r: Ref| r.0 as nat) =~= image_ref_ids(images@, first));
    refs
}

impl PdfDocument {
    /// An empty document.
    pub fn new() -> (d: Self)
        ensures
            d.font_list().len() == 0,
            d.image_list().len() == 0,
            d.page_list().len() == 0,
            d.outline_list().len() == 0,
            d.meta().title is None && d.meta().author is None && d.meta().subject is None
                && d.meta().keywords is None && d.meta().creator is None && d.meta().creation_date is None
                && d.meta().mod_date is None,
    {
        PdfDocument {
            fonts: Vec::new(),
            images: Vec::new(),
            pages: Vec::new(),
            metadata: PdfMetadata::default(),
            outline: Vec::new(),
        }
    }

    /// Registers a font and returns its index (resource name
    /// `F<index + 1>`).
    pub fn add_font(&mut self, font: CidFont) -> (i: usize)
        ensures
            final(self).font_list() == old(self).font_list().push(font),
            i == old(self).font_list().len(),
            final(self).image_list() == old(self).image_list(),
            final(self).page_list() == old(self).page_list(),
            final(self).outline_list() == old(self).outline_list(),
            final(self).meta() == old(self).meta(),
    {
        self.fonts.push(font);
        self.fonts.len() - 1
    }

    /// The font resource name `F<index + 1>`.
    pub fn font_resource_name(index: usize) -> (s: String)
        requires
            index < u64::MAX,
        ensures
            s@ == seq!['F'] + dec_chars((index + 1) as nat),
    {
        let mut v: Vec<char> = Vec::new();
        v.push('F');
        push_dec(&mut v, index as u64 + 1);
        assert(v@ =~= seq!['F'] + dec_chars((index + 1) as nat));
        string_from_chars(v)
    }

    /// Registers an image and returns its index (resource name
    /// `Im<index + 1>`).
    pub fn add_image(&mut self, image: ImageXObject) -> (i: usize)
        ensures
            final(self).image_list() == old(self).image_list().push(image),
            i == old(self).image_list().len(),
            final(self).font_list() == old(self).font_list(),
            final(self).page_list() == old(self).page_list(),
            final(self).outline_list() == old(self).outline_list(),
            final(self).meta() == old(self).meta(),
    {
        self.images.push(image);
        self.images.len() - 1
    }

    /// The image resource name `Im<index + 1>`.
    pub fn image_resource_name(index: usize) -> (s: String)
        requires
            index < u64::MAX,
        ensures
            s@ == seq!['I', 'm'] + dec_chars((index + 1) as nat),
    {
        let mut v: Vec<char> = Vec::new();
        v.push('I');
        v.push('m');
        push_dec(&mut v, index as u64 + 1);
        assert(v@ =~= seq!['I', 'm'] + dec_chars((index + 1) as nat));
        string_from_chars(v)
    }

    /// Writes every object of the document, in the order of
    /// `document_body`, and leaves the writer ready for the trailer.
    #[verifier::rlimit(100)]
    fn write_objects(&self) -> (w: PdfWriter)
        requires
            document_fits(*self),
        ensures
            w.wf(),
            w.bytes() == document_body(*self),
            w.next_id() == info_id(*self) + 1,
        offsets_cover(w.offsets(), 1, info_id(*self) + 1),
    {
        let ghost d = *self;
        let mut w = PdfWriter::new();
        let catalog_ref = w.allocate();
        let pages_ref = w.allocate();
        let ghost n_images = w.next_id();
        proof {
            lemma_images_before_mono(self.images@, 0, self.images@.len());
        }
        let image_refs = write_images(&mut w, &self.images);
        let ghost after_images = w.bytes();
        let image_res = resource_text("Im", &image_refs);
        let ghost o_images = w.offsets();
        let ghost n_fonts = w.next_id();
        let font_res = write_fonts(&mut w, &self.fonts);
        let ghost o_fonts = w.offsets();
        let ghost after_fonts = w.bytes();
        assert(w.next_id() == pages_first(d));
        assert(image_refs@.map_values(|r: Ref| r.0 as nat) == image_ref_ids(self.images@, 3));
        assert(image_refs@.len() == self.images@.len()) by {
            assert(image_refs@.map_values(|r: Ref| r.0 as nat).len() == image_refs@.len());
            assert(image_ref_ids(self.images@, 3).len() == self.images@.len());
        }
        assert(image_res@ == image_resources(d));
        assert(font_res@ == font_resources(d));
        let ghost n_pages = w.next_id();
        let page_refs = write_pages(&mut w, &self.pages, pages_ref, font_res.as_str(), image_res.as_str());
        let ghost o_pages = w.offsets();
        let ghost after_pages = w.bytes();
        let np = self.pages.len();
        let ghost pf = pages_first(d);
        let ghost prefs = page_refs@.map_values(|r: Ref| r.0 as nat);
        assert(prefs == page_ref_ids(pf, np as nat));
        proof {
            assert forall|j: int| 0 <= j < page_refs@.len() implies #[trigger] page_refs@[j].0 == pf + j by {
                assert(prefs[j] == page_refs@[j].0 as nat);
            }
        }
        let first_page: u32 = if np > 0 {
            page_refs[0].0
        } else {
            0
        };
        let ps = page_tree_text(&page_refs, first_page);
        assert(ps@ == page_tree_body(d));
        w.object(pages_ref, ps.as_str());
        let ghost after_tree = w.bytes();
        let ghost o_tree = w.offsets();
        let ghost n_outline = w.next_id();
        let outline_ref = write_outline(&mut w, &self.outline, &page_refs);
        proof {
            assert(page_refs@.map_values(|x: Ref| x.0 as nat) =~= page_ref_ids(pf, np as nat));
        }
        let ghost after_outline = w.bytes();
        let ghost o_outline = w.offsets();
        let cs = catalog_text(pages_ref, outline_ref);
        assert(cs@ == catalog_body(d));
        w.object(catalog_ref, cs.as_str());
        let ghost after_catalog = w.bytes();
        let ghost o_catalog = w.offsets();
        let info_ref = w.allocate();
        let it = info_text(&self.metadata);
        w.object(info_ref, it.as_str());
        proof {
            assert forall|id: nat| 1 <= id < info_id(d) + 1 implies #[trigger] has_offset(w.offsets(), id) by {
                if id == 1 {
                    assert(has_offset(o_catalog, id));
                } else if id == 2 {
                    assert(has_offset(o_tree, id));
                    assert(has_offset(o_outline, id));
                    assert(has_offset(o_catalog, id));
                } else if id < n_fonts {
                    assert(has_offset(o_images, id));
                    assert(has_offset(o_fonts, id));
                    assert(has_offset(o_pages, id));
                    assert(has_offset(o_tree, id));
                    assert(has_offset(o_outline, id));
                    assert(has_offset(o_catalog, id));
                } else if id < n_pages {
                    assert(has_offset(o_fonts, id));
                    assert(has_offset(o_pages, id));
                    assert(has_offset(o_tree, id));
                    assert(has_offset(o_outline, id));
                    assert(has_offset(o_catalog, id));
                } else if id < n_outline {
                    assert(has_offset(o_pages, id));
                    assert(has_offset(o_tree, id));
                    assert(has_offset(o_outline, id));
                    assert(has_offset(o_catalog, id));
                } else if id < info_ref.0 {
                    assert(has_offset(o_outline, id));
                    assert(has_offset(o_catalog, id));
                }
            }
        }
        proof {
            assert(w.bytes() =~= document_body(d)) by {
                reveal(document_body);
                assert(after_images =~= pdf_header() + images_written(d.image_list(), 3, d.image_list().len()));
            }
        }
        w
    }

    /// Assembles the whole file: catalog (object 1), page tree (2), the
    /// images, fonts, pages with their contents and links, the bookmarks
    /// and `/Info`, then the cross-reference table and trailer. Every
    /// object from 1 to `/Info` has an offset in the table, and every
    /// offset in the table locates its object's `N 0 obj` header.
    pub fn write(&self) -> (out: Vec<u8>)
        requires
            document_fits(*self),
        ensures
            exists|offsets: Seq<usize>, h1: u64, h2: u64|
                {
                    &&& out@ == #[trigger] document_file(*self, offsets, h1, h2)
                    &&& offsets_cover(offsets, 1, info_id(*self) + 1)
                    &&& forall|id: nat|
                        #![trigger recorded_offset(offsets, id)]
                        1 <= id && recorded_offset(offsets, id) != 0 ==> obj_at(out@, recorded_offset(offsets, id), id)
                },
    {
        let w = self.write_objects();
        let ghost body = w.bytes();
        let ghost offs = w.offsets();
        let info = w.next_object_id() - 1;
        let out = w.finish(Ref(1), Some(Ref(info)));
        let ghost hs = choose|h1: u64, h2: u64|
            out@ == body + #[trigger] tail_bytes(body, offs, info_id(*self) + 1, Ref(1), Some(Ref(info)), h1, h2);
        assert(out@ == document_file(*self, offs, hs.0, hs.1));
        out
    }

    /// Appends a page.
    pub fn add_page(&mut self, page: PdfPage)
        ensures
            final(self).page_list() == old(self).page_list().push(page),
            final(self).font_list() == old(self).font_list(),
            final(self).image_list() == old(self).image_list(),
            final(self).outline_list() == old(self).outline_list(),
            final(self).meta() == old(self).meta(),
    {
        self.pages.push(page);
    }
}

} // verus!
