//! Page objects: each page's dictionary, its compressed content stream and
//! its link annotations. Coordinates are fixed-point thousandths.

use vstd::prelude::*;
use vstd::string::StringSliceAdditionalSpecFns;
use vstd::utf8::encode_utf8;
use crate::pdf::doc::{format_pdf_string, pdf_string_chars};
use crate::pdf::font_objects::{push_milli_chars, push_ref, push_text};
use crate::pdf::num::milli_chars;
use crate::pdf::writer::{object_bytes, ref_chars, stream_bytes, zlib_compressed, PdfWriter, Ref, has_offset, keeps_offsets, offsets_cover};
use crate::text::{string_from_chars, push_all};

verus! {

/// Where a link goes.
pub enum PdfLinkAction {
    /// An external link.
    Uri(String),
    /// A jump to a height on a page (by index among the document's pages).
    GoTo { page_index: usize, y: i64 },
}

/// A clickable rectangle.
pub struct PdfLinkAnnotation {
    pub rect: (i64, i64, i64, i64),
    pub action: PdfLinkAction,
}

/// One page: its size, content stream and links.
pub struct PdfPage {
    pub width: i64,
    pub height: i64,
    pub content: Vec<u8>,
    pub annotations: Vec<PdfLinkAnnotation>,
}

/// A link's action entry; a jump to a page index that does not exist goes
/// to the link's own page instead (a harmless no-op).
pub open spec fn action_chars(a: PdfLinkAction, page_refs: Seq<nat>, own: nat) -> Seq<char> {
    match a {
        PdfLinkAction::Uri(u) => "/A << /S /URI /URI "@ + pdf_string_chars(u@) + " >>"@,
        PdfLinkAction::GoTo { page_index, y } => "/Dest ["@ + ref_chars(
            if page_index < page_refs.len() {
                page_refs[page_index as int]
            } else {
                own
            },
        ) + " /XYZ null "@ + milli_chars(y as int) + " null]"@,
    }
}

/// A link annotation's dictionary.
pub open spec fn annot_body(a: PdfLinkAnnotation, page_refs: Seq<nat>, own: nat) -> Seq<char> {
    "<< /Type /Annot /Subtype /Link /Rect ["@ + milli_chars(a.rect.0 as int) + " "@ + milli_chars(a.rect.1 as int)
        + " "@ + milli_chars(a.rect.2 as int) + " "@ + milli_chars(a.rect.3 as int) + "] /Border [0 0 0] "@
        + action_chars(a.action, page_refs, own) + " >>"@
}

/// The first `k` annotations' objects, numbered from `first`.
pub open spec fn annots_written(annots: Seq<PdfLinkAnnotation>, k: nat, first: nat, page_refs: Seq<nat>, own: nat) -> Seq<
    u8,
>
    decreases k,
{
    if k == 0 {
        Seq::empty()
    } else {
        annots_written(annots, (k - 1) as nat, first, page_refs, own) + object_bytes(
            (first + k - 1) as nat,
            encode_utf8(annot_body(annots[k - 1], page_refs, own)),
        )
    }
}

/// References `N 0 R` for `first..first + k`, space-separated.
pub open spec fn consecutive_refs(first: nat, k: nat) -> Seq<char>
    decreases k,
{
    if k == 0 {
        Seq::empty()
    } else if k == 1 {
        ref_chars(first)
    } else {
        consecutive_refs(first, (k - 1) as nat) + seq![' '] + ref_chars((first + k - 1) as nat)
    }
}

/// ` /Annots [...]` when the page has links.
pub open spec fn annots_entry(first: nat, count: nat) -> Seq<char> {
    if count == 0 {
        Seq::empty()
    } else {
        " /Annots ["@ + consecutive_refs(first, count) + "]"@
    }
}

/// A page's dictionary.
pub open spec fn page_body(
    p: PdfPage,
    parent: nat,
    fonts: Seq<char>,
    images: Seq<char>,
    content: nat,
    annots_first: nat,
) -> Seq<char> {
    "<< /Type /Page /Parent "@ + ref_chars(parent) + " /MediaBox [0 0 "@ + milli_chars(p.width as int) + " "@
        + milli_chars(p.height as int) + "] /Resources << /Font << "@ + fonts + " >> /XObject << "@ + images
        + " >> >> /Contents "@ + ref_chars(content) + annots_entry(annots_first, p.annotations@.len()) + " >>"@
}

/// One page's objects: its annotations, its dictionary, its content.
pub open spec fn page_written(
    p: PdfPage,
    own: nat,
    content: nat,
    annots_first: nat,
    parent: nat,
    fonts: Seq<char>,
    images: Seq<char>,
    page_refs: Seq<nat>,
) -> Seq<u8> {
    annots_written(p.annotations@, p.annotations@.len(), annots_first, page_refs, own) + object_bytes(
        own,
        encode_utf8(page_body(p, parent, fonts, images, content, annots_first)),
    ) + stream_bytes(content, "/Filter /FlateDecode ".spec_bytes() + encode_utf8(Seq::empty()), zlib_compressed(p.content@, 6))
}

/// How many annotations the first `i` pages have.
pub open spec fn annots_before(pages: Seq<PdfPage>, i: nat) -> nat
    decreases i,
{
    if i == 0 || i > pages.len() {
        0
    } else {
        annots_before(pages, (i - 1) as nat) + pages[i - 1].annotations@.len()
    }
}

/// The page references: `first..first + n`.
pub open spec fn page_ref_ids(first: nat, n: nat) -> Seq<nat> {
    Seq::new(n, |i: int| (first + i) as nat)
}

/// The first `k` pages' objects: page `i` is `first + i`, its content
/// `first + n + i`, annotations are numbered from `first + 2n` on.
#[verifier::opaque]
pub open spec fn pages_written(
    pages: Seq<PdfPage>,
    first: nat,
    k: nat,
    parent: nat,
    fonts: Seq<char>,
    images: Seq<char>,
) -> Seq<u8>
    decreases k,
{
    if k == 0 {
        Seq::empty()
    } else {
        let i = (k - 1) as nat;
        pages_written(pages, first, i, parent, fonts, images) + page_written(
            pages[i as int],
            first + i,
            first + pages.len() + i,
            first + 2 * pages.len() + annots_before(pages, i),
            parent,
            fonts,
            images,
            page_ref_ids(first, pages.len()),
        )
    }
}

proof fn lemma_pages_written_zero(pages: Seq<PdfPage>, first: nat, parent: nat, fonts: Seq<char>, images: Seq<char>)
    ensures
        pages_written(pages, first, 0, parent, fonts, images) == Seq::<u8>::empty(),
{
    reveal(pages_written);
}

proof fn lemma_pages_written_step(
    pages: Seq<PdfPage>,
    first: nat,
    i: nat,
    parent: nat,
    fonts: Seq<char>,
    images: Seq<char>,
)
    requires
        i < pages.len(),
    ensures
        pages_written(pages, first, i + 1, parent, fonts, images) == pages_written(pages, first, i, parent, fonts, images)
            + page_written(
            pages[i as int],
            first + i,
            first + pages.len() + i,
            first + 2 * pages.len() + annots_before(pages, i),
            parent,
            fonts,
            images,
            page_ref_ids(first, pages.len()),
        ),
        annots_before(pages, i + 1) == annots_before(pages, i) + pages[i as int].annotations@.len(),
{
    reveal(pages_written);
}

proof fn lemma_annots_before_mono(pages: Seq<PdfPage>, a: nat, b: nat)
    requires
        a <= b <= pages.len(),
    ensures
        annots_before(pages, a) <= annots_before(pages, b),
    decreases b,
{
    if a < b {
        lemma_annots_before_mono(pages, a, (b - 1) as nat);
    }
}

/// A link annotation's dictionary text.
fn annot_text(a: &PdfLinkAnnotation, page_refs: &Vec<Ref>, own: u32) -> (s: String)
    ensures
        s@ == annot_body(*a, page_refs@.map_values(|r: Ref| r.0 as nat), own as nat),
{
    let ghost ids = page_refs@.map_values(|r: Ref| r.0 as nat);
    let mut v: Vec<char> = Vec::new();
    push_text(&mut v, "<< /Type /Annot /Subtype /Link /Rect [");
    push_milli_chars(&mut v, a.rect.0);
    push_text(&mut v, " ");
    push_milli_chars(&mut v, a.rect.1);
    push_text(&mut v, " ");
    push_milli_chars(&mut v, a.rect.2);
    push_text(&mut v, " ");
    push_milli_chars(&mut v, a.rect.3);
    push_text(&mut v, "] /Border [0 0 0] ");
    let ghost mid = v@;
    match &a.action {
        PdfLinkAction::Uri(uri) => {
            push_text(&mut v, "/A << /S /URI /URI ");
            let f = format_pdf_string(uri.as_str());
            push_text(&mut v, f.as_str());
            push_text(&mut v, " >>");
        },
        PdfLinkAction::GoTo { page_index, y } => {
            let target = if *page_index < page_refs.len() {
                page_refs[*page_index].0
            } else {
                own
            };
            push_text(&mut v, "/Dest [");
            push_ref(&mut v, target);
            push_text(&mut v, " /XYZ null ");
            push_milli_chars(&mut v, *y);
            push_text(&mut v, " null]");
        },
    }
    assert(v@ =~= mid + action_chars(a.action, ids, own as nat));
    push_text(&mut v, " >>");
    assert(v@ =~= annot_body(*a, ids, own as nat));
    string_from_chars(v)
}

/// A page's dictionary text.
fn page_text(p: &PdfPage, parent: u32, fonts: &str, images: &str, content: u32, annots_first: u32) -> (s: String)
    requires
        annots_first + p.annotations@.len() <= u32::MAX,
    ensures
        s@ == page_body(*p, parent as nat, fonts@, images@, content as nat, annots_first as nat),
{
    let mut v: Vec<char> = Vec::new();
    push_text(&mut v, "<< /Type /Page /Parent ");
    push_ref(&mut v, parent);
    push_text(&mut v, " /MediaBox [0 0 ");
    push_milli_chars(&mut v, p.width);
    push_text(&mut v, " ");
    push_milli_chars(&mut v, p.height);
    push_text(&mut v, "] /Resources << /Font << ");
    push_text(&mut v, fonts);
    push_text(&mut v, " >> /XObject << ");
    push_text(&mut v, images);
    push_text(&mut v, " >> >> /Contents ");
    push_ref(&mut v, content);
    let ghost mid = v@;
    let count = p.annotations.len();
    if count > 0 {
        push_text(&mut v, " /Annots [");
        let mut j: usize = 0;
        let ghost refs_start = v@;
        while j < count
            invariant
                j <= count == p.annotations@.len(),
                annots_first + count <= u32::MAX,
                v@ == refs_start + consecutive_refs(annots_first as nat, j as nat),
            decreases count - j,
        {
            if j > 0 {
                v.push(' ');
            }
            push_ref(&mut v, annots_first + j as u32);
            j = j + 1;
            assert(v@ =~= refs_start + consecutive_refs(annots_first as nat, j as nat));
        }
        push_text(&mut v, "]");
    }
    assert(v@ =~= mid + annots_entry(annots_first as nat, count as nat));
    push_text(&mut v, " >>");
    assert(v@ =~= page_body(*p, parent as nat, fonts@, images@, content as nat, annots_first as nat));
    string_from_chars(v)
}

/// Writes one page: its annotations (numbered from the writer's next ID),
/// its dictionary and its compressed content.
fn write_page(
    w: &mut PdfWriter,
    p: &PdfPage,
    own: u32,
    content: u32,
    parent: u32,
    fonts: &str,
    images: &str,
    page_refs: &Vec<Ref>,
)
    requires
        old(w).wf(),
        own >= 1,
        content >= 1,
        old(w).next_id() + p.annotations@.len() < u32::MAX,
    ensures
        final(w).wf(),
        final(w).bytes() == old(w).bytes() + page_written(
            *p,
            own as nat,
            content as nat,
            old(w).next_id(),
            parent as nat,
            fonts@,
            images@,
            page_refs@.map_values(|r: Ref| r.0 as nat),
        ),
        final(w).next_id() == old(w).next_id() + p.annotations@.len(),
        keeps_offsets(old(w).offsets(), final(w).offsets()),
        offsets_cover(final(w).offsets(), old(w).next_id(), final(w).next_id()),
        has_offset(final(w).offsets(), own as nat),
        has_offset(final(w).offsets(), content as nat),
{
    let ghost ids = page_refs@.map_values(|r: Ref| r.0 as nat);
    let ghost start = w.bytes();
    let annots_first = w.next_object_id();
    let mut j: usize = 0;
    while j < p.annotations.len()
        invariant
            j <= p.annotations@.len(),
            w.wf(),
            annots_first >= 1,
            annots_first + p.annotations@.len() < u32::MAX,
            w.next_id() == annots_first + j,
            w.bytes() == start + annots_written(p.annotations@, j as nat, annots_first as nat, ids, own as nat),
            ids == page_refs@.map_values(|r: Ref| r.0 as nat),
            keeps_offsets(old(w).offsets(), w.offsets()),
            offsets_cover(w.offsets(), annots_first as nat, w.next_id()),
        decreases p.annotations@.len() - j,
    {
        let ghost before = w.offsets();
        let id = w.allocate();
        let body = annot_text(&p.annotations[j], page_refs, own);
        w.object(id, body.as_str());
        proof {
            assert forall|x: nat| annots_first <= x < w.next_id() implies #[trigger] has_offset(w.offsets(), x) by {
                if x < id.0 {
                    assert(has_offset(before, x));
                }
            }
        }
        j = j + 1;
    }
    let ghost o1 = w.offsets();
    let body = page_text(p, parent, fonts, images, content, annots_first);
    w.object(Ref(own), body.as_str());
    let ghost o2 = w.offsets();
    let empty = string_from_chars(Vec::new());
    w.compressed_stream(Ref(content), empty.as_str(), p.content.as_slice());
    proof {
        assert(has_offset(o2, own as nat));
        assert forall|x: nat| annots_first <= x < w.next_id() implies #[trigger] has_offset(w.offsets(), x) by {
            assert(has_offset(o1, x));
            assert(has_offset(o2, x));
        }
    }
    assert(empty@ =~= Seq::<char>::empty());
    assert(w.bytes() =~= start + page_written(
        *p,
        own as nat,
        content as nat,
        annots_first as nat,
        parent as nat,
        fonts@,
        images@,
        ids,
    ));
}

/// Writes every page (page references first, then content references,
/// then each page's annotations, dictionary and content) and returns the
/// page references.
pub fn write_pages(w: &mut PdfWriter, pages: &Vec<PdfPage>, pages_ref: Ref, fonts: &str, images: &str) -> (refs: Vec<Ref>)
    requires
        old(w).wf(),
        old(w).next_id() + 2 * pages@.len() + annots_before(pages@, pages@.len()) < u32::MAX,
    ensures
        final(w).wf(),
        final(w).bytes() == old(w).bytes() + pages_written(
            pages@,
            old(w).next_id(),
            pages@.len(),
            pages_ref.0 as nat,
            fonts@,
            images@,
        ),
        final(w).next_id() == old(w).next_id() + 2 * pages@.len() + annots_before(pages@, pages@.len()),
        refs@.map_values(|r: Ref| r.0 as nat) == page_ref_ids(old(w).next_id(), pages@.len()),
        keeps_offsets(old(w).offsets(), final(w).offsets()),
        offsets_cover(final(w).offsets(), old(w).next_id(), final(w).next_id()),
{
    let first = w.next_object_id();
    let n = pages.len();
    let mut refs: Vec<Ref> = Vec::new();
    let mut k: usize = 0;
    while k < 2 * n
        invariant
            k <= 2 * n,
            n == pages@.len(),
            first == old(w).next_id(),
            first + 2 * n + annots_before(pages@, n as nat) < u32::MAX,
            w.wf(),
            w.next_id() == first + k,
            w.bytes() == old(w).bytes(),
            refs@.len() == (if k <= n { k } else { n }),
            forall|j: int| 0 <= j < refs@.len() ==> #[trigger] refs@[j].0 == first + j,
            w.offsets() == old(w).offsets(),
        decreases 2 * n - k,
    {
        let r = w.allocate();
        if k < n {
            refs.push(r);
        }
        k = k + 1;
    }
    assert(refs@.map_values(|r: Ref| r.0 as nat) =~= page_ref_ids(first as nat, n as nat));
    proof {
        lemma_pages_written_zero(pages@, first as nat, pages_ref.0 as nat, fonts@, images@);
        assert(old(w).bytes() + Seq::<u8>::empty() =~= old(w).bytes());
    }
    let ghost ids = refs@.map_values(|r: Ref| r.0 as nat);
    let mut i: usize = 0;
    while i < n
        invariant
            i <= n == pages@.len(),
            first == old(w).next_id(),
            first >= 1,
            first + 2 * n + annots_before(pages@, n as nat) < u32::MAX,
            w.wf(),
            w.next_id() == first + 2 * n + annots_before(pages@, i as nat),
            w.bytes() == old(w).bytes() + pages_written(pages@, first as nat, i as nat, pages_ref.0 as nat, fonts@, images@),
            ids == refs@.map_values(|r: Ref| r.0 as nat),
            ids == page_ref_ids(first as nat, n as nat),
            keeps_offsets(old(w).offsets(), w.offsets()),
            offsets_cover(w.offsets(), first as nat, (first + i) as nat),
            offsets_cover(w.offsets(), (first + n) as nat, (first + n + i) as nat),
            offsets_cover(w.offsets(), (first + 2 * n) as nat, w.next_id()),
        decreases n - i,
    {
        proof {
            lemma_annots_before_mono(pages@, (i + 1) as nat, n as nat);
            lemma_pages_written_step(pages@, first as nat, i as nat, pages_ref.0 as nat, fonts@, images@);
        }
        let own = first + i as u32;
        let content = first + (n + i) as u32;
        let ghost before = w.offsets();
        let ghost before_next = w.next_id();
        write_page(w, &pages[i], own, content, pages_ref.0, fonts, images, &refs);
        proof {
            assert forall|x: nat| first <= x < first + i + 1 implies #[trigger] has_offset(w.offsets(), x) by {
                if x < first + i {
                    assert(has_offset(before, x));
                }
            }
            assert forall|x: nat| first + n <= x < first + n + i + 1 implies #[trigger] has_offset(w.offsets(), x) by {
                if x < first + n + i {
                    assert(has_offset(before, x));
                }
            }
            assert forall|x: nat| first + 2 * n <= x < w.next_id() implies #[trigger] has_offset(w.offsets(), x) by {
                if x < before_next {
                    assert(has_offset(before, x));
                }
            }
        }
        i = i + 1;
    }
    proof {
        assert forall|x: nat| first <= x < w.next_id() implies #[trigger] has_offset(w.offsets(), x) by {
            if x < first + n {
            } else if x < first + 2 * n {
            } else {
            }
        }
    }
    refs
}


/// A link that jumps within the document names, as its destination, the
/// page whose index it carries whenever the document has that page, so a
/// link to the last page lands on the last page; only an index past the
/// last page falls back to the link's own page. The annotation's
/// dictionary ends with that destination and the target height.
pub proof fn lemma_goto_link_names_its_target_page(a: PdfLinkAnnotation, page_refs: Seq<nat>, own: nat)
    requires
        a.action is GoTo,
    ensures
        ({
            let p = a.action->page_index;
            let target = if p < page_refs.len() {
                page_refs[p as int]
            } else {
                own
            };
            let tail = "/Dest ["@ + ref_chars(target) + " /XYZ null "@ + milli_chars(a.action->y as int) + " null]"@ + " >>"@;
            let body = annot_body(a, page_refs, own);
            &&& body.len() >= tail.len()
            &&& body.subrange(body.len() - tail.len(), body.len() as int) == tail
        }),
{
    let p = a.action->page_index;
    let target = if p < page_refs.len() {
        page_refs[p as int]
    } else {
        own
    };
    let tail = "/Dest ["@ + ref_chars(target) + " /XYZ null "@ + milli_chars(a.action->y as int) + " null]"@ + " >>"@;
    let body = annot_body(a, page_refs, own);
    let head = "<< /Type /Annot /Subtype /Link /Rect ["@ + milli_chars(a.rect.0 as int) + " "@ + milli_chars(a.rect.1 as int)
        + " "@ + milli_chars(a.rect.2 as int) + " "@ + milli_chars(a.rect.3 as int) + "] /Border [0 0 0] "@;
    assert(action_chars(a.action, page_refs, own) + " >>"@ =~= tail);
    assert(body =~= head + tail);
    assert(body.subrange(body.len() - tail.len(), body.len() as int) =~= tail);
}

} // verus!
