//! The `/Outlines` bookmark tree: one object per entry, linked to its
//! parent, siblings and children, plus the outline root.

use vstd::prelude::*;
use vstd::string::StringSliceAdditionalSpecFns;
use vstd::utf8::encode_utf8;
use crate::pdf::doc::{format_pdf_string, pdf_string_chars};
use crate::pdf::font_objects::{push_milli_chars, push_ref, push_text};
use crate::pdf::num::milli_chars;
use crate::pdf::writer::{object_bytes, ref_chars, PdfWriter, Ref, has_offset, keeps_offsets, offsets_cover};
use crate::text::{dec_chars, push_dec, string_from_chars};

verus! {

/// One bookmark: its title, where it jumps (page index and height) and
/// its child bookmarks.
pub struct PdfOutlineNode {
    pub title: String,
    pub page_index: usize,
    pub y: i64,
    pub children: Vec<PdfOutlineNode>,
}

/// How many entries `n` is, itself and all its descendants.
pub open spec fn node_size(n: PdfOutlineNode) -> nat
    decreases n, 0nat,
{
    1 + list_size(n.children@, n.children@.len())
}

/// How many entries the first `k` of `cs` are, with their descendants.
pub open spec fn list_size(cs: Seq<PdfOutlineNode>, k: nat) -> nat
    decreases cs, k,
{
    if k == 0 || k > cs.len() {
        0
    } else {
        list_size(cs, (k - 1) as nat) + node_size(cs[k - 1])
    }
}

/// A bookmark's title, parent and destination entries; the destination
/// is its own object when the page index does not exist.
pub open spec fn node_head(n: PdfOutlineNode, own: nat, parent: nat, page_refs: Seq<nat>) -> Seq<char> {
    "/Title "@ + pdf_string_chars(n.title@) + " /Parent "@ + ref_chars(parent) + " /Dest ["@ + ref_chars(
        if n.page_index < page_refs.len() {
            page_refs[n.page_index as int]
        } else {
            own
        },
    ) + " /XYZ null "@ + milli_chars(n.y as int) + " null]"@
}

/// A bookmark's previous and next sibling entries, where there are any.
pub open spec fn sibling_links(prev: Option<nat>, next: Option<nat>) -> Seq<char> {
    (match prev {
        Some(p) => " /Prev "@ + ref_chars(p),
        None => Seq::empty(),
    }) + (match next {
        Some(x) => " /Next "@ + ref_chars(x),
        None => Seq::empty(),
    })
}

/// A bookmark's first and last child and descendant count entries, where
/// it has children.
pub open spec fn child_links(n: PdfOutlineNode, own: nat) -> Seq<char> {
    let kids = n.children@.len();
    let count = list_size(n.children@, kids);
    (if kids > 0 {
        " /First "@ + ref_chars(own + 1) + " /Last "@ + ref_chars(own + 1 + list_size(n.children@, (kids - 1) as nat))
    } else {
        Seq::empty()
    }) + (if count > 0 {
        " /Count "@ + dec_chars(count)
    } else {
        Seq::empty()
    })
}

/// A bookmark's link entries.
pub open spec fn node_links(n: PdfOutlineNode, own: nat, prev: Option<nat>, next: Option<nat>) -> Seq<char> {
    sibling_links(prev, next) + child_links(n, own)
}

/// A bookmark's dictionary entries, space-separated.
pub open spec fn node_entries(
    n: PdfOutlineNode,
    own: nat,
    parent: nat,
    prev: Option<nat>,
    next: Option<nat>,
    page_refs: Seq<nat>,
) -> Seq<char> {
    node_head(n, own, parent, page_refs) + node_links(n, own, prev, next)
}

/// The reference of entry `i` of a sibling list numbered from `base`.
pub open spec fn sibling_ref(cs: Seq<PdfOutlineNode>, base: nat, i: nat) -> nat {
    base + list_size(cs, i)
}

/// The previous sibling's reference, if there is one.
pub open spec fn sib_prev(cs: Seq<PdfOutlineNode>, base: nat, i: nat) -> Option<nat> {
    if i > 0 {
        Some(sibling_ref(cs, base, (i - 1) as nat))
    } else {
        None
    }
}

/// The next sibling's reference, if there is one.
pub open spec fn sib_next(cs: Seq<PdfOutlineNode>, base: nat, i: nat) -> Option<nat> {
    if i + 1 < cs.len() {
        Some(sibling_ref(cs, base, i + 1))
    } else {
        None
    }
}

/// An optional reference as a number.
pub open spec fn opt_nat(o: Option<u32>) -> Option<nat> {
    match o {
        Some(x) => Some(x as nat),
        None => None,
    }
}

/// The first `k` entries of a sibling list numbered from `base` (depth
/// first: each entry, then its children).
#[verifier::opaque]
pub open spec fn siblings_written(cs: Seq<PdfOutlineNode>, k: nat, base: nat, parent: nat, page_refs: Seq<nat>) -> Seq<u8>
    decreases cs, k,
{
    if k == 0 || k > cs.len() {
        Seq::empty()
    } else {
        let i = (k - 1) as nat;
        let own = sibling_ref(cs, base, i);
        siblings_written(cs, i, base, parent, page_refs) + object_bytes(
            own,
            encode_utf8(
                "<< "@ + node_entries(cs[i as int], own, parent, sib_prev(cs, base, i), sib_next(cs, base, i), page_refs)
                    + " >>"@,
            ),
        ) + node_children_written(cs[i as int], own, page_refs)
    }
}

/// An entry's children, numbered right after it.
pub open spec fn node_children_written(n: PdfOutlineNode, own: nat, page_refs: Seq<nat>) -> Seq<u8>
    decreases n, 1nat,
{
    siblings_written(n.children@, n.children@.len(), own + 1, own, page_refs)
}

/// The `/Outlines` root dictionary.
pub open spec fn outlines_body(outline: Seq<PdfOutlineNode>, first: nat) -> Seq<char> {
    "<< /Type /Outlines /Count "@ + dec_chars(list_size(outline, outline.len())) + " /First "@ + ref_chars(first + 1)
        + " /Last "@ + ref_chars(first + 1 + list_size(outline, (outline.len() - 1) as nat)) + " >>"@
}

/// What writing a non-empty outline appends when the next free ID is
/// `first`: the root is `first`, the entries follow depth first.
pub open spec fn outline_written(outline: Seq<PdfOutlineNode>, first: nat, page_refs: Seq<nat>) -> Seq<u8> {
    siblings_written(outline, outline.len(), first + 1, first, page_refs) + object_bytes(
        first,
        encode_utf8(outlines_body(outline, first)),
    )
}

proof fn lemma_list_size_mono(cs: Seq<PdfOutlineNode>, a: nat, b: nat)
    requires
        a <= b <= cs.len(),
    ensures
        list_size(cs, a) <= list_size(cs, b),
    decreases b,
{
    if a < b {
        lemma_list_size_mono(cs, a, (b - 1) as nat);
    }
}

/// Counts the entries of `n`, itself included.
fn node_count(n: &PdfOutlineNode) -> (c: u64)
    requires
        node_size(*n) < u32::MAX,
    ensures
        c == node_size(*n),
    decreases n,
{
    let mut total: u64 = 1;
    let mut i: usize = 0;
    while i < n.children.len()
        invariant
            i <= n.children@.len(),
            node_size(*n) == 1 + list_size(n.children@, n.children@.len()),
            node_size(*n) < u32::MAX,
            total == 1 + list_size(n.children@, i as nat),
        decreases n.children@.len() - i,
    {
        proof {
            lemma_list_size_mono(n.children@, (i + 1) as nat, n.children@.len());
            assert(decreases_to!(*n => n.children));
            assert(decreases_to!(n.children => n.children@));
            assert(decreases_to!(n.children@ => n.children@[i as int]));
        }
        let c = node_count(&n.children[i]);
        total = total + c;
        i = i + 1;
    }
    total
}

/// Counts the entries of the first `k` of `cs`.
fn list_count(cs: &Vec<PdfOutlineNode>, k: usize) -> (c: u64)
    requires
        k <= cs@.len(),
        list_size(cs@, cs@.len()) < u32::MAX,
    ensures
        c == list_size(cs@, k as nat),
{
    let mut total: u64 = 0;
    let mut i: usize = 0;
    while i < k
        invariant
            i <= k <= cs@.len(),
            list_size(cs@, cs@.len()) < u32::MAX,
            total == list_size(cs@, i as nat),
        decreases k - i,
    {
        proof {
            lemma_list_size_mono(cs@, (i + 1) as nat, cs@.len());
        }
        let c = node_count(&cs[i]);
        total = total + c;
        i = i + 1;
    }
    total
}

/// Appends entry `n`'s title, parent and destination entries.
fn push_node_head(out: &mut Vec<char>, n: &PdfOutlineNode, own: u32, parent: u32, page_refs: &Vec<Ref>)
    ensures
        final(out)@ == old(out)@ + node_head(*n, own as nat, parent as nat, page_refs@.map_values(|r: Ref| r.0 as nat)),
{
    let ghost start = out@;
    push_text(out, "/Title ");
    let t = format_pdf_string(n.title.as_str());
    push_text(out, t.as_str());
    push_text(out, " /Parent ");
    push_ref(out, parent);
    push_text(out, " /Dest [");
    let target = if n.page_index < page_refs.len() {
        page_refs[n.page_index].0
    } else {
        own
    };
    push_ref(out, target);
    push_text(out, " /XYZ null ");
    push_milli_chars(out, n.y);
    push_text(out, " null]");
    assert(out@ =~= start + node_head(*n, own as nat, parent as nat, page_refs@.map_values(|r: Ref| r.0 as nat)));
}

/// Appends the sibling entries.
fn push_sibling_links(out: &mut Vec<char>, prev: Option<u32>, next: Option<u32>)
    ensures
        final(out)@ == old(out)@ + sibling_links(
            match prev {
                Some(p) => Some(p as nat),
                None => None,
            },
            match next {
                Some(x) => Some(x as nat),
                None => None,
            },
        ),
{
    let ghost start = out@;
    match prev {
        Some(p) => {
            push_text(out, " /Prev ");
            push_ref(out, p);
        },
        None => {},
    }
    let ghost mid = out@;
    match next {
        Some(x) => {
            push_text(out, " /Next ");
            push_ref(out, x);
        },
        None => {},
    }
    assert(out@ =~= start + sibling_links(
        match prev {
            Some(p) => Some(p as nat),
            None => None,
        },
        match next {
            Some(x) => Some(x as nat),
            None => None,
        },
    ));
}

/// Appends the child and count entries.
fn push_child_links(out: &mut Vec<char>, n: &PdfOutlineNode, own: u32)
    requires
        own + node_size(*n) <= u32::MAX,
    ensures
        final(out)@ == old(out)@ + child_links(*n, own as nat),
{
    let ghost start = out@;
    let kids = n.children.len();
    proof {
        lemma_list_size_mono(n.children@, if kids > 0 { (kids - 1) as nat } else { 0 }, kids as nat);
    }
    if kids > 0 {
        push_text(out, " /First ");
        push_ref(out, own + 1);
        push_text(out, " /Last ");
        let before_last = list_count(&n.children, kids - 1);
        push_ref(out, own + 1 + before_last as u32);
    }
    let ghost mid = out@;
    let count = list_count(&n.children, kids);
    if count > 0 {
        push_text(out, " /Count ");
        push_dec(out, count);
    }
    assert(out@ =~= start + child_links(*n, own as nat));
}

/// Appends entry `n`'s sibling, child and count entries.
fn push_node_links(out: &mut Vec<char>, n: &PdfOutlineNode, own: u32, prev: Option<u32>, next: Option<u32>)
    requires
        own + node_size(*n) <= u32::MAX,
    ensures
        final(out)@ == old(out)@ + node_links(
            *n,
            own as nat,
            match prev {
                Some(p) => Some(p as nat),
                None => None,
            },
            match next {
                Some(x) => Some(x as nat),
                None => None,
            },
        ),
{
    let ghost start = out@;
    push_sibling_links(out, prev, next);
    push_child_links(out, n, own);
    assert(out@ =~= start + node_links(
        *n,
        own as nat,
        match prev {
            Some(p) => Some(p as nat),
            None => None,
        },
        match next {
            Some(x) => Some(x as nat),
            None => None,
        },
    ));
}

/// The dictionary text of entry `n`.
fn node_text(
    n: &PdfOutlineNode,
    own: u32,
    parent: u32,
    prev: Option<u32>,
    next: Option<u32>,
    page_refs: &Vec<Ref>,
) -> (s: String)
    requires
        own + node_size(*n) <= u32::MAX,
    ensures
        s@ == "<< "@ + node_entries(
            *n,
            own as nat,
            parent as nat,
            opt_nat(prev),
            opt_nat(next),
            page_refs@.map_values(|r: Ref| r.0 as nat),
        ) + " >>"@,
{
    let mut v: Vec<char> = Vec::new();
    push_text(&mut v, "<< ");
    push_node_head(&mut v, n, own, parent, page_refs);
    push_node_links(&mut v, n, own, prev, next);
    push_text(&mut v, " >>");
    assert(v@ =~= "<< "@ + node_entries(
        *n,
        own as nat,
        parent as nat,
        match prev {
            Some(p) => Some(p as nat),
            None => None,
        },
        match next {
            Some(x) => Some(x as nat),
            None => None,
        },
        page_refs@.map_values(|r: Ref| r.0 as nat),
    ) + " >>"@);
    string_from_chars(v)
}

proof fn lemma_siblings_step(cs: Seq<PdfOutlineNode>, j: nat, base: nat, parent: nat, ids: Seq<nat>)
    requires
        j < cs.len(),
    ensures
        siblings_written(cs, j + 1, base, parent, ids) == siblings_written(cs, j, base, parent, ids) + object_bytes(
            sibling_ref(cs, base, j),
            encode_utf8(
                "<< "@ + node_entries(cs[j as int], sibling_ref(cs, base, j), parent, sib_prev(cs, base, j), sib_next(cs, base, j), ids)
                    + " >>"@,
            ),
        ) + node_children_written(cs[j as int], sibling_ref(cs, base, j), ids),
{
    reveal(siblings_written);
}

proof fn lemma_node_children(n: PdfOutlineNode, own: nat, ids: Seq<nat>)
    ensures
        node_children_written(n, own, ids) == siblings_written(n.children@, n.children@.len(), own + 1, own, ids),
{
    reveal(siblings_written);
}

proof fn lemma_siblings_zero(cs: Seq<PdfOutlineNode>, base: nat, parent: nat, ids: Seq<nat>)
    ensures
        siblings_written(cs, 0, base, parent, ids) == Seq::<u8>::empty(),
{
    reveal(siblings_written);
}

/// Writes the first `cs@.len()` entries of a sibling list numbered from
/// `base`, each followed by its children.
#[verifier::rlimit(100)]
fn write_siblings(w: &mut PdfWriter, cs: &Vec<PdfOutlineNode>, base: u32, parent: u32, page_refs: &Vec<Ref>)
    requires
        old(w).wf(),
        base >= 1,
        base + list_size(cs@, cs@.len()) <= u32::MAX,
    ensures
        final(w).wf(),
        final(w).bytes() == old(w).bytes() + siblings_written(
            cs@,
            cs@.len(),
            base as nat,
            parent as nat,
            page_refs@.map_values(|r: Ref| r.0 as nat),
        ),
        final(w).next_id() == old(w).next_id(),
        keeps_offsets(old(w).offsets(), final(w).offsets()),
        offsets_cover(final(w).offsets(), base as nat, (base + list_size(cs@, cs@.len())) as nat),
    decreases cs@,
{
    let ghost ids = page_refs@.map_values(|r: Ref| r.0 as nat);
    let ghost start = w.bytes();
    let len = cs.len();
    let mut i: usize = 0;
    proof {
        lemma_siblings_zero(cs@, base as nat, parent as nat, ids);
        assert(start + Seq::<u8>::empty() =~= start);
    }
    while i < len
        invariant
            i <= len == cs@.len(),
            base >= 1,
            base + list_size(cs@, cs@.len()) <= u32::MAX,
            w.wf(),
            w.next_id() == old(w).next_id(),
            w.bytes() == start + siblings_written(cs@, i as nat, base as nat, parent as nat, ids),
            ids == page_refs@.map_values(|r: Ref| r.0 as nat),
            keeps_offsets(old(w).offsets(), w.offsets()),
            offsets_cover(w.offsets(), base as nat, (base + list_size(cs@, i as nat)) as nat),
        decreases len - i,
    {
        proof {
            lemma_list_size_mono(cs@, (i + 1) as nat, cs@.len());
            if i > 0 {
                lemma_list_size_mono(cs@, (i - 1) as nat, cs@.len());
            }
            if i + 1 < len {
                lemma_list_size_mono(cs@, (i + 2) as nat, cs@.len());
                lemma_list_size_mono(cs@, (i + 1) as nat, (i + 2) as nat);
            }
            assert(decreases_to!(cs@ => cs@[i as int]));
            assert(decreases_to!(cs@[i as int] => cs@[i as int].children));
            assert(decreases_to!(cs@[i as int].children => cs@[i as int].children@));
        }
        let own = base + list_count(cs, i) as u32;
        let prev: Option<u32> = if i > 0 {
            Some(base + list_count(cs, i - 1) as u32)
        } else {
            None
        };
        let next: Option<u32> = if i + 1 < len {
            Some(base + list_count(cs, i + 1) as u32)
        } else {
            None
        };
        proof {
            assert(list_size(cs@, (i + 1) as nat) == list_size(cs@, i as nat) + node_size(cs@[i as int]));
            assert(node_size(cs@[i as int]) == 1 + list_size(cs@[i as int].children@, cs@[i as int].children@.len()));
        }
        let ghost before = w.bytes();
        let ghost before_offsets = w.offsets();
        let body = node_text(&cs[i], own, parent, prev, next, page_refs);
        w.object(Ref(own), body.as_str());
        let ghost mid = w.bytes();
        let ghost mid_offsets = w.offsets();
        write_siblings(w, &cs[i].children, own + 1, own, page_refs);
        proof {
            assert forall|x: nat| base <= x < base + list_size(cs@, (i + 1) as nat) implies #[trigger] has_offset(
                w.offsets(),
                x,
            ) by {
                if x < own {
                    assert(has_offset(before_offsets, x));
                    assert(has_offset(mid_offsets, x));
                } else if x == own {
                    assert(has_offset(mid_offsets, x));
                }
            }
        }
        proof {
            assert(own as nat == sibling_ref(cs@, base as nat, i as nat));
            lemma_node_children(cs@[i as int], own as nat, ids);
            assert(w.bytes() =~= before + object_bytes(own as nat, encode_utf8(body@)) + node_children_written(
                cs@[i as int],
                own as nat,
                ids,
            ));
        }
        proof {
            assert(opt_nat(prev) == sib_prev(cs@, base as nat, i as nat));
            assert(opt_nat(next) == sib_next(cs@, base as nat, i as nat));
            lemma_siblings_step(cs@, i as nat, base as nat, parent as nat, ids);
        }
        i = i + 1;
    }
}

/// Writes the bookmark tree: returns the `/Outlines` root's reference, or
/// `None` (writing nothing) when there are no bookmarks, so that a
/// document without headings shows no empty bookmark panel.
pub fn write_outline(w: &mut PdfWriter, outline: &Vec<PdfOutlineNode>, page_refs: &Vec<Ref>) -> (r: Option<Ref>)
    requires
        old(w).wf(),
        old(w).next_id() + 1 + list_size(outline@, outline@.len()) < u32::MAX,
    ensures
        final(w).wf(),
        outline@.len() == 0 ==> r is None && final(w).bytes() == old(w).bytes() && final(w).next_id() == old(w).next_id(),
        outline@.len() > 0 ==> r == Some(Ref(old(w).next_id() as u32)) && final(w).bytes() == old(w).bytes()
            + outline_written(outline@, old(w).next_id(), page_refs@.map_values(|x: Ref| x.0 as nat))
            && final(w).next_id() == old(w).next_id() + 1 + list_size(outline@, outline@.len()),
        keeps_offsets(old(w).offsets(), final(w).offsets()),
        offsets_cover(final(w).offsets(), old(w).next_id(), final(w).next_id()),
{
    let len = outline.len();
    if len == 0 {
        return None;
    }
    let root = w.allocate();
    let total = list_count(outline, len);
    let mut k: u64 = 0;
    while k < total
        invariant
            k <= total == list_size(outline@, outline@.len()),
            w.wf(),
            w.next_id() == root.0 + 1 + k,
            root.0 + 1 + list_size(outline@, outline@.len()) < u32::MAX,
            w.bytes() == old(w).bytes(),
            w.offsets() == old(w).offsets(),
        decreases total - k,
    {
        let _ = w.allocate();
        k = k + 1;
    }
    write_siblings(w, outline, root.0 + 1, root.0, page_refs);
    let ghost after_nodes = w.offsets();
    proof {
        lemma_list_size_mono(outline@, (len - 1) as nat, len as nat);
    }
    let before_last = list_count(outline, len - 1);
    let mut v: Vec<char> = Vec::new();
    push_text(&mut v, "<< /Type /Outlines /Count ");
    push_dec(&mut v, total);
    push_text(&mut v, " /First ");
    push_ref(&mut v, root.0 + 1);
    push_text(&mut v, " /Last ");
    push_ref(&mut v, root.0 + 1 + before_last as u32);
    push_text(&mut v, " >>");
    assert(v@ =~= outlines_body(outline@, root.0 as nat));
    let body = string_from_chars(v);
    w.object(root, body.as_str());
    proof {
        assert forall|x: nat| root.0 <= x < w.next_id() implies #[trigger] has_offset(w.offsets(), x) by {
            if x > root.0 {
                assert(has_offset(after_nodes, x));
            }
        }
    }
    Some(root)
}


proof fn lemma_siblings_prefix(cs: Seq<PdfOutlineNode>, a: nat, b: nat, base: nat, parent: nat, page_refs: Seq<nat>)
    requires
        a <= b <= cs.len(),
    ensures
        siblings_written(cs, a, base, parent, page_refs).len() <= siblings_written(cs, b, base, parent, page_refs).len(),
        siblings_written(cs, a, base, parent, page_refs) == siblings_written(cs, b, base, parent, page_refs).subrange(
            0,
            siblings_written(cs, a, base, parent, page_refs).len() as int,
        ),
    decreases b - a,
{
    let x = siblings_written(cs, a, base, parent, page_refs);
    if a < b {
        lemma_siblings_prefix(cs, a, (b - 1) as nat, base, parent, page_refs);
        lemma_siblings_step(cs, (b - 1) as nat, base, parent, page_refs);
        let y = siblings_written(cs, (b - 1) as nat, base, parent, page_refs);
        let z = siblings_written(cs, b, base, parent, page_refs);
        assert(y.len() <= z.len());
        assert forall|t: int| 0 <= t < x.len() implies z[t] == x[t] by {
            assert(z[t] == y[t]);
            assert(y[t] == y.subrange(0, x.len() as int)[t]);
        }
        assert(z.subrange(0, x.len() as int) =~= x);
    } else {
        assert(x.subrange(0, x.len() as int) =~= x);
    }
}

/// In a list of sibling bookmarks numbered from `base`, entry `i` is
/// numbered after the entries before it and all their descendants, and its
/// object follows theirs in what the list writes. Its dictionary links its
/// neighbours across whole subtrees: `/Next` is its own number plus the
/// size of its subtree (itself and its descendants), and `/Prev` is the
/// number from which the previous entry's subtree reaches up to it; the
/// first entry has no `/Prev` and the last no `/Next`.
pub proof fn lemma_sibling_links_skip_subtrees(
    cs: Seq<PdfOutlineNode>,
    base: nat,
    parent: nat,
    page_refs: Seq<nat>,
    i: nat,
)
    requires
        i < cs.len(),
    ensures
        ({
            let own = base + list_size(cs, i);
            let next = if i + 1 < cs.len() {
                Some(own + node_size(cs[i as int]))
            } else {
                None
            };
            let prev = if i > 0 {
                Some((own - node_size(cs[i - 1])) as nat)
            } else {
                None
            };
            let entry = siblings_written(cs, i, base, parent, page_refs) + object_bytes(
                own,
                encode_utf8("<< "@ + node_entries(cs[i as int], own, parent, prev, next, page_refs) + " >>"@),
            );
            entry == siblings_written(cs, cs.len(), base, parent, page_refs).subrange(0, entry.len() as int)
        }),
{
    let own = base + list_size(cs, i);
    lemma_siblings_prefix(cs, i + 1, cs.len(), base, parent, page_refs);
    lemma_siblings_step(cs, i, base, parent, page_refs);
    if i > 0 {
        assert(list_size(cs, i) == list_size(cs, (i - 1) as nat) + node_size(cs[i - 1]));
    }
    if i + 1 < cs.len() {
        assert(list_size(cs, i + 1) == list_size(cs, i) + node_size(cs[i as int]));
    }
    let next = if i + 1 < cs.len() {
        Some(own + node_size(cs[i as int]))
    } else {
        None
    };
    let prev = if i > 0 {
        Some((own - node_size(cs[i - 1])) as nat)
    } else {
        None
    };
    assert(sib_next(cs, base, i) == next);
    assert(sib_prev(cs, base, i) == prev);
    let entry = siblings_written(cs, i, base, parent, page_refs) + object_bytes(
        own,
        encode_utf8("<< "@ + node_entries(cs[i as int], own, parent, prev, next, page_refs) + " >>"@),
    );
    let one = siblings_written(cs, i + 1, base, parent, page_refs);
    assert(one == entry + node_children_written(cs[i as int], own, page_refs));
    assert(one.subrange(0, entry.len() as int) =~= entry);
    let all = siblings_written(cs, cs.len(), base, parent, page_refs);
    assert forall|t: int| 0 <= t < entry.len() implies all[t] == entry[t] by {
        assert(all[t] == all.subrange(0, one.len() as int)[t]);
        assert(one[t] == entry[t]);
    }
    assert(all.subrange(0, entry.len() as int) =~= entry);
}


/// A bookmark jumps to the page whose index it carries when the document
/// has that page (to its own entry otherwise), and one with children names
/// its first child as the entry right after it, its last child as the one
/// whose subtree closes its own, and counts all its descendants.
pub proof fn lemma_outline_entry_targets(
    n: PdfOutlineNode,
    own: nat,
    parent: nat,
    prev: Option<nat>,
    next: Option<nat>,
    page_refs: Seq<nat>,
)
    ensures
        ({
            let target = if n.page_index < page_refs.len() {
                page_refs[n.page_index as int]
            } else {
                own
            };
            let head = "/Title "@ + pdf_string_chars(n.title@) + " /Parent "@ + ref_chars(parent) + " /Dest ["@
                + ref_chars(target) + " /XYZ null "@ + milli_chars(n.y as int) + " null]"@;
            let e = node_entries(n, own, parent, prev, next, page_refs);
            let kids = n.children@;
            &&& e.len() >= head.len()
            &&& e.subrange(0, head.len() as int) == head
            &&& kids.len() > 0 ==> child_links(n, own) == " /First "@ + ref_chars(own + 1) + " /Last "@ + ref_chars(
                (own + node_size(n) - node_size(kids.last())) as nat,
            ) + " /Count "@ + dec_chars((node_size(n) - 1) as nat)
            &&& kids.len() == 0 ==> child_links(n, own) == Seq::<char>::empty()
        }),
{
    let target = if n.page_index < page_refs.len() {
        page_refs[n.page_index as int]
    } else {
        own
    };
    let head = "/Title "@ + pdf_string_chars(n.title@) + " /Parent "@ + ref_chars(parent) + " /Dest ["@ + ref_chars(
        target,
    ) + " /XYZ null "@ + milli_chars(n.y as int) + " null]"@;
    let e = node_entries(n, own, parent, prev, next, page_refs);
    assert(node_head(n, own, parent, page_refs) =~= head);
    assert(e.subrange(0, head.len() as int) =~= head);
    let kids = n.children@;
    if kids.len() > 0 {
        assert(list_size(kids, kids.len()) == list_size(kids, (kids.len() - 1) as nat) + node_size(kids.last()));
        assert(list_size(kids, kids.len()) > 0);
    } else {
        assert(list_size(kids, 0) == 0);
        assert(child_links(n, own) =~= Seq::<char>::empty());
    }
}

/// The `/Outlines` root names the first top-level entry as the one right
/// after it, the last as the one whose subtree ends the outline, and
/// counts every entry.
pub proof fn lemma_outline_root_links(outline: Seq<PdfOutlineNode>, first: nat)
    requires
        outline.len() > 0,
    ensures
        outlines_body(outline, first) == "<< /Type /Outlines /Count "@ + dec_chars(list_size(outline, outline.len()))
            + " /First "@ + ref_chars(first + 1) + " /Last "@ + ref_chars(
            (first + 1 + list_size(outline, outline.len()) - node_size(outline.last())) as nat,
        ) + " >>"@,
{
    assert(list_size(outline, outline.len()) == list_size(outline, (outline.len() - 1) as nat) + node_size(outline.last()));
}

} // verus!
