//! The logical structure tree of a tagged PDF: `/StructTreeRoot`, one
//! `/StructElem` per element node, and the `/ParentTree` that maps each
//! page's marked-content IDs back to their structure elements.

use vstd::prelude::*;
use vstd::utf8::encode_utf8;
use crate::pdf::doc::{format_pdf_string, pdf_string_chars};
use crate::pdf::writer::{object_bytes, ref_chars, PdfWriter, Ref, has_offset, keeps_offsets, offsets_cover};
use crate::text::{chars_of, dec_chars, push_all, push_dec, string_from_chars};

verus! {

/// One node of the structure tree: an element with a standard tag name
/// and children, or a reference to one marked-content sequence.
pub enum PdfStructNode {
    Elem {
        tag: &'static str,
        /// `/Alt`, meaningful for figures only.
        alt: Option<String>,
        /// `/A << .. >>`, a raw attribute fragment (table headers).
        attrs: Option<&'static str>,
        children: Vec<PdfStructNode>,
    },
    /// Marked content `mcid` on page `page_index`.
    ContentRef { page_index: usize, mcid: u32 },
}

/// How many element nodes `n` holds, itself included.
pub open spec fn elem_count(n: PdfStructNode) -> nat
    decreases n, 0nat,
{
    match n {
        PdfStructNode::Elem { children, .. } => 1 + elems_before(children@, children@.len()),
        PdfStructNode::ContentRef { .. } => 0,
    }
}

/// How many element nodes the first `k` of `cs` hold.
pub open spec fn elems_before(cs: Seq<PdfStructNode>, k: nat) -> nat
    decreases cs, k,
{
    if k == 0 || k > cs.len() {
        0
    } else {
        elems_before(cs, (k - 1) as nat) + elem_count(cs[k - 1])
    }
}

/// Every content reference in `n` names one of `pages` pages.
pub open spec fn pages_ok(n: PdfStructNode, pages: nat) -> bool
    decreases n, 0nat,
{
    match n {
        PdfStructNode::Elem { children, .. } => children_pages_ok(children@, children@.len(), pages),
        PdfStructNode::ContentRef { page_index, .. } => page_index < pages,
    }
}

/// `pages_ok` for the first `k` of `cs`.
pub open spec fn children_pages_ok(cs: Seq<PdfStructNode>, k: nat, pages: nat) -> bool
    decreases cs, k,
{
    if k == 0 || k > cs.len() {
        true
    } else {
        children_pages_ok(cs, (k - 1) as nat, pages) && pages_ok(cs[k - 1], pages)
    }
}

/// A child's `/K` entry: an element's reference, or an `/MCR` dictionary.
pub open spec fn k_entry(c: PdfStructNode, child_ref: nat, pages: Seq<Ref>) -> Seq<char> {
    match c {
        PdfStructNode::Elem { .. } => ref_chars(child_ref),
        PdfStructNode::ContentRef { page_index, mcid } => "<< /Type /MCR /Pg "@ + ref_chars(pages[page_index as int].0 as nat)
            + " /MCID "@ + dec_chars(mcid as nat) + " >>"@,
    }
}

/// The `/K` entries of the first `k` children, space-separated; element
/// children are numbered from `next` on, in order.
pub open spec fn k_entries(cs: Seq<PdfStructNode>, k: nat, next: nat, pages: Seq<Ref>) -> Seq<char>
    decreases k,
{
    if k == 0 {
        Seq::empty()
    } else {
        let e = k_entry(cs[k - 1], next + elems_before(cs, (k - 1) as nat), pages);
        if k == 1 {
            e
        } else {
            k_entries(cs, (k - 1) as nat, next, pages) + seq![' '] + e
        }
    }
}

/// An element's dictionary.
pub open spec fn elem_body(n: PdfStructNode, self_ref: nat, parent: nat, pages: Seq<Ref>) -> Seq<char> {
    match n {
        PdfStructNode::Elem { tag, alt, attrs, children } => "<< /Type /StructElem /S /"@ + tag@ + " /P "@ + ref_chars(
            parent,
        ) + " /K ["@ + k_entries(children@, children@.len(), self_ref + 1, pages) + "]"@ + match alt {
            Some(a) => " /Alt "@ + pdf_string_chars(a@),
            None => Seq::empty(),
        } + match attrs {
            Some(a) => " /A << "@ + a@ + " >>"@,
            None => Seq::empty(),
        } + " >>"@,
        PdfStructNode::ContentRef { .. } => Seq::empty(),
    }
}

/// What writing element `n` (numbered `self_ref`, under `parent`)
/// appends: its element children's subtrees in order, then its own
/// object.
pub open spec fn elem_written(n: PdfStructNode, self_ref: nat, parent: nat, pages: Seq<Ref>) -> Seq<u8>
    decreases n, 0nat,
{
    match n {
        PdfStructNode::Elem { children, .. } => children_written(
            children@,
            children@.len(),
            self_ref,
            self_ref + 1,
            pages,
        ) + object_bytes(self_ref, encode_utf8(elem_body(n, self_ref, parent, pages))),
        PdfStructNode::ContentRef { .. } => Seq::empty(),
    }
}

/// The subtrees of the first `k` children of element `self_ref`.
pub open spec fn children_written(cs: Seq<PdfStructNode>, k: nat, self_ref: nat, next: nat, pages: Seq<Ref>) -> Seq<u8>
    decreases cs, k,
{
    if k == 0 || k > cs.len() {
        Seq::empty()
    } else {
        children_written(cs, (k - 1) as nat, self_ref, next, pages) + elem_written(
            cs[k - 1],
            next + elems_before(cs, (k - 1) as nat),
            self_ref,
            pages,
        )
    }
}

/// The parent-tree records writing `n` makes, in order: for each content
/// reference, (page, MCID, the element that holds it).
pub open spec fn elem_records(n: PdfStructNode, self_ref: nat) -> Seq<(nat, nat, nat)>
    decreases n, 0nat,
{
    match n {
        PdfStructNode::Elem { children, .. } => children_records(children@, children@.len(), self_ref, self_ref + 1),
        PdfStructNode::ContentRef { .. } => Seq::empty(),
    }
}

/// The records of the first `k` children of element `self_ref`.
pub open spec fn children_records(cs: Seq<PdfStructNode>, k: nat, self_ref: nat, next: nat) -> Seq<(nat, nat, nat)>
    decreases cs, k,
{
    if k == 0 || k > cs.len() {
        Seq::empty()
    } else {
        children_records(cs, (k - 1) as nat, self_ref, next) + match cs[k - 1] {
            PdfStructNode::Elem { .. } => elem_records(cs[k - 1], next + elems_before(cs, (k - 1) as nat)),
            PdfStructNode::ContentRef { page_index, mcid } => seq![(page_index as nat, mcid as nat, self_ref)],
        }
    }
}

/// `row` grown with empty entries to at least `len`.
pub open spec fn grown(row: Seq<Option<nat>>, len: nat) -> Seq<Option<nat>> {
    if row.len() >= len {
        row
    } else {
        row + Seq::new((len - row.len()) as nat, |i: int| None::<nat>)
    }
}

/// The parent table after one record.
pub open spec fn apply_record(rows: Seq<Seq<Option<nat>>>, rec: (nat, nat, nat)) -> Seq<Seq<Option<nat>>> {
    rows.update(rec.0 as int, grown(rows[rec.0 as int], rec.1 + 1).update(rec.1 as int, Some(rec.2)))
}

/// The parent table after all `recs`, in order.
pub open spec fn apply_records(rows: Seq<Seq<Option<nat>>>, recs: Seq<(nat, nat, nat)>) -> Seq<Seq<Option<nat>>>
    decreases recs.len(),
{
    if recs.len() == 0 {
        rows
    } else {
        apply_record(apply_records(rows, recs.drop_last()), recs.last())
    }
}

/// The parent table's rows as references.
pub open spec fn rows_view(rows: Seq<Vec<Option<Ref>>>) -> Seq<Seq<Option<nat>>> {
    rows.map_values(|r: Vec<Option<Ref>>| r@.map_values(|o: Option<Ref>| match o {
        Some(x) => Some(x.0 as nat),
        None => None,
    }))
}

/// One row's entries, space-separated: a reference, or `null`.
pub open spec fn row_entries(row: Seq<Option<nat>>) -> Seq<char>
    decreases row.len(),
{
    if row.len() == 0 {
        Seq::empty()
    } else {
        let e = match row.last() {
            Some(r) => ref_chars(r),
            None => "null"@,
        };
        if row.len() == 1 {
            e
        } else {
            row_entries(row.drop_last()) + seq![' '] + e
        }
    }
}

/// The `/Nums` array's contents for the first `k` rows: `i [entries]`.
pub open spec fn nums_entries(rows: Seq<Seq<Option<nat>>>, k: nat) -> Seq<char>
    decreases k,
{
    if k == 0 {
        Seq::empty()
    } else {
        let e = dec_chars((k - 1) as nat) + " ["@ + row_entries(rows[k - 1]) + "]"@;
        if k == 1 {
            e
        } else {
            nums_entries(rows, (k - 1) as nat) + seq![' '] + e
        }
    }
}

proof fn lemma_elems_before_mono(cs: Seq<PdfStructNode>, a: nat, b: nat)
    requires
        a <= b <= cs.len(),
    ensures
        elems_before(cs, a) <= elems_before(cs, b),
    decreases b,
{
    if a < b {
        lemma_elems_before_mono(cs, a, (b - 1) as nat);
    }
}

/// Counts the element nodes of `n`.
fn count_elems(n: &PdfStructNode) -> (c: u64)
    requires
        elem_count(*n) < u32::MAX,
    ensures
        c == elem_count(*n),
    decreases n,
{
    match n {
        PdfStructNode::Elem { children, .. } => {
            let mut total: u64 = 1;
            let mut i: usize = 0;
            while i < children.len()
                invariant
                    i <= children@.len(),
                    elem_count(*n) == 1 + elems_before(children@, children@.len()),
                    elem_count(*n) < u32::MAX,
                    total == 1 + elems_before(children@, i as nat),
                    (*n)->children == *children,
                decreases children@.len() - i,
            {
                proof {
                    lemma_elems_before_mono(children@, (i + 1) as nat, children@.len());
                    assert(decreases_to!(*n => (*n)->children));
                    assert(decreases_to!((*n)->children => (*n)->children@));
                    assert(decreases_to!((*n)->children@ => (*n)->children@[i as int]));
                }
                let c = count_elems(&children[i]);
                total = total + c;
                i = i + 1;
            }
            total
        },
        PdfStructNode::ContentRef { .. } => 0,
    }
}

/// Records `r` as the parent of marked content `mcid` on page `page`.
fn record_parent(rows: &mut Vec<Vec<Option<Ref>>>, page: usize, mcid: u32, r: Ref)
    requires
        page < old(rows)@.len(),
    ensures
        final(rows)@.len() == old(rows)@.len(),
        rows_view(final(rows)@) == apply_record(rows_view(old(rows)@), (page as nat, mcid as nat, r.0 as nat)),
{
    let ghost before = rows@;
    let mut row = rows.remove(page);
    let ghost orig = row@;
    let m = mcid as usize;
    while row.len() <= m
        invariant
            orig.len() <= row@.len() <= m + 1 || row@ == orig,
            row@.len() >= orig.len(),
            row@.subrange(0, orig.len() as int) == orig,
            forall|k: int| orig.len() <= k < row@.len() ==> row@[k] is None,
        decreases m + 1 - row@.len(),
    {
        row.push(None);
    }
    row.set(m, Some(r));
    rows.insert(page, row);
    proof {
        let v = |o: Option<Ref>| match o {
            Some(x) => Some(x.0 as nat),
            None => None::<nat>,
        };
        let old_view = rows_view(before);
        assert(old_view[page as int] =~= orig.map_values(v));
        let expect = grown(old_view[page as int], (mcid + 1) as nat).update(mcid as int, Some(r.0 as nat));
        assert(row@.map_values(v) =~= expect);
        assert(rows_view(rows@) =~= apply_record(old_view, (page as nat, mcid as nat, r.0 as nat)));
    }
}

proof fn lemma_children_pages_ok(cs: Seq<PdfStructNode>, k: nat, pages: nat, j: int)
    requires
        children_pages_ok(cs, k, pages),
        k <= cs.len(),
        0 <= j < k,
    ensures
        pages_ok(cs[j], pages),
    decreases k,
{
    if j < k - 1 {
        lemma_children_pages_ok(cs, (k - 1) as nat, pages, j);
    }
}

proof fn lemma_apply_records_concat(rows: Seq<Seq<Option<nat>>>, a: Seq<(nat, nat, nat)>, b: Seq<(nat, nat, nat)>)
    ensures
        apply_records(rows, a + b) == apply_records(apply_records(rows, a), b),
    decreases b.len(),
{
    if b.len() == 0 {
        assert(a + b =~= a);
    } else {
        lemma_apply_records_concat(rows, a, b.drop_last());
        assert((a + b).drop_last() =~= a + b.drop_last());
        assert((a + b).last() == b.last());
    }
}

/// Appends `N 0 R`.
fn push_ref_chars(out: &mut Vec<char>, id: u32)
    ensures
        final(out)@ == old(out)@ + ref_chars(id as nat),
{
    let ghost start = out@;
    push_dec(out, id as u64);
    out.push(' ');
    out.push('0');
    out.push(' ');
    out.push('R');
    assert(out@ =~= start + ref_chars(id as nat));
}

/// Appends the characters of `s`.
fn push_str_chars(out: &mut Vec<char>, s: &str)
    ensures
        final(out)@ == old(out)@ + s@,
{
    let cs = chars_of(s);
    push_all(out, &cs);
}

/// Appends a child's `/K` entry.
fn push_k_entry(out: &mut Vec<char>, c: &PdfStructNode, child_ref: u32, pages: &Vec<Ref>)
    requires
        c is ContentRef ==> c->page_index < pages@.len(),
    ensures
        final(out)@ == old(out)@ + k_entry(*c, child_ref as nat, pages@),
{
    let ghost start = out@;
    match c {
        PdfStructNode::Elem { .. } => {
            push_ref_chars(out, child_ref);
        },
        PdfStructNode::ContentRef { page_index, mcid } => {
            push_str_chars(out, "<< /Type /MCR /Pg ");
            push_ref_chars(out, pages[*page_index].0);
            push_str_chars(out, " /MCID ");
            push_dec(out, *mcid as u64);
            push_str_chars(out, " >>");
        },
    }
    assert(out@ =~= start + k_entry(*c, child_ref as nat, pages@));
}

/// Writes element `n` (numbered `self_ref`, under `parent`) after its
/// element children's subtrees, recording each content reference's
/// parent in `rows`.
fn write_elem(
    w: &mut PdfWriter,
    n: &PdfStructNode,
    self_ref: u32,
    parent: u32,
    pages: &Vec<Ref>,
    rows: &mut Vec<Vec<Option<Ref>>>,
)
    requires
        old(w).wf(),
        n is Elem,
        self_ref >= 1,
        self_ref + elem_count(*n) <= u32::MAX,
        pages_ok(*n, pages@.len()),
        old(rows)@.len() == pages@.len(),
    ensures
        final(w).wf(),
        final(w).bytes() == old(w).bytes() + elem_written(*n, self_ref as nat, parent as nat, pages@),
        final(w).next_id() == old(w).next_id(),
        final(rows)@.len() == old(rows)@.len(),
        rows_view(final(rows)@) == apply_records(rows_view(old(rows)@), elem_records(*n, self_ref as nat)),
        keeps_offsets(old(w).offsets(), final(w).offsets()),
        offsets_cover(final(w).offsets(), self_ref as nat, (self_ref + elem_count(*n)) as nat),
    decreases n,
{
    match n {
        PdfStructNode::Elem { tag, alt, attrs, children } => {
            let ghost start = w.bytes();
            let ghost rv0 = rows_view(rows@);
            let ghost cs = children@;
            let mut kc: Vec<char> = Vec::new();
            let mut next: u32 = self_ref + 1;
            let mut i: usize = 0;
            while i < children.len()
                invariant
                    i <= cs.len(),
                    cs == children@,
                    (*n)->children == *children,
                    w.wf(),
                    w.next_id() == old(w).next_id(),
                    self_ref >= 1,
                    elem_count(*n) == 1 + elems_before(cs, cs.len()),
                    self_ref + elem_count(*n) <= u32::MAX,
                    next == self_ref + 1 + elems_before(cs, i as nat),
                    children_pages_ok(cs, cs.len(), pages@.len()),
                    rows@.len() == pages@.len(),
                    kc@ == k_entries(cs, i as nat, (self_ref + 1) as nat, pages@),
                    w.bytes() == start + children_written(cs, i as nat, self_ref as nat, (self_ref + 1) as nat, pages@),
                    rows_view(rows@) == apply_records(rv0, children_records(cs, i as nat, self_ref as nat, (self_ref + 1) as nat)),
                    keeps_offsets(old(w).offsets(), w.offsets()),
                    offsets_cover(w.offsets(), (self_ref + 1) as nat, next as nat),
                decreases cs.len() - i,
            {
                let child = &children[i];
                proof {
                    lemma_children_pages_ok(cs, cs.len(), pages@.len(), i as int);
                    lemma_elems_before_mono(cs, (i + 1) as nat, cs.len());
                    assert(decreases_to!(*n => (*n)->children));
                    assert(decreases_to!((*n)->children => (*n)->children@));
                    assert(decreases_to!((*n)->children@ => (*n)->children@[i as int]));
                }
                let ghost before_rows = rows_view(rows@);
                let ghost before_recs = children_records(cs, i as nat, self_ref as nat, (self_ref + 1) as nat);
                if i > 0 {
                    kc.push(' ');
                }
                push_k_entry(&mut kc, child, next, pages);
                match child {
                    PdfStructNode::Elem { .. } => {
                        let c = count_elems(child);
                        let ghost before_offsets = w.offsets();
                        write_elem(w, child, next, self_ref, pages, rows);
                        proof {
                            assert forall|x: nat| self_ref + 1 <= x < next + c implies #[trigger] has_offset(
                                w.offsets(),
                                x,
                            ) by {
                                if x < next {
                                    assert(has_offset(before_offsets, x));
                                }
                            }
                            lemma_apply_records_concat(rv0, before_recs, elem_records(*child, next as nat));
                        }
                        next = next + (c as u32);
                    },
                    PdfStructNode::ContentRef { page_index, mcid } => {
                        record_parent(rows, *page_index, *mcid, Ref(self_ref));
                        proof {
                            lemma_apply_records_concat(
                                rv0,
                                before_recs,
                                seq![(*page_index as nat, *mcid as nat, self_ref as nat)],
                            );
                            let one = seq![(*page_index as nat, *mcid as nat, self_ref as nat)];
                            assert(one.drop_last() =~= Seq::<(nat, nat, nat)>::empty());
                            assert(one.last() == (*page_index as nat, *mcid as nat, self_ref as nat));
                            assert(apply_records(before_rows, one.drop_last()) == before_rows);
                        }
                    },
                }
                i = i + 1;
                proof {
                    assert(cs[i - 1] == *child);
                    assert(elems_before(cs, i as nat) == elems_before(cs, (i - 1) as nat) + elem_count(cs[i - 1]));
                    assert(children_written(cs, i as nat, self_ref as nat, (self_ref + 1) as nat, pages@) == children_written(
                        cs,
                        (i - 1) as nat,
                        self_ref as nat,
                        (self_ref + 1) as nat,
                        pages@,
                    ) + elem_written(cs[i - 1], (self_ref + 1 + elems_before(cs, (i - 1) as nat)) as nat, self_ref as nat, pages@));
                    if cs[i - 1] is ContentRef {
                        assert(elem_written(cs[i - 1], (self_ref + 1 + elems_before(cs, (i - 1) as nat)) as nat, self_ref as nat, pages@)
                            =~= Seq::<u8>::empty());
                    }
                    if i == 1 {
                        assert(kc@ =~= k_entries(cs, i as nat, (self_ref + 1) as nat, pages@));
                    } else {
                        assert(kc@ =~= k_entries(cs, i as nat, (self_ref + 1) as nat, pages@));
                    }
                }
            }
            let mut body: Vec<char> = Vec::new();
            push_str_chars(&mut body, "<< /Type /StructElem /S /");
            push_str_chars(&mut body, tag);
            push_str_chars(&mut body, " /P ");
            push_ref_chars(&mut body, parent);
            push_str_chars(&mut body, " /K [");
            push_all(&mut body, &kc);
            push_str_chars(&mut body, "]");
            match alt {
                Some(a) => {
                    push_str_chars(&mut body, " /Alt ");
                    let f = format_pdf_string(a.as_str());
                    push_str_chars(&mut body, f.as_str());
                },
                None => {},
            }
            match attrs {
                Some(a) => {
                    push_str_chars(&mut body, " /A << ");
                    push_str_chars(&mut body, a);
                    push_str_chars(&mut body, " >>");
                },
                None => {},
            }
            push_str_chars(&mut body, " >>");
            assert(body@ =~= elem_body(*n, self_ref as nat, parent as nat, pages@));
            let text = string_from_chars(body);
            let ghost before_offsets = w.offsets();
            w.object(Ref(self_ref), text.as_str());
            proof {
                assert forall|x: nat| self_ref <= x < self_ref + elem_count(*n) implies #[trigger] has_offset(
                    w.offsets(),
                    x,
                ) by {
                    if x > self_ref {
                        assert(has_offset(before_offsets, x));
                    }
                }
            }
        },
        PdfStructNode::ContentRef { .. } => {},
    }
}

/// The empty parent table: one empty row per page.
pub open spec fn empty_rows(pages: nat) -> Seq<Seq<Option<nat>>> {
    Seq::new(pages, |i: int| Seq::<Option<nat>>::empty())
}

/// The `/StructTreeRoot` dictionary.
pub open spec fn tree_root_body(first: nat, parent_tree: nat, pages: nat) -> Seq<char> {
    "<< /Type /StructTreeRoot /K ["@ + ref_chars(first + 1) + "] /ParentTree "@ + ref_chars(parent_tree)
        + " /ParentTreeNextKey "@ + dec_chars(pages) + " >>"@
}

/// What writing the structure tree of `root` appends when the next free
/// object ID is `first`: `first` is the tree root, the elements follow in
/// depth-first order, the parent tree comes last.
pub open spec fn struct_tree_written(root: PdfStructNode, first: nat, pages: Seq<Ref>) -> Seq<u8> {
    let rows = apply_records(empty_rows(pages.len()), elem_records(root, first + 1));
    let parent_tree = first + 1 + elem_count(root);
    elem_written(root, first + 1, first, pages) + object_bytes(
        parent_tree,
        encode_utf8("<< /Nums ["@ + nums_entries(rows, rows.len()) + "] >>"@),
    ) + object_bytes(first, encode_utf8(tree_root_body(first, parent_tree, pages.len())))
}

/// Appends one parent-table row's entries.
fn push_row_entries(out: &mut Vec<char>, row: &Vec<Option<Ref>>)
    ensures
        final(out)@ == old(out)@ + row_entries(
            row@.map_values(
                |o: Option<Ref>|
                    match o {
                        Some(x) => Some(x.0 as nat),
                        None => None,
                    },
            ),
        ),
{
    let ghost start = out@;
    let ghost v = row@.map_values(
        |o: Option<Ref>|
            match o {
                Some(x) => Some(x.0 as nat),
                None => None,
            },
    );
    let mut i: usize = 0;
    while i < row.len()
        invariant
            i <= row@.len() == v.len(),
            v == row@.map_values(
                |o: Option<Ref>|
                    match o {
                        Some(x) => Some(x.0 as nat),
                        None => None,
                    },
            ),
            out@ == start + row_entries(v.take(i as int)),
        decreases row@.len() - i,
    {
        assert(v.take(i + 1).drop_last() =~= v.take(i as int));
        if i > 0 {
            out.push(' ');
        }
        match row[i] {
            Some(r) => push_ref_chars(out, r.0),
            None => push_str_chars(out, "null"),
        }
        i = i + 1;
        assert(out@ =~= start + row_entries(v.take(i as int)));
    }
    assert(v.take(v.len() as int) =~= v);
}

/// Writes the whole structure tree (every element, the tree root and the
/// parent tree) and returns the tree root's reference and each page's
/// `/StructParents` key (the page indices, in order).
pub fn write_struct_tree(w: &mut PdfWriter, root: &PdfStructNode, page_refs: &Vec<Ref>) -> (r: (Ref, Vec<usize>))
    requires
        old(w).wf(),
        root is Elem,
        pages_ok(*root, page_refs@.len()),
        old(w).next_id() + elem_count(*root) + 2 < u32::MAX,
    ensures
        final(w).wf(),
        final(w).bytes() == old(w).bytes() + struct_tree_written(*root, old(w).next_id(), page_refs@),
        final(w).next_id() == old(w).next_id() + elem_count(*root) + 2,
        r.0.0 == old(w).next_id(),
        r.1@ == Seq::new(page_refs@.len(), |i: int| i as usize),
        keeps_offsets(old(w).offsets(), final(w).offsets()),
        offsets_cover(final(w).offsets(), old(w).next_id(), final(w).next_id()),
{
    let tree_root = w.allocate();
    let count = count_elems(root);
    let mut k: u64 = 0;
    while k < count
        invariant
            k <= count == elem_count(*root),
            w.wf(),
            w.next_id() == tree_root.0 + 1 + k,
            tree_root.0 + elem_count(*root) + 2 < u32::MAX,
            w.bytes() == old(w).bytes(),
            w.offsets() == old(w).offsets(),
        decreases count - k,
    {
        let _ = w.allocate();
        k = k + 1;
    }
    let mut rows: Vec<Vec<Option<Ref>>> = Vec::new();
    let mut p: usize = 0;
    while p < page_refs.len()
        invariant
            p <= page_refs@.len(),
            rows@.len() == p,
            rows_view(rows@) == empty_rows(p as nat),
        decreases page_refs@.len() - p,
    {
        let ghost before = rows@;
        let fresh: Vec<Option<Ref>> = Vec::new();
        rows.push(fresh);
        p = p + 1;
        proof {
            assert forall|q: int| 0 <= q < p implies #[trigger] rows_view(rows@)[q] == empty_rows(p as nat)[q] by {
                if q < p - 1 {
                    assert(rows@[q] == before[q]);
                    assert(rows_view(before)[q] == empty_rows((p - 1) as nat)[q]);
                } else {
                    assert(rows@[q]@ =~= Seq::<Option<Ref>>::empty());
                    assert(rows_view(rows@)[q] =~= Seq::<Option<nat>>::empty());
                }
            }
            assert(rows_view(rows@) =~= empty_rows(p as nat));
        }
    }
    write_elem(w, root, tree_root.0 + 1, tree_root.0, page_refs, &mut rows);
    let ghost after_elems = w.offsets();
    let parent_tree = w.allocate();
    let ghost final_rows = rows_view(rows@);
    let mut nums: Vec<char> = Vec::new();
    push_str_chars(&mut nums, "<< /Nums [");
    let ghost nums_start = nums@;
    let mut i: usize = 0;
    while i < rows.len()
        invariant
            i <= rows@.len(),
            final_rows == rows_view(rows@),
            nums@ == nums_start + nums_entries(final_rows, i as nat),
        decreases rows@.len() - i,
    {
        if i > 0 {
            nums.push(' ');
        }
        push_dec(&mut nums, i as u64);
        push_str_chars(&mut nums, " [");
        push_row_entries(&mut nums, &rows[i]);
        push_str_chars(&mut nums, "]");
        i = i + 1;
        assert(nums@ =~= nums_start + nums_entries(final_rows, i as nat));
    }
    push_str_chars(&mut nums, "] >>");
    let nums_text = string_from_chars(nums);
    w.object(parent_tree, nums_text.as_str());
    let ghost after_parent_tree = w.offsets();
    let mut body: Vec<char> = Vec::new();
    push_str_chars(&mut body, "<< /Type /StructTreeRoot /K [");
    push_ref_chars(&mut body, tree_root.0 + 1);
    push_str_chars(&mut body, "] /ParentTree ");
    push_ref_chars(&mut body, parent_tree.0);
    push_str_chars(&mut body, " /ParentTreeNextKey ");
    push_dec(&mut body, page_refs.len() as u64);
    push_str_chars(&mut body, " >>");
    assert(body@ =~= tree_root_body(tree_root.0 as nat, parent_tree.0 as nat, page_refs@.len()));
    let body_text = string_from_chars(body);
    w.object(tree_root, body_text.as_str());
    proof {
        assert forall|x: nat| tree_root.0 <= x < w.next_id() implies #[trigger] has_offset(w.offsets(), x) by {
            if tree_root.0 < x < parent_tree.0 {
                assert(has_offset(after_elems, x));
                assert(has_offset(after_parent_tree, x));
            } else if x == parent_tree.0 {
                assert(has_offset(after_parent_tree, x));
            }
        }
    }
    let mut keys: Vec<usize> = Vec::new();
    let mut j: usize = 0;
    while j < page_refs.len()
        invariant
            j <= page_refs@.len(),
            keys@ == Seq::new(j as nat, |q: int| q as usize),
        decreases page_refs@.len() - j,
    {
        keys.push(j);
        j = j + 1;
        assert(keys@ =~= Seq::new(j as nat, |q: int| q as usize));
    }
    assert(w.bytes() =~= old(w).bytes() + struct_tree_written(*root, old(w).next_id(), page_refs@));
    (tree_root, keys)
}

} // verus!
