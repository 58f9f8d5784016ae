//! Table-of-contents headings and their anchors.

use vstd::prelude::*;
use crate::text::{chars_of, dec_chars, push_all, push_dec, string_from_chars};
use crate::layout::text::{FontResolver, FontMetrics, width_of, width_limit, measure, lemma_width_concat};
use crate::style::TextStyle;

verus! {

/// One heading found in the document, with everything its table of
/// contents entry needs except the page number.
#[derive(Clone, Debug)]
pub struct TocHeading {
    pub depth: u8,
    pub title: String,
    /// The heading's own anchor, or a synthetic one starting with NUL (no
    /// author-written anchor does, so the two never collide).
    pub anchor: String,
}

/// The synthetic anchor of heading `id`: NUL, `toc-heading-`, the number.
pub open spec fn synthetic_anchor_chars(id: nat) -> Seq<char> {
    seq!['\u{0}', 't', 'o', 'c', '-', 'h', 'e', 'a', 'd', 'i', 'n', 'g', '-'] + dec_chars(id)
}

/// The anchor assigned to a heading that has none of its own.
pub fn synthetic_anchor(id: usize) -> (s: String)
    ensures
        s@ == synthetic_anchor_chars(id as nat),
{
    let mut v: Vec<char> = Vec::new();
    v.push('\u{0}');
    v.push('t');
    v.push('o');
    v.push('c');
    v.push('-');
    v.push('h');
    v.push('e');
    v.push('a');
    v.push('d');
    v.push('i');
    v.push('n');
    v.push('g');
    v.push('-');
    push_dec(&mut v, id as u64);
    assert(v@ =~= synthetic_anchor_chars(id as nat));
    string_from_chars(v)
}

/// Distinct headings get distinct synthetic anchors.
pub proof fn lemma_synthetic_anchor_injective(a: nat, b: nat)
    requires
        a != b,
    ensures
        synthetic_anchor_chars(a) != synthetic_anchor_chars(b),
{
    lemma_dec_chars_injective(a, b);
    if synthetic_anchor_chars(a) == synthetic_anchor_chars(b) {
        let p = synthetic_anchor_chars(a);
        assert(dec_chars(a) =~= p.skip(13));
        assert(dec_chars(b) =~= p.skip(13));
    }
}

proof fn lemma_dec_chars_injective(a: nat, b: nat)
    requires
        a != b,
    ensures
        dec_chars(a) != dec_chars(b),
    decreases a + b,
{
    crate::text::lemma_dec_chars_len(a);
    crate::text::lemma_dec_chars_len(b);
    if dec_chars(a) == dec_chars(b) {
        if a < 10 && b < 10 {
            assert(dec_chars(a)[0] == dec_chars(b)[0]);
        } else if a < 10 {
            crate::text::lemma_dec_chars_len(b / 10);
        } else if b < 10 {
            crate::text::lemma_dec_chars_len(a / 10);
        } else {
            assert(dec_chars(a).last() == dec_chars(b).last());
            assert(a % 10 == b % 10);
            assert(dec_chars(a / 10) =~= dec_chars(a).drop_last());
            assert(dec_chars(b / 10) =~= dec_chars(b).drop_last());
            lemma_dec_chars_injective(a / 10, b / 10);
        }
    }
}

/// A heading's title indented by two spaces per level below the first.
pub open spec fn indented_title(depth: u8, title: Seq<char>) -> Seq<char> {
    Seq::new((2 * (if depth > 0 {
        depth - 1
    } else {
        0
    })) as nat, |i: int| ' ') + title
}

/// The number of leader characters that fill what the title, two spaces
/// and the page number leave of the line: as many whole ones as fit.
pub open spec fn leader_count<M: FontMetrics>(
    m: &M,
    size: u32,
    title: Seq<char>,
    page_text: Seq<char>,
    limit: nat,
    leader: char,
) -> nat {
    let base = width_of(m, size, title) + 2 * width_of(m, size, seq![' ']) + width_of(m, size, page_text);
    let available: nat = if base <= limit {
        (limit - base) as nat
    } else {
        0
    };
    let lw = width_of(m, size, seq![leader]);
    if lw > 0 {
        available / lw
    } else {
        0
    }
}

/// One entry's line: the indented title, a space, the leader run, a
/// space and the page number.
pub open spec fn toc_line<M: FontMetrics>(
    m: &M,
    size: u32,
    depth: u8,
    title: Seq<char>,
    page_text: Seq<char>,
    limit: nat,
    leader: char,
) -> Seq<char> {
    let t = indented_title(depth, title);
    let n = leader_count(m, size, t, page_text, limit, leader);
    t + seq![' '] + Seq::new(n, |i: int| leader) + seq![' '] + page_text
}

/// A table-of-contents entry's line, `{indent}{title} {leaders} {page}`,
/// with as many leader characters as fit in `area_width` (thousandths of
/// a point), so that the page numbers line up.
pub fn toc_entry_line<R: FontResolver>(
    r: &R,
    style: &TextStyle,
    heading: &TocHeading,
    page_text: &str,
    area_width: i64,
    leader: char,
) -> (line: String)
    ensures
        line@ == toc_line(
            &r.metrics_of(style.font),
            style.size,
            heading.depth,
            heading.title@,
            page_text@,
            width_limit(area_width),
            leader,
        ),
{
    let m = r.metrics(style.font);
    let limit: u128 = if area_width > 0 {
        area_width as u128 * 1000
    } else {
        0
    };
    let levels: u8 = if heading.depth > 0 {
        heading.depth - 1
    } else {
        0
    };
    let mut title: Vec<char> = Vec::new();
    let mut i: u8 = 0;
    while i < levels
        invariant
            i <= levels,
            title@ == Seq::new((2 * i) as nat, |j: int| ' '),
        decreases levels - i,
    {
        title.push(' ');
        title.push(' ');
        i = i + 1;
        assert(title@ =~= Seq::new((2 * i) as nat, |j: int| ' '));
    }
    let own = chars_of(&heading.title);
    push_all(&mut title, &own);
    assert(title@ =~= indented_title(heading.depth, heading.title@));
    let page = chars_of(page_text);
    let mut space: Vec<char> = Vec::new();
    space.push(' ');
    let mut one: Vec<char> = Vec::new();
    one.push(leader);
    assert(space@ =~= seq![' ']);
    assert(one@ =~= seq![leader]);
    let tw = measure(m, style.size, &title);
    let sw = measure(m, style.size, &space);
    let pw = measure(m, style.size, &page);
    let lw = measure(m, style.size, &one);
    let ghost t = title@;
    let ghost base = width_of(m, style.size, t) + 2 * width_of(m, style.size, seq![' ']) + width_of(
        m,
        style.size,
        page@,
    );
    let available: u128 = if tw <= limit && sw <= (limit - tw) / 2 && pw <= limit - tw - 2 * sw {
        limit - tw - 2 * sw - pw
    } else {
        0
    };
    assert(available as nat == (if base <= limit as nat {
        (limit as nat - base) as nat
    } else {
        0nat
    }));
    let count: u128 = if lw > 0 {
        available / lw
    } else {
        0
    };
    let mut line = title;
    line.push(' ');
    let ghost head = line@;
    let mut k: u128 = 0;
    while k < count
        invariant
            k <= count,
            line@ == head + Seq::new(k as nat, |j: int| leader),
        decreases count - k,
    {
        line.push(leader);
        k = k + 1;
        assert(line@ =~= head + Seq::new(k as nat, |j: int| leader));
    }
    line.push(' ');
    push_all(&mut line, &page);
    assert(line@ =~= toc_line(m, style.size, heading.depth, heading.title@, page_text@, limit as nat, leader));
    string_from_chars(line)
}

proof fn lemma_run_width<M: FontMetrics>(m: &M, size: u32, n: nat, c: char)
    ensures
        width_of(m, size, Seq::new(n, |i: int| c)) == n * width_of(m, size, seq![c]),
    decreases n,
{
    if n == 0 {
        assert(Seq::new(0, |i: int| c) =~= Seq::<char>::empty());
        assert(width_of(m, size, Seq::<char>::empty()) == 0) by {
            vstd::arithmetic::mul::lemma_mul_basics(size as int);
        }
    } else {
        lemma_run_width(m, size, (n - 1) as nat, c);
        assert(Seq::new(n, |i: int| c) =~= Seq::new((n - 1) as nat, |i: int| c) + seq![c]);
        lemma_width_concat(m, size, Seq::new((n - 1) as nat, |i: int| c), seq![c]);
        vstd::arithmetic::mul::lemma_mul_is_distributive_add_other_way(
            width_of(m, size, seq![c]) as int,
            (n - 1) as int,
            1,
        );
    }
}

/// A table-of-contents line fills its width as closely as whole leader
/// characters allow: it fits, and one more leader would not, whenever the
/// title, the two spaces and the page number fit by themselves.
pub proof fn lemma_toc_line_fills_the_width<M: FontMetrics>(
    m: &M,
    size: u32,
    depth: u8,
    title: Seq<char>,
    page_text: Seq<char>,
    limit: nat,
    leader: char,
)
    requires
        width_of(m, size, indented_title(depth, title)) + 2 * width_of(m, size, seq![' ']) + width_of(
            m,
            size,
            page_text,
        ) <= limit,
        width_of(m, size, seq![leader]) > 0,
    ensures
        width_of(m, size, toc_line(m, size, depth, title, page_text, limit, leader)) <= limit,
        limit < width_of(m, size, toc_line(m, size, depth, title, page_text, limit, leader)) + width_of(
            m,
            size,
            seq![leader],
        ),
{
    let t = indented_title(depth, title);
    let n = leader_count(m, size, t, page_text, limit, leader);
    let run = Seq::new(n, |i: int| leader);
    let sp = seq![' '];
    lemma_run_width(m, size, n, leader);
    lemma_width_concat(m, size, t, sp);
    lemma_width_concat(m, size, t + sp, run);
    lemma_width_concat(m, size, t + sp + run, sp);
    lemma_width_concat(m, size, t + sp + run + sp, page_text);
    let lw = width_of(m, size, seq![leader]);
    let base = width_of(m, size, t) + 2 * width_of(m, size, sp) + width_of(m, size, page_text);
    let avail = (limit - base) as nat;
    assert(n == avail / lw);
    vstd::arithmetic::div_mod::lemma_fundamental_div_mod(avail as int, lw as int);
    vstd::arithmetic::mul::lemma_mul_is_commutative(n as int, lw as int);
    assert(avail % lw < lw) by {
        vstd::arithmetic::div_mod::lemma_mod_bound(avail as int, lw as int);
    }
}


/// A heading at depth `d >= 1` is indented by exactly two spaces per level
/// below the first: its line starts with `2 * (d - 1)` spaces and then the
/// title, then a space; it ends with a space and the page number, with
/// nothing but leader characters between. A depth of 0 is not indented.
pub proof fn lemma_toc_line_layout<M: FontMetrics>(
    m: &M,
    size: u32,
    depth: u8,
    title: Seq<char>,
    page_text: Seq<char>,
    limit: nat,
    leader: char,
)
    ensures
        ({
            let line = toc_line(m, size, depth, title, page_text, limit, leader);
            let ind: int = if depth >= 1 { 2 * (depth - 1) } else { 0 };
            &&& line.len() >= ind + title.len() + 2 + page_text.len()
            &&& forall|i: int| 0 <= i < ind ==> line[i] == ' '
            &&& line.subrange(ind, ind + title.len()) == title
            &&& line[ind + title.len()] == ' '
            &&& line.subrange(line.len() - page_text.len() - 1, line.len() as int) == seq![' '] + page_text
            &&& forall|i: int| ind + title.len() < i < line.len() - page_text.len() - 1 ==> line[i] == leader
        }),
{
    let line = toc_line(m, size, depth, title, page_text, limit, leader);
    let ind: int = if depth >= 1 { 2 * (depth - 1) } else { 0 };
    let t = indented_title(depth, title);
    let n = leader_count(m, size, t, page_text, limit, leader);
    let run = Seq::new(n, |i: int| leader);
    assert(t.len() == ind + title.len());
    assert(line == t + seq![' '] + run + seq![' '] + page_text);
    assert forall|i: int| 0 <= i < ind implies line[i] == ' ' by {
        assert(line[i] == t[i]);
    }
    assert(line.subrange(ind, ind + title.len()) =~= title) by {
        assert forall|i: int| 0 <= i < title.len() implies line.subrange(ind, ind + title.len())[i] == title[i] by {
            assert(line[ind + i] == t[ind + i]);
        }
    }
    assert(line.subrange(line.len() - page_text.len() - 1, line.len() as int) =~= seq![' '] + page_text);
    assert forall|i: int| ind + title.len() < i < line.len() - page_text.len() - 1 implies line[i] == leader by {
        assert(line[i] == run[i - ind - title.len() - 1]);
    }
}

} // verus!
