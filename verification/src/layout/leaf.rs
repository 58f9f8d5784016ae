//! Where a paragraph that does not fit its area breaks across pages.

use vstd::prelude::*;
use crate::text::{push_all, chars_of, string_from_chars};
use crate::layout::text::{ellipsis_fit, fit_with_ellipsis, string_views, width_limit, FontMetrics, FontResolver};
use crate::layout::warnings::{cuttable, hint_chars, push_warning, text_clipped_hint, LayoutWarning, LayoutWarningKind};
use crate::style::{FontKey, Overflow, TextStyle};
use crate::layout::hyphenate::{is_whitespace, unicode_whitespace};

verus! {

/// Neither the lines left before a page break nor those carried over may
/// number fewer than this.
pub const WIDOW_ORPHAN_N: usize = 2;

/// Height tolerance in millionths of a point (a hundredth of a point).
pub const EPS: u64 = 10_000;

/// Breaking a paragraph of `lines` lines after its first `k` leaves
/// neither an orphan nor a widow.
pub open spec fn clean_break(lines: nat, k: nat) -> bool {
    k >= WIDOW_ORPHAN_N && k <= lines && lines - k >= WIDOW_ORPHAN_N
}

/// The line after which a paragraph of `lines` lines breaks when `fitting`
/// of them fit on the page: the latest break within `fitting` that leaves
/// at least two lines on each side, or 0 (move the paragraph whole) when
/// there is none.
pub fn widow_orphan_split(lines: usize, fitting: usize) -> (at: usize)
    ensures
        at == 0 || (clean_break(lines as nat, at as nat) && at <= fitting),
        forall|k: nat| at < k <= fitting ==> !clean_break(lines as nat, k),
{
    let fitting = if fitting < lines {
        fitting
    } else {
        lines
    };
    let mut split_at = fitting;
    if lines < 2 * WIDOW_ORPHAN_N {
        split_at = 0;
    } else if split_at < WIDOW_ORPHAN_N {
        split_at = 0;
    } else if lines - split_at < WIDOW_ORPHAN_N {
        let adjusted = if lines >= WIDOW_ORPHAN_N {
            lines - WIDOW_ORPHAN_N
        } else {
            0
        };
        split_at = if adjusted >= WIDOW_ORPHAN_N {
            adjusted
        } else {
            0
        };
    }
    split_at
}

/// How a paragraph goes into its area.
#[derive(Clone, Copy, PartialEq, Eq, Debug)]
pub enum TextPlacement {
    /// All lines are placed; `clipped` when they overflow the area anyway
    /// (a single line taller than the area), which is warned about.
    Fit { clipped: bool },
    /// The box has a fixed height: its overflow rule applies, it never
    /// breaks across pages.
    FixedOverflow,
    /// The first `at` lines stay, the rest go to the next page.
    Split { at: usize },
    /// Nothing fits without an orphan or widow: the paragraph moves whole.
    MoveWhole,
}

/// The number of lines of height `line_height` that fit `area_height`
/// (millionths of a point) within the tolerance.
pub open spec fn lines_fitting(line_height: nat, area_height: nat) -> nat {
    ((area_height + EPS) as int / line_height as int) as nat
}

/// Places a paragraph of `line_count` lines, each `line_height` high, in
/// an area `area_height` high (both in millionths of a point). It fits if
/// its height is within the area and the tolerance, or it is a single
/// line; else a fixed-height box applies its overflow rule; else it breaks
/// at `widow_orphan_split` of the lines that fit, or moves whole.
pub fn place_text(line_count: usize, line_height: u64, area_height: u64, fixed_height: bool) -> (p: TextPlacement)
    ensures
        ({
            let total = line_count * line_height;
            if total <= area_height + EPS || line_count <= 1 {
                p == TextPlacement::Fit { clipped: total > area_height + EPS }
            } else if fixed_height {
                p == TextPlacement::FixedOverflow
            } else {
                let fitting = lines_fitting(line_height as nat, area_height as nat);
                &&& line_height > 0
                &&& p matches TextPlacement::Split { at } ==> at > 0 && clean_break(line_count as nat, at as nat)
                    && at <= fitting && forall|k: nat| at < k <= fitting ==> !clean_break(line_count as nat, k)
                &&& p is MoveWhole ==> forall|k: nat| 0 < k <= fitting ==> !clean_break(line_count as nat, k)
                &&& (p is Split || p is MoveWhole)
            }
        }),
{
    let limit: u128 = area_height as u128 + EPS as u128;
    assert(line_count * line_height <= 0xffff_ffff_ffff_ffff * 0xffff_ffff_ffff_ffff) by (nonlinear_arith)
        requires
            line_count <= 0xffff_ffff_ffff_ffff,
            line_height <= 0xffff_ffff_ffff_ffff,
    ;
    let total: u128 = line_count as u128 * line_height as u128;
    if total <= limit || line_count <= 1 {
        return TextPlacement::Fit { clipped: total > limit };
    }
    if fixed_height {
        return TextPlacement::FixedOverflow;
    }
    let by_height: u128 = limit / line_height as u128;
    let fitting: usize = if by_height < line_count as u128 {
        by_height as usize
    } else {
        line_count
    };
    let at = widow_orphan_split(line_count, fitting);
    assert(by_height == lines_fitting(line_height as nat, area_height as nat));
    if at == 0 {
        TextPlacement::MoveWhole
    } else {
        TextPlacement::Split { at }
    }
}

/// Lines joined by single spaces.
pub open spec fn joined(lines: Seq<Seq<char>>) -> Seq<char>
    decreases lines.len(),
{
    if lines.len() == 0 {
        Seq::empty()
    } else if lines.len() == 1 {
        lines[0]
    } else {
        joined(lines.drop_last()) + seq![' '] + lines.last()
    }
}

/// The text carried to the next page after a break: the lines from `at`
/// on, joined by single spaces, to be wrapped again there.
pub fn remainder_text(lines: &Vec<String>, at: usize) -> (s: String)
    requires
        at <= lines@.len(),
    ensures
        s@ == joined(lines@.skip(at as int).map_values(|l: String| l@)),
{
    let ghost rest = lines@.skip(at as int).map_values(|l: String| l@);
    let mut out: Vec<char> = Vec::new();
    let mut i: usize = at;
    while i < lines.len()
        invariant
            at <= i <= lines@.len(),
            rest == lines@.skip(at as int).map_values(|l: String| l@),
            out@ == joined(rest.take(i - at)),
        decreases lines@.len() - i,
    {
        let cs = chars_of(&lines[i]);
        assert(rest.take(i + 1 - at).drop_last() =~= rest.take(i - at));
        assert(rest.take(i + 1 - at).last() == lines@[i as int]@);
        if i > at {
            out.push(' ');
        } else {
            assert(rest.take(1) =~= seq![lines@[i as int]@]);
            assert(out@ =~= Seq::<char>::empty());
        }
        push_all(&mut out, &cs);
        i = i + 1;
    }
    assert(rest.take(lines@.len() - at) =~= rest);
    string_from_chars(out)
}

/// The lines of a fixed-height box that `fitting` lines fit: all of them
/// if they fit; else the fitting ones, or with `Ellipsis` at least one,
/// the last of them cut to fit `limit` with an ellipsis.
pub open spec fn fixed_box_lines<M: FontMetrics>(
    m: &M,
    size: u32,
    lines: Seq<Seq<char>>,
    fitting: nat,
    limit: nat,
    ellipsis: bool,
) -> Seq<Seq<char>> {
    let n = lines.len();
    let max_lines = if fitting < n {
        fitting
    } else {
        n
    };
    if max_lines >= n {
        lines
    } else {
        let take = if ellipsis && max_lines == 0 {
            1nat
        } else {
            max_lines
        };
        let kept = lines.take(take as int);
        if ellipsis {
            kept.update(
                take - 1,
                ellipsis_fit(m, size, kept[take - 1], limit, kept[take - 1].len()),
            )
        } else {
            kept
        }
    }
}

/// The lines of height `line_height` that fit `area_height`: all, for
/// lines without height.
pub open spec fn box_fitting(count: nat, line_height: nat, area_height: nat) -> nat {
    if line_height == 0 {
        count
    } else {
        lines_fitting(line_height, area_height)
    }
}

/// A fixed-height text box's overflow rule: `Clip` drops the lines that
/// do not fit, `Ellipsis` keeps at least one and cuts the last kept line
/// with an ellipsis to `area_width`. Dropping lines records a
/// `TextClipped` warning naming the text.
pub fn clip_fixed_lines<R: FontResolver>(
    r: &R,
    style: &TextStyle,
    lines: Vec<String>,
    line_height: u64,
    area_height: u64,
    area_width: i64,
    overflow: Overflow,
    content: &str,
    warnings: &mut Vec<LayoutWarning>,
    page: usize,
) -> (kept: Vec<String>)
    requires
        cuttable(content),
    ensures
        string_views(kept@) == fixed_box_lines(
            &r.metrics_of(style.font),
            style.size,
            string_views(lines@),
            box_fitting(lines@.len(), line_height as nat, area_height as nat),
            width_limit(area_width),
            overflow == Overflow::Ellipsis,
        ),
        ({
            let clipped = box_fitting(lines@.len(), line_height as nat, area_height as nat) < lines@.len();
            &&& clipped ==> final(warnings)@ == old(warnings)@.push(
                LayoutWarning { kind: LayoutWarningKind::TextClipped, page, element_hint: final(warnings)@.last().element_hint },
            ) && final(warnings)@.last().element_hint@ == "Text \""@ + hint_chars(content) + "\""@
            &&& !clipped ==> final(warnings)@ == old(warnings)@
        }),
{
    let ghost views = string_views(lines@);
    let n = lines.len();
    let fitting: usize = if line_height == 0 {
        n
    } else {
        let f: u128 = (area_height as u128 + EPS as u128) / line_height as u128;
        assert(f == lines_fitting(line_height as nat, area_height as nat));
        if f < n as u128 {
            f as usize
        } else {
            n
        }
    };
    if fitting >= n {
        return lines;
    }
    let hint = text_clipped_hint(content);
    let ghost w0 = warnings@;
    push_warning(warnings, LayoutWarningKind::TextClipped, page, hint);
    assert(warnings@ =~= w0.push(LayoutWarning { kind: LayoutWarningKind::TextClipped, page, element_hint: warnings@.last().element_hint }));
    let ellipsis = match overflow {
        Overflow::Ellipsis => true,
        Overflow::Clip => false,
    };
    let take = if ellipsis && fitting == 0 {
        1
    } else {
        fitting
    };
    let mut kept: Vec<String> = Vec::new();
    let mut lines = lines;
    let mut i: usize = 0;
    while i < take
        invariant
            i <= take <= n,
            n == lines@.len(),
            views == string_views(lines@),
            string_views(kept@) == views.take(i as int),
        decreases take - i,
    {
        let line = lines[i].clone();
        assert(line@ == views[i as int]);
        let ghost k0 = string_views(kept@);
        let ghost lv = line@;
        kept.push(line);
        assert(string_views(kept@) =~= k0.push(lv));
        i = i + 1;
        assert(string_views(kept@) =~= views.take(i as int));
    }
    if ellipsis {
        let last_index = take - 1;
        let cut = fit_with_ellipsis(r, style, kept[last_index].as_str(), area_width);
        let ghost k0 = string_views(kept@);
        let ghost cv = cut@;
        kept.set(last_index, cut);
        assert(string_views(kept@) =~= k0.update(last_index as int, cv));
    }
    kept
}

/// The name of `<char as Debug>::fmt`'s text for `c`: the character in
/// single quotes, escaped as Rust escapes it.
pub uninterp spec fn debug_char_quoted(c: char) -> Seq<char>;

/// `format!("{:?}", c)`; only its result is named.
#[verifier::external_body]
fn debug_char(c: char) -> (s: String)
    ensures
        s@ == debug_char_quoted(c),
{
    format!("{:?}", c)
}

/// Whether two strings have the same characters.
fn same_text(a: &str, b: &str) -> (r: bool)
    ensures
        r == (a@ == b@),
{
    let x = chars_of(a);
    let y = chars_of(b);
    if x.len() != y.len() {
        return false;
    }
    let mut i: usize = 0;
    while i < x.len()
        invariant
            i <= x@.len(),
            x@.len() == y@.len(),
            x@ == a@,
            y@ == b@,
            x@.take(i as int) == y@.take(i as int),
        decreases x@.len() - i,
    {
        if x[i] != y[i] {
            assert(x@[i as int] != y@[i as int]);
            assert(x@ != y@);
            return false;
        }
        assert(x@.take(i + 1) =~= x@.take(i as int).push(x@[i as int]));
        assert(y@.take(i + 1) =~= y@.take(i as int).push(y@[i as int]));
        i = i + 1;
    }
    assert(x@.take(x@.len() as int) =~= x@);
    assert(y@.take(y@.len() as int) =~= y@);
    true
}

/// A warning, viewed: its kind, page and hint.
pub open spec fn warning_view(w: LayoutWarning) -> (LayoutWarningKind, usize, Seq<char>) {
    (w.kind, w.page, w.element_hint@)
}

/// Whether `kind` is the missing glyph `ch` in `font`.
pub open spec fn missing_glyph_kind(kind: LayoutWarningKind, ch: char, font: FontKey) -> bool {
    match kind {
        LayoutWarningKind::MissingGlyph { ch: c, font: f } => c == ch && f.0@ == font.0@,
        _ => false,
    }
}

/// Whether a warning about the missing glyph `ch` in `font` is among `ws`.
pub open spec fn warned_missing(ws: Seq<(LayoutWarningKind, usize, Seq<char>)>, ch: char, font: FontKey) -> bool {
    exists|i: int|
        0 <= i < ws.len() && missing_glyph_kind((#[trigger] ws[i]).0, ch, font)
}

/// The warnings after checking the first `k` characters of `content`:
/// each character that is not white space and has no glyph in the font
/// adds a `MissingGlyph` warning, unless one for that character and font
/// is there already.
pub open spec fn glyph_warnings<M: FontMetrics>(
    m: &M,
    font: FontKey,
    content: Seq<char>,
    page: usize,
    ws: Seq<(LayoutWarningKind, usize, Seq<char>)>,
    k: nat,
) -> Seq<(LayoutWarningKind, usize, Seq<char>)>
    decreases k,
{
    if k == 0 {
        ws
    } else {
        let prev = glyph_warnings(m, font, content, page, ws, (k - 1) as nat);
        let ch = content[k - 1];
        if unicode_whitespace(ch) || m.has_glyph_of(ch) || warned_missing(prev, ch, font) {
            prev
        } else {
            prev.push(
                (LayoutWarningKind::MissingGlyph { ch, font }, page, "missing glyph for "@ + debug_char_quoted(ch)),
            )
        }
    }
}

/// Records the warning for the missing glyph `ch` in `font`.
fn push_glyph_warning(warnings: &mut Vec<LayoutWarning>, ch: char, font: FontKey, page: usize)
    ensures
        final(warnings)@.map_values(|w: LayoutWarning| warning_view(w)) == old(warnings)@.map_values(
            |w: LayoutWarning| warning_view(w),
        ).push((LayoutWarningKind::MissingGlyph { ch, font }, page, "missing glyph for "@ + debug_char_quoted(ch))),
{
    let mut hint: Vec<char> = chars_of("missing glyph for ");
    let d = debug_char(ch);
    let dc = chars_of(d.as_str());
    push_all(&mut hint, &dc);
    let hint = string_from_chars(hint);
    let ghost before = warnings@;
    warnings.push(LayoutWarning { kind: LayoutWarningKind::MissingGlyph { ch, font }, page, element_hint: hint });
    assert(warnings@.map_values(|w: LayoutWarning| warning_view(w)) =~= before.map_values(
        |w: LayoutWarning| warning_view(w),
    ).push((LayoutWarningKind::MissingGlyph { ch, font }, page, "missing glyph for "@ + debug_char_quoted(ch))));
}

/// Records a `MissingGlyph` warning for every character of `content` that
/// the style's font has no glyph for, once per character and font across
/// all warnings so far, not once per occurrence.
pub fn push_missing_glyph_warnings<R: FontResolver>(
    r: &R,
    style: &TextStyle,
    content: &str,
    warnings: &mut Vec<LayoutWarning>,
    page: usize,
)
    ensures
        final(warnings)@.map_values(|w: LayoutWarning| warning_view(w)) == glyph_warnings(
            &r.metrics_of(style.font),
            style.font,
            content@,
            page,
            old(warnings)@.map_values(|w: LayoutWarning| warning_view(w)),
            content@.len(),
        ),
{
    let m = r.metrics(style.font);
    let font = style.font;
    let cs = chars_of(content);
    let ghost w0 = warnings@.map_values(|w: LayoutWarning| warning_view(w));
    let mut k: usize = 0;
    while k < cs.len()
        invariant
            k <= cs@.len(),
            cs@ == content@,
            font == style.font,
            *m == r.metrics_of(style.font),
            warnings@.map_values(|w: LayoutWarning| warning_view(w)) == glyph_warnings(m, font, cs@, page, w0, k as nat),
        decreases cs@.len() - k,
    {
        let ch = cs[k];
        let ghost prev = warnings@.map_values(|w: LayoutWarning| warning_view(w));
        if !is_whitespace(ch) && !m.has_glyph(ch) {
            let mut found = false;
            let mut i: usize = 0;
            while i < warnings.len()
                invariant
                    i <= warnings@.len(),
                    prev == warnings@.map_values(|w: LayoutWarning| warning_view(w)),
                    found == exists|j: int|
                        0 <= j < i && missing_glyph_kind((#[trigger] prev[j]).0, ch, font),
                decreases warnings@.len() - i,
            {
                let hit = match warnings[i].kind {
                    LayoutWarningKind::MissingGlyph { ch: c, font: f } => c == ch && same_text(f.0, font.0),
                    _ => false,
                };
                assert(prev[i as int] == warning_view(warnings@[i as int]));
                if hit {
                    found = true;
                }
                i = i + 1;
            }
            if !found {
                push_glyph_warning(warnings, ch, font, page);
            }
        }
        k = k + 1;
    }
}

} // verus!
