//! Layout diagnostics: what was clipped, overflowed or could not be
//! rendered, collected during layout instead of being dropped silently.

use vstd::prelude::*;
use vstd::string::StringSliceAdditionalSpecFns;
use vstd::utf8::{decode_utf8, is_char_boundary};
use crate::style::FontKey;
use crate::text::{chars_of, string_from_chars};

verus! {

#[derive(Clone, Copy, PartialEq, Eq, Debug)]
pub enum LayoutWarningKind {
    /// Text was cut off because its box was too small.
    TextClipped,
    /// A container's content overflowed its box and was clipped.
    ContentOverflow,
    /// An atomic element taller than a page was put on a page of its own
    /// and clipped there.
    ForcedPageBreak,
    /// Header or footer content was taller than its band and was clipped.
    HeaderFooterOverflow,
    /// A character has no glyph in the resolved font.
    MissingGlyph { ch: char, font: FontKey },
    /// A table row had more cells than the table has columns; the extra
    /// cells were dropped.
    TableRowOverflow,
    /// An image in an accessible document has no alternative text.
    MissingAltText,
}

#[derive(Clone, Debug)]
pub struct LayoutWarning {
    pub kind: LayoutWarningKind,
    pub page: usize,
    pub element_hint: String,
}

/// Records one warning.
pub fn push_warning(warnings: &mut Vec<LayoutWarning>, kind: LayoutWarningKind, page: usize, element_hint: String)
    ensures
        final(warnings)@.len() == old(warnings)@.len() + 1,
        forall|i: int| 0 <= i < old(warnings)@.len() ==> final(warnings)@[i] == old(warnings)@[i],
        final(warnings)@.last().kind == kind,
        final(warnings)@.last().page == page,
        final(warnings)@.last().element_hint@ == element_hint@,
{
    warnings.push(LayoutWarning { kind, page, element_hint });
}

/// Whether `s` may be cut after its first 24 bytes.
pub open spec fn cuttable(s: &str) -> bool {
    s.len() <= 24 || is_char_boundary(s.spec_bytes(), 24)
}

/// `s` shortened for a diagnostic: past 24 bytes, its first 24 bytes and
/// an ellipsis.
pub open spec fn hint_chars(s: &str) -> Seq<char> {
    if s.len() > 24 {
        decode_utf8(s.spec_bytes().subrange(0, 24)) + seq!['\u{2026}']
    } else {
        s@
    }
}

/// Shortens `s` for a diagnostic: past 24 bytes, keeps the first 24 and
/// appends an ellipsis.
pub fn truncate_hint(s: &str) -> (r: String)
    requires
        cuttable(s),
    ensures
        r@ == hint_chars(s),
{
    if s.len() > 24 {
        let (head, _) = s.split_at(24);
        proof {
            vstd::utf8::encode_utf8_decode_utf8(head@);
        }
        let mut v = chars_of(head);
        v.push('\u{2026}');
        string_from_chars(v)
    } else {
        let v = chars_of(s);
        string_from_chars(v)
    }
}

/// The hint for clipped text: `Text "<shortened content>"`.
pub fn text_clipped_hint(content: &str) -> (r: String)
    requires
        cuttable(content),
    ensures
        r@ == "Text \""@ + hint_chars(content) + "\""@,
{
    let h = truncate_hint(content);
    let mut v = chars_of("Text \"");
    let hv = chars_of(h.as_str());
    let mut i: usize = 0;
    let ghost start = v@;
    while i < hv.len()
        invariant
            i <= hv@.len(),
            v@ == start + hv@.take(i as int),
        decreases hv@.len() - i,
    {
        v.push(hv[i]);
        i = i + 1;
        assert(v@ =~= start + hv@.take(i as int));
    }
    assert(hv@.take(hv@.len() as int) =~= hv@);
    v.push('"');
    proof {
        reveal_strlit("\"");
    }
    assert(v@ =~= "Text \""@ + hint_chars(content) + "\""@);
    string_from_chars(v)
}

} // verus!
