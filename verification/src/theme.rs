//! Named text-style roles, resolved once when an element is added to a
//! themed document: no cascade, no inheritance.

use vstd::prelude::*;
use crate::style::{Align, Color, FontKey, TextStyle, ThemeRole};

verus! {

/// A text style for each role.
#[derive(Clone, Copy, PartialEq, Debug)]
pub struct Theme {
    pub body: TextStyle,
    pub caption: TextStyle,
    pub heading1: TextStyle,
    pub heading2: TextStyle,
    pub heading3: TextStyle,
    pub table_header: TextStyle,
    pub muted: TextStyle,
}

/// The style `theme` gives `role`.
pub open spec fn role_style(theme: Theme, role: ThemeRole) -> TextStyle {
    match role {
        ThemeRole::Body => theme.body,
        ThemeRole::Caption => theme.caption,
        ThemeRole::Heading1 => theme.heading1,
        ThemeRole::Heading2 => theme.heading2,
        ThemeRole::Heading3 => theme.heading3,
        ThemeRole::TableHeader => theme.table_header,
        ThemeRole::Muted => theme.muted,
    }
}

impl Theme {
    /// The style of `role`.
    pub fn role(&self, role: ThemeRole) -> (s: TextStyle)
        ensures
            s == role_style(*self, role),
    {
        match role {
            ThemeRole::Body => self.body,
            ThemeRole::Caption => self.caption,
            ThemeRole::Heading1 => self.heading1,
            ThemeRole::Heading2 => self.heading2,
            ThemeRole::Heading3 => self.heading3,
            ThemeRole::TableHeader => self.table_header,
            ThemeRole::Muted => self.muted,
        }
    }
}

/// `body` with another font, size or color.
fn restyled(body: TextStyle, font: FontKey, size: u32, color: Color) -> (s: TextStyle)
    ensures
        s == (TextStyle { font, size, color, ..body }),
{
    TextStyle { font, size, color, ..body }
}

impl Default for Theme {
    /// The styles the presets use without a theme: the default style for
    /// body text, bold 24, 18 and 14 pt headings, a bold table header, and
    /// grey (#666666) captions at 9 pt and muted text.
    fn default() -> (t: Self)
        ensures
            t.body.font.0@ == "sans-regular"@ && t.body.size == 12_000 && t.body.line_height == 1200
                && t.body.color == Color(0, 0, 0) && t.body.align == Align::Start,
            t.caption == (TextStyle { size: 9_000, color: Color(0x66, 0x66, 0x66), ..t.body }),
            t.heading1.font.0@ == "sans-bold"@ && t.heading1 == (TextStyle { size: 24_000, font: t.heading1.font, ..t.body }),
            t.heading2.font.0@ == "sans-bold"@ && t.heading2 == (TextStyle { size: 18_000, font: t.heading2.font, ..t.body }),
            t.heading3.font.0@ == "sans-bold"@ && t.heading3 == (TextStyle { size: 14_000, font: t.heading3.font, ..t.body }),
            t.table_header.font.0@ == "sans-bold"@ && t.table_header == (TextStyle { font: t.table_header.font, ..t.body }),
            t.muted == (TextStyle { color: Color(0x66, 0x66, 0x66), ..t.body }),
    {
        let body = TextStyle::default();
        let muted = Color::rgb(0x66, 0x66, 0x66);
        let bold = FontKey::sans_bold();
        Theme {
            body,
            caption: restyled(body, body.font, 9_000, muted),
            heading1: restyled(body, bold, 24_000, body.color),
            heading2: restyled(body, bold, 18_000, body.color),
            heading3: restyled(body, bold, 14_000, body.color),
            table_header: restyled(body, bold, body.size, body.color),
            muted: restyled(body, body.font, body.size, muted),
        }
    }
}

/// A text's style after theming: a text with a role takes the role's
/// style but keeps its own alignment; a text without one (styled by
/// hand) keeps its style.
pub open spec fn themed_style(style: TextStyle, role: Option<ThemeRole>, theme: Theme) -> TextStyle {
    match role {
        Some(r) => TextStyle { align: style.align, ..role_style(theme, r) },
        None => style,
    }
}

/// Resolves a text's style against `theme`.
pub fn resolve_text_style(style: TextStyle, role: Option<ThemeRole>, theme: &Theme) -> (s: TextStyle)
    ensures
        s == themed_style(style, role, *theme),
{
    match role {
        Some(r) => {
            let align = style.align;
            TextStyle { align, ..theme.role(r) }
        },
        None => style,
    }
}

/// A table header cell still at the default `Body` role themes as a
/// table header; any other role stays.
pub fn header_cell_role(role: Option<ThemeRole>) -> (r: Option<ThemeRole>)
    ensures
        r == (if role == Some(ThemeRole::Body) {
            Some(ThemeRole::TableHeader)
        } else {
            role
        }),
{
    match role {
        Some(ThemeRole::Body) => Some(ThemeRole::TableHeader),
        _ => role,
    }
}

/// Theming twice gives what theming once gives: resolution happens once
/// and a second pass changes nothing.
pub proof fn lemma_theming_is_idempotent(style: TextStyle, role: Option<ThemeRole>, theme: Theme)
    ensures
        themed_style(themed_style(style, role, theme), role, theme) == themed_style(style, role, theme),
{
}

/// Theming never changes a text's alignment.
pub proof fn lemma_theming_keeps_alignment(style: TextStyle, role: Option<ThemeRole>, theme: Theme)
    ensures
        themed_style(style, role, theme).align == style.align,
{
}

} // verus!
