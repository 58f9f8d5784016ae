use lwpdf::style::{Align, Color, TextStyle, ThemeRole};
use lwpdf::theme::{header_cell_role, resolve_text_style, Theme};

fn test_theme() -> Theme {
    let mut theme = Theme::default();
    theme.body.size = 30_000;
    theme.heading1.size = 99_000;
    theme.table_header.size = 55_000;
    theme
}

#[test]
fn plain_text_resolves_from_the_theme() {
    let s = resolve_text_style(TextStyle::default(), Some(ThemeRole::Body), &test_theme());
    assert_eq!(s.size, 30_000, "untouched Text should pick up theme.body");
}

#[test]
fn explicitly_styled_text_is_not_overridden() {
    let own = TextStyle { size: 12_500, ..Default::default() };
    assert_eq!(resolve_text_style(own, None, &test_theme()).size, 12_500);
}

#[test]
fn heading_preset_resolves_from_its_own_theme_role() {
    let s = resolve_text_style(TextStyle::default(), Some(ThemeRole::Heading1), &test_theme());
    assert_eq!(s.size, 99_000);
}

#[test]
fn align_after_a_preset_survives_theming_without_losing_the_role() {
    let centered = TextStyle { align: Align::Center, ..Default::default() };
    let s = resolve_text_style(centered, Some(ThemeRole::Heading1), &test_theme());
    assert_eq!(s.size, 99_000);
    assert_eq!(s.align, Align::Center);
}

#[test]
fn plain_string_table_header_cells_theme_as_table_header_automatically() {
    let role = header_cell_role(Some(ThemeRole::Body));
    assert_eq!(role, Some(ThemeRole::TableHeader));
    assert_eq!(resolve_text_style(TextStyle::default(), role, &test_theme()).size, 55_000);
    assert_eq!(header_cell_role(Some(ThemeRole::Muted)), Some(ThemeRole::Muted));
    assert_eq!(header_cell_role(None), None);
}

#[test]
fn default_theme_matches_the_presets() {
    let t = Theme::default();
    assert_eq!(t.body, TextStyle::default());
    assert_eq!(t.caption.size, 9_000);
    assert_eq!(t.caption.color, Color(0x66, 0x66, 0x66));
    assert_eq!(t.heading1.size, 24_000);
    assert_eq!(t.heading1.font.0, "sans-bold");
    assert_eq!(t.heading2.size, 18_000);
    assert_eq!(t.heading3.size, 14_000);
    assert_eq!(t.table_header.font.0, "sans-bold");
    assert_eq!(t.table_header.size, 12_000);
    assert_eq!(t.muted.color, Color(0x66, 0x66, 0x66));
    assert_eq!(t.role(ThemeRole::Caption), t.caption);
}

#[test]
fn theming_twice_changes_nothing_more() {
    let theme = test_theme();
    let once = resolve_text_style(TextStyle::default(), Some(ThemeRole::Muted), &theme);
    assert_eq!(resolve_text_style(once, Some(ThemeRole::Muted), &theme), once);
}
