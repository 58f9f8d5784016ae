use lwpdf::layout::leaf::{
    clip_fixed_lines, place_text, push_missing_glyph_warnings, remainder_text, widow_orphan_split, TextPlacement,
};
use lwpdf::layout::text::{wrap_text, FontMetrics, FontResolver};
use lwpdf::layout::warnings::{LayoutWarning, LayoutWarningKind};
use lwpdf::style::{FontKey, Overflow, TextStyle};

/// Every character 600 thousandths of an em wide, a space 300.
struct FixedMetrics;

impl FontMetrics for FixedMetrics {
    fn advance_of(&self, ch: char) -> u32 {
        self.advance(ch)
    }

    fn advance(&self, ch: char) -> u32 {
        if ch == ' ' {
            300
        } else {
            600
        }
    }

    fn ascent_of(&self) -> i32 {
        self.ascent()
    }

    fn ascent(&self) -> i32 {
        800
    }

    fn descent(&self) -> i32 {
        -200
    }

    fn has_glyph_of(&self, ch: char) -> bool {
        self.has_glyph(ch)
    }

    fn has_glyph(&self, ch: char) -> bool {
        ch.is_ascii()
    }
}

struct FixedResolver;

impl FontResolver for FixedResolver {
    type Metrics = FixedMetrics;

    fn metrics_of(&self, _key: FontKey) -> FixedMetrics {
        FixedMetrics
    }

    fn metrics(&self, _key: FontKey) -> &FixedMetrics {
        &FixedMetrics
    }
}

/// 10 pt text with a line height of 1.0.
fn ten_point() -> TextStyle {
    TextStyle { size: 10_000, line_height: 1000, ..Default::default() }
}

/// 10 pt in millionths of a point.
const LINE: u64 = 10_000_000;

#[test]
fn layoutable_short_paragraph_is_never_split() {
    // 3 lines < 2*N(=4): moves whole although 2 lines would fit.
    assert_eq!(place_text(3, LINE, 2 * LINE, false), TextPlacement::MoveWhole);
}

#[test]
fn layoutable_widow_is_avoided_by_pulling_lines_up() {
    // 5 lines, 4 fit: the break moves up so 2 lines go on.
    assert_eq!(place_text(5, LINE, 4 * LINE, false), TextPlacement::Split { at: 3 });
    let lines: Vec<String> = ["one", "two", "three", "four", "five"].iter().map(|s| s.to_string()).collect();
    let rest = remainder_text(&lines, 3);
    assert_eq!(rest, "four five");
    assert_eq!(rest.split(' ').count(), 2);
}

#[test]
fn layoutable_orphan_moves_whole_paragraph_when_room_is_too_small() {
    assert_eq!(place_text(5, LINE, LINE, false), TextPlacement::MoveWhole);
}

#[test]
fn paragraph_that_fits_within_the_tolerance_is_placed() {
    assert_eq!(place_text(4, LINE, 4 * LINE - 10_000, false), TextPlacement::Fit { clipped: false });
    assert_eq!(place_text(4, LINE, 4 * LINE - 10_001, false), TextPlacement::Split { at: 2 });
}

#[test]
fn a_single_line_taller_than_its_area_is_placed_and_clipped() {
    assert_eq!(place_text(1, LINE, LINE / 2, false), TextPlacement::Fit { clipped: true });
    assert_eq!(place_text(1, LINE, LINE / 2, true), TextPlacement::Fit { clipped: true });
}

#[test]
fn a_fixed_height_box_never_breaks() {
    assert_eq!(place_text(6, LINE, 2 * LINE, true), TextPlacement::FixedOverflow);
}

#[test]
fn split_point_is_the_latest_clean_break() {
    assert_eq!(widow_orphan_split(10, 7), 7);
    assert_eq!(widow_orphan_split(10, 9), 8);
    assert_eq!(widow_orphan_split(10, 1), 0);
    assert_eq!(widow_orphan_split(3, 3), 0);
    assert_eq!(widow_orphan_split(4, 100), 2);
    assert_eq!(remainder_text(&vec!["a".to_string()], 1), "");
}

#[test]
fn mod_short_paragraph_is_never_split() {
    assert_eq!(place_text(3, LINE, 2 * LINE, false), TextPlacement::MoveWhole);
}

#[test]
fn mod_widow_is_avoided_by_pulling_lines_up() {
    assert_eq!(place_text(5, LINE, 4 * LINE, false), TextPlacement::Split { at: 3 });
}

#[test]
fn mod_orphan_moves_whole_paragraph_when_room_is_too_small() {
    assert_eq!(place_text(5, LINE, LINE, false), TextPlacement::MoveWhole);
}

/// Lays out `content` in a fixed box `width` by `height` (thousandths of
/// a point): the kept lines and the warnings.
fn fixed_box(content: &str, width: i64, height: u64, overflow: Overflow) -> (Vec<String>, Vec<LayoutWarning>) {
    let style = ten_point();
    let lines = wrap_text(&FixedResolver, &style, content, width);
    let line_height = style.size as u64 * style.line_height as u64;
    let mut warnings = Vec::new();
    let kept =
        clip_fixed_lines(&FixedResolver, &style, lines, line_height, height * 1000, width, overflow, content, &mut warnings, 1);
    (kept, warnings)
}

#[test]
fn layoutable_fixed_height_text_clips_instead_of_splitting() {
    // Four lines in a box one line high: the box's rule, never a split.
    assert_eq!(place_text(4, LINE, LINE, true), TextPlacement::FixedOverflow);
    let (kept, warnings) = fixed_box("AAAA BBBB CCCC DDDD", 30_000, 10_000, Overflow::Clip);
    assert_eq!(kept, vec!["AAAA"]);
    assert!(warnings.iter().any(|w| w.kind == LayoutWarningKind::TextClipped));
    assert_eq!(warnings[0].element_hint, "Text \"AAAA BBBB CCCC DDDD\"");
}

#[test]
fn mod_fixed_height_text_clips_instead_of_splitting() {
    let (_, warnings) = fixed_box("AAAA BBBB CCCC DDDD", 30_000, 10_000, Overflow::Clip);
    assert!(warnings.iter().any(|w| w.kind == LayoutWarningKind::TextClipped));
}

#[test]
fn layoutable_overflow_ellipsis_truncates_fixed_single_line_text() {
    let (kept, _) = fixed_box("AAAAAAAAAAAAAAAA", 40_000, 10_000, Overflow::Ellipsis);
    assert_eq!(kept.len(), 1);
    assert!(kept[0].ends_with('\u{2026}'), "expected an ellipsis, got {:?}", kept[0]);
    assert_eq!(kept[0], "AAAAA\u{2026}");
}

#[test]
fn mod_overflow_ellipsis_truncates_fixed_single_line_text() {
    let (kept, _) = fixed_box("AAAAAAAAAAAAAAAA", 40_000, 10_000, Overflow::Ellipsis);
    assert_eq!(kept.len(), 1);
    assert!(kept[0].ends_with('\u{2026}'));
}

#[test]
fn ellipsis_keeps_one_line_even_in_a_box_lower_than_a_line() {
    let (kept, warnings) = fixed_box("AAAA BBBB", 30_000, 5_000, Overflow::Ellipsis);
    assert_eq!(kept, vec!["AAAA\u{2026}"]);
    assert_eq!(warnings.len(), 1);
    let (clipped, _) = fixed_box("AAAA BBBB", 30_000, 5_000, Overflow::Clip);
    assert!(clipped.is_empty());
    let (all, none) = fixed_box("AAAA BBBB", 30_000, 20_000, Overflow::Clip);
    assert_eq!(all, vec!["AAAA", "BBBB"]);
    assert!(none.is_empty());
}

#[test]
fn missing_glyphs_are_warned_once_per_character_and_font() {
    let style = ten_point();
    let mut warnings = Vec::new();
    push_missing_glyph_warnings(&FixedResolver, &style, "Preis 5\u{20ac} \u{20ac}\u{a0}\u{2603}", &mut warnings, 3);
    // The euro sign and the snowman have no glyph; the no-break space is
    // white space and the repeated euro sign is warned once.
    assert_eq!(warnings.len(), 2);
    assert_eq!(warnings[0].kind, LayoutWarningKind::MissingGlyph { ch: '\u{20ac}', font: style.font });
    assert_eq!(warnings[0].page, 3);
    assert_eq!(warnings[0].element_hint, "missing glyph for '\u{20ac}'");
    assert_eq!(warnings[1].kind, LayoutWarningKind::MissingGlyph { ch: '\u{2603}', font: style.font });
    // Later text on another page adds nothing new for the same font.
    push_missing_glyph_warnings(&FixedResolver, &style, "\u{20ac}", &mut warnings, 4);
    assert_eq!(warnings.len(), 2);
    let other = TextStyle { font: FontKey::sans_bold(), ..style };
    push_missing_glyph_warnings(&FixedResolver, &other, "\u{20ac}", &mut warnings, 4);
    assert_eq!(warnings.len(), 3);
}
