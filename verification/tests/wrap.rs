use lwpdf::element::{Span, TextMeasurement};
use lwpdf::layout::text::{
    fit_with_ellipsis, measure_text, text_width_pt, wrap_spans, wrap_text, wrap_text_marking_paragraph_ends, FontMetrics, FontResolver,
    RichLine,
};
use lwpdf::layout::toc::{toc_entry_line, TocHeading};
use lwpdf::style::{FontKey, TextStyle};

/// Every character 600 thousandths of an em wide, a space 300.
struct FixedMetrics;

impl FontMetrics for FixedMetrics {
    fn advance_of(&self, ch: char) -> u32 {
        self.advance(ch)
    }

    fn advance(&self, ch: char) -> u32 {
        if ch == ' ' {
            300
        } else {
            600
        }
    }

    fn ascent_of(&self) -> i32 {
        self.ascent()
    }

    fn ascent(&self) -> i32 {
        800
    }

    fn descent(&self) -> i32 {
        -200
    }

    fn has_glyph_of(&self, ch: char) -> bool {
        self.has_glyph(ch)
    }

    fn has_glyph(&self, ch: char) -> bool {
        ch.is_ascii()
    }
}


#[test]
fn wraps_on_word_boundaries() {
    // Each char = 6pt at size 10; "AAAA" is 24pt, " BBBB" would be over.
    let lines = wrap_text(&FixedResolver, &style(10_000), "AAAA BBBB", 30_000);
    assert_eq!(lines, vec!["AAAA".to_string(), "BBBB".to_string()]);
}

#[test]
fn hard_breaks_a_single_too_wide_token() {
    // A single 10-char token, each char 6pt, max width 18pt -> 3 chars/line.
    let lines = wrap_text(&FixedResolver, &style(10_000), "ABCDEFGHIJ", 18_000);
    assert_eq!(lines, vec!["ABC", "DEF", "GHI", "J"]);
}

#[test]
fn respects_explicit_newlines() {
    let lines = wrap_text(&FixedResolver, &TextStyle::default(), "a\nb", 1_000_000);
    assert_eq!(lines, vec!["a".to_string(), "b".to_string()]);
}

#[test]
fn soft_hyphen_breaks_a_word_and_renders_a_visible_hyphen() {
    // "AAAABBBB" is 48pt whole; "AAAA-" is exactly 30pt, fits.
    let lines = wrap_text(&FixedResolver, &style(10_000), "AAAA\u{AD}BBBB", 30_000);
    assert_eq!(lines, vec!["AAAA-".to_string(), "BBBB".to_string()]);
}

#[test]
fn unused_soft_hyphen_disappears_from_the_output() {
    let lines = wrap_text(&FixedResolver, &TextStyle::default(), "AB\u{AD}CD", 1_000_000);
    assert_eq!(lines, vec!["ABCD".to_string()]);
}

#[test]
fn soft_hyphen_fills_the_current_line_instead_of_moving_the_whole_word_down() {
    // "X AAAA-" is exactly 39pt.
    let lines = wrap_text(&FixedResolver, &style(10_000), "X AAAA\u{AD}BBBB", 39_000);
    assert_eq!(lines, vec!["X AAAA-".to_string(), "BBBB".to_string()]);
}

#[test]
fn marks_only_the_last_line_of_each_paragraph() {
    let (lines, paragraph_end) = wrap_text_marking_paragraph_ends(&FixedResolver, &style(10_000), "AAAA BBBB\nCCCC", 30_000);
    assert_eq!(lines, vec!["AAAA".to_string(), "BBBB".to_string(), "CCCC".to_string()]);
    assert_eq!(paragraph_end, vec![false, true, true]);
}

#[test]
fn empty_paragraph_counts_as_its_own_last_line() {
    let (lines, paragraph_end) = wrap_text_marking_paragraph_ends(&FixedResolver, &TextStyle::default(), "a\n\nb", 1_000_000);
    assert_eq!(lines, vec!["a".to_string(), String::new(), "b".to_string()]);
    assert_eq!(paragraph_end, vec![true, true, true]);
}

#[test]
fn negative_width_counts_as_zero_and_breaks_every_character() {
    let lines = wrap_text(&FixedResolver, &style(10_000), "ab cd", -5_000);
    assert_eq!(lines, vec!["a", "b", "c", "d"]);
}

#[test]
fn repeated_spaces_and_empty_text() {
    assert_eq!(wrap_text(&FixedResolver, &style(10_000), "  a   b  ", 100_000), vec!["a b"]);
    assert_eq!(wrap_text(&FixedResolver, &style(10_000), "", 100_000), vec![String::new()]);
    assert_eq!(wrap_text(&FixedResolver, &style(10_000), "   ", 100_000), vec![String::new()]);
}

#[test]
fn soft_hyphen_picks_the_last_break_that_fits() {
    // "AA-" 18pt, "AABB-" 30pt fit 30pt; the later break wins.
    let lines = wrap_text(&FixedResolver, &style(10_000), "AA\u{AD}BB\u{AD}CCCC", 30_000);
    assert_eq!(lines, vec!["AABB-", "CCCC"]);
}

#[test]
fn word_that_does_not_fit_after_a_line_moves_down_whole() {
    let (lines, ends) = wrap_text_marking_paragraph_ends(&FixedResolver, &style(10_000), "AB CDEF GH", 30_000);
    assert_eq!(lines, vec!["AB", "CDEF", "GH"]);
    assert_eq!(ends, vec![false, false, true]);
}

#[test]
fn text_width_is_the_advance_sum_times_the_size() {
    // (600 + 300 + 600) thousandths of an em at 10 pt: 15 pt.
    assert_eq!(text_width_pt(&FixedResolver, FontKey::sans_regular(), 10_000, "A B"), 15_000_000);
    assert_eq!(text_width_pt(&FixedResolver, FontKey::sans_regular(), 10_000, ""), 0);
}

/// The text without spaces, hyphens, soft hyphens and line feeds.
fn kept(s: &str) -> String {
    s.chars().filter(|c| !matches!(c, ' ' | '-' | '\u{AD}' | '\n')).collect()
}

#[test]
fn every_line_fits_and_no_text_is_lost() {
    let text = "Rech\u{AD}nungs\u{AD}num\u{AD}mer 2024-17 Sehr geehrte Damen und Herren\n\nZahlbar bis Ende\u{AD}Mai";
    for max_width in [0i64, 5_000, 18_000, 30_000, 39_000, 100_000] {
        let lines = wrap_text(&FixedResolver, &style(10_000), text, max_width);
        for line in &lines {
            let w = text_width_pt(&FixedResolver, FontKey::sans_regular(), 10_000, line);
            assert!(w <= (max_width.max(0) as u128) * 1000 || line.chars().count() <= 1, "{line:?} at {max_width}");
        }
        assert_eq!(kept(&lines.concat()), kept(text));
    }
}

struct FixedResolver;

impl FontResolver for FixedResolver {
    type Metrics = FixedMetrics;

    fn metrics_of(&self, _key: FontKey) -> FixedMetrics {
        FixedMetrics
    }

    fn metrics(&self, _key: FontKey) -> &FixedMetrics {
        &FixedMetrics
    }
}

fn line_words(line: &RichLine) -> Vec<&str> {
    line.words.iter().map(|w| w.text.as_str()).collect()
}

fn style(size: u32) -> TextStyle {
    TextStyle { size, ..Default::default() }
}

#[test]
fn wrap_spans_breaks_across_span_boundaries() {
    let spans = vec![Span::new("AAAA".to_string(), style(10_000)), Span::new(" BBBB".to_string(), style(10_000))];
    let lines = wrap_spans(&FixedResolver, &spans, 30_000);
    assert_eq!(lines.len(), 2);
    assert_eq!(line_words(&lines[0]), vec!["AAAA"]);
    assert_eq!(line_words(&lines[1]), vec!["BBBB"]);
}

#[test]
fn wrap_spans_hard_breaks_a_single_too_wide_word_mid_span() {
    let spans = vec![Span::new("ABCDEFGHIJ".to_string(), style(10_000))];
    let lines = wrap_spans(&FixedResolver, &spans, 18_000);
    assert!(lines.len() > 1, "a word wider than max_width must hard-break onto multiple lines");
    assert_eq!(line_words(&lines[0]), vec!["ABC"]);
}

#[test]
fn wrap_spans_line_height_and_ascent_come_from_the_tallest_word() {
    let small = TextStyle { size: 10_000, line_height: 1000, ..Default::default() };
    let big = TextStyle { size: 20_000, line_height: 1000, ..Default::default() };
    let spans = vec![Span::new("a".to_string(), small), Span::new(" B".to_string(), big)];
    let lines = wrap_spans(&FixedResolver, &spans, 1_000_000);
    assert_eq!(lines.len(), 1, "both words fit on one line");
    // 20 pt in millionths of a point.
    assert_eq!(lines[0].height, 20_000_000, "line height must come from the larger word, not the first one");
    // 800/1000 em at 20 pt = 16 pt.
    assert_eq!(lines[0].ascent_pt, 16_000_000);
}

#[test]
fn wrap_spans_without_words_gives_one_line_in_the_first_style() {
    let spans = vec![Span::new("   ".to_string(), style(10_000))];
    let lines = wrap_spans(&FixedResolver, &spans, 30_000);
    assert_eq!(lines.len(), 1);
    assert!(lines[0].words.is_empty());
    // 10 pt times the default line height 1.2.
    assert_eq!(lines[0].height, 12_000_000);
    assert_eq!(lines[0].ascent_pt, 8_000_000);
    let none = wrap_spans(&FixedResolver, &Vec::new(), 30_000);
    assert_eq!(none.len(), 1);
    assert_eq!(none[0].height, 14_400_000);
}

#[test]
fn wrap_spans_measures_the_gap_in_the_next_words_style() {
    // "AA" at 10 pt is 12 pt; a 20 pt space is 6 pt and "B" at 20 pt 12 pt:
    // 30 pt in all, exactly the width.
    let spans = vec![Span::new("AA".to_string(), style(10_000)), Span::new(" B".to_string(), style(20_000))];
    let lines = wrap_spans(&FixedResolver, &spans, 30_000);
    assert_eq!(lines.len(), 1);
    assert_eq!(line_words(&lines[0]), vec!["AA", "B"]);
    assert_eq!(lines[0].words[1].style.size, 20_000);
    let narrower = wrap_spans(&FixedResolver, &spans, 29_999);
    assert_eq!(narrower.len(), 2);
}

#[test]
fn measures_the_widest_line_and_the_total_height() {
    let m = measure_text(&FixedResolver, "AAAA BB\nC", &style(10_000), 30_000);
    // "AAAA" 24 pt, "BB" 12 pt, "C" 6 pt; three lines of 10 pt times 1.2.
    assert_eq!(m, TextMeasurement { width: 24_000_000, height: 36_000_000, lines: 3 });
}

#[test]
fn ellipsis_cut_keeps_the_longest_prefix_that_fits() {
    // Every character is 6 pt at 10 pt: "ABCD…" is exactly 30 pt.
    assert_eq!(fit_with_ellipsis(&FixedResolver, &style(10_000), "ABCDEFG", 30_000), "ABCD\u{2026}");
    assert_eq!(fit_with_ellipsis(&FixedResolver, &style(10_000), "AB", 30_000), "AB\u{2026}");
    assert_eq!(fit_with_ellipsis(&FixedResolver, &style(10_000), "ABCDEFG", 0), "\u{2026}");
}

#[test]
fn toc_entry_fills_the_line_with_whole_leaders() {
    let heading = TocHeading { depth: 2, title: "Intro".to_string(), anchor: "a".to_string() };
    // "  Intro" 36 pt, two spaces 6 pt, "3" 6 pt: 52 pt left, 8 dots of 6 pt.
    let line = toc_entry_line(&FixedResolver, &style(10_000), &heading, "3", 100_000, '.');
    assert_eq!(line, "  Intro ........ 3");
    let top = TocHeading { depth: 1, title: "Intro".to_string(), anchor: "a".to_string() };
    assert_eq!(toc_entry_line(&FixedResolver, &style(10_000), &top, "12", 10_000, '.'), "Intro  12");
}

#[test]
fn rich_lines_fit_and_keep_every_word() {
    let spans = vec![
        Span::new("Rechnung Nr. ".to_string(), style(10_000)),
        Span::new("RE-2026-0042 ABCDEFGHIJKLMNOP".to_string(), style(20_000)),
        Span::new(" zahlbar bis Monatsende".to_string(), style(8_000)),
    ];
    let all_words: String = spans.iter().flat_map(|s| s.text.split(' ')).collect();
    for max_width in [0i64, 20_000, 45_000, 120_000] {
        let lines = wrap_spans(&FixedResolver, &spans, max_width);
        let mut joined = String::new();
        for line in &lines {
            let mut width: u128 = 0;
            for (i, w) in line.words.iter().enumerate() {
                if i > 0 {
                    width += text_width_pt(&FixedResolver, w.style.font, w.style.size, " ");
                }
                width += text_width_pt(&FixedResolver, w.style.font, w.style.size, &w.text);
                joined.push_str(&w.text);
            }
            let single = line.words.len() == 1 && line.words[0].text.chars().count() <= 1;
            assert!(width <= (max_width.max(0) as u128) * 1000 || single, "line too wide at {max_width}");
        }
        assert_eq!(joined, all_words);
    }
}

#[test]
fn one_true_flag_per_paragraph() {
    for text in ["AAAA BBBB\nCCCC", "a\n\nb", "", "AAAA BBBB CCCC DDDD\nEE FF GG HH II\n"] {
        let (lines, ends) = wrap_text_marking_paragraph_ends(&FixedResolver, &style(10_000), text, 30_000);
        assert_eq!(ends.len(), lines.len());
        assert_eq!(ends.iter().filter(|b| **b).count(), text.split('\n').count());
        assert_eq!(ends.last(), Some(&true));
    }
}
