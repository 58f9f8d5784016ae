use lwpdf::document::{default_visible_from, PdfDate};
use lwpdf::layout::list::marker_text;
use lwpdf::layout::render_node::StructRole;
use lwpdf::layout::table::{atomic_blocks, plan_grid, CellPlacement, CellSpan};
use lwpdf::layout::text::strip_soft_hyphens;
use lwpdf::layout::toc::synthetic_anchor;
use lwpdf::layout::warnings::{push_warning, text_clipped_hint, truncate_hint, LayoutWarning, LayoutWarningKind};
use lwpdf::style::Marker;

#[test]
fn atomic_blocks_keep_continuation_rows_with_their_row() {
    let rows = vec![false, true, true, false, false, true];
    assert_eq!(atomic_blocks(&rows), vec![(0, 3), (3, 4), (4, 6)]);
}

#[test]
fn atomic_blocks_of_no_rows_is_empty() {
    assert!(atomic_blocks(&Vec::new()).is_empty());
}

#[test]
fn a_leading_continuation_row_still_starts_a_block() {
    assert_eq!(atomic_blocks(&vec![true, true, false]), vec![(0, 2), (2, 3)]);
}

#[test]
fn list_markers_are_a_bullet_or_a_number_with_a_dot() {
    assert_eq!(marker_text(&Marker::Bullet), "\u{2022}");
    assert_eq!(marker_text(&Marker::Number(12)), "12.");
}

#[test]
fn structure_tags_clamp_heading_levels() {
    assert_eq!(StructRole::Heading(0).tag_name(), "H1");
    assert_eq!(StructRole::Heading(3).tag_name(), "H3");
    assert_eq!(StructRole::Heading(9).tag_name(), "H6");
    assert_eq!(StructRole::TableHeaderCell.tag_name(), "TH");
    assert_eq!(StructRole::ListItemBody.tag_name(), "LBody");
    assert!(StructRole::Table.is_grouping());
    assert!(!StructRole::Paragraph.is_grouping());
}

#[test]
fn synthetic_anchors_cannot_collide_with_author_anchors() {
    let a = synthetic_anchor(7);
    assert_eq!(a, "\u{0}toc-heading-7");
    assert_ne!(synthetic_anchor(7), synthetic_anchor(70));
}

#[test]
fn soft_hyphens_are_stripped() {
    assert_eq!(strip_soft_hyphens("Rech\u{AD}nung"), "Rechnung");
    assert_eq!(strip_soft_hyphens("plain"), "plain");
}

#[test]
fn hints_are_cut_after_24_bytes() {
    assert_eq!(truncate_hint("short"), "short");
    assert_eq!(truncate_hint("abcdefghijklmnopqrstuvwxyz"), "abcdefghijklmnopqrstuvwx\u{2026}");
    assert_eq!(text_clipped_hint("Hello"), "Text \"Hello\"");
}

#[test]
fn warnings_are_appended_in_order() {
    let mut ws: Vec<LayoutWarning> = Vec::new();
    push_warning(&mut ws, LayoutWarningKind::TextClipped, 2, "a".to_string());
    push_warning(&mut ws, LayoutWarningKind::TextClipped, 3, "b".to_string());
    assert_eq!(ws.len(), 2);
    assert_eq!(ws[0].page, 2);
    assert_eq!(ws[1].element_hint, "b");
}

#[test]
fn pdf_and_xmp_dates_are_zero_padded_utc() {
    let d = PdfDate::new(2024, 3, 7, 9, 5, 1);
    assert_eq!(d.to_pdf_string(), "D:20240307090501Z");
    assert_eq!(d.to_xmp_string(), "2024-03-07T09:05:01Z");
}

#[test]
fn headers_show_from_the_first_page_by_default() {
    assert_eq!(default_visible_from(), 1);
}

#[test]
fn rowspan_blocks_its_column_in_the_rows_below() {
    let one = CellSpan { colspan: 1, rowspan: 1 };
    let tall = CellSpan { colspan: 1, rowspan: 2 };
    let rows = vec![vec![tall, one], vec![one], vec![one, one]];
    let mut warnings = Vec::new();
    let (placements, continuation) = plan_grid(&rows, 2, &mut warnings, 1);
    let at = |row, col_start, col_end, cell| CellPlacement { row, col_start, col_end, cell };
    assert_eq!(placements, vec![at(0, 0, 1, 0), at(0, 1, 2, 1), at(1, 1, 2, 0), at(2, 0, 1, 0), at(2, 1, 2, 1)]);
    assert_eq!(continuation, vec![false, true, false]);
    assert!(warnings.is_empty());
}

#[test]
fn extra_cells_are_dropped_with_a_warning_and_colspans_are_cut() {
    let one = CellSpan { colspan: 1, rowspan: 1 };
    let wide = CellSpan { colspan: 5, rowspan: 0 };
    let rows = vec![vec![one, one, one], vec![wide]];
    let mut warnings = Vec::new();
    let (placements, _) = plan_grid(&rows, 2, &mut warnings, 4);
    assert_eq!(placements[2], CellPlacement { row: 1, col_start: 0, col_end: 2, cell: 0 });
    assert_eq!(placements.len(), 3);
    assert_eq!(warnings.len(), 1);
    assert_eq!(warnings[0].kind, LayoutWarningKind::TableRowOverflow);
    assert_eq!(warnings[0].page, 4);
    assert_eq!(
        warnings[0].element_hint,
        "table row 0 has more cells than the table has free column(s) after rowspan \u{2014} extra cells dropped"
    );
}

#[test]
fn a_two_row_span_plans_as_one_atomic_block() {
    let one = CellSpan { colspan: 1, rowspan: 1 };
    let tall = CellSpan { colspan: 1, rowspan: 2 };
    let mut warnings = Vec::new();
    let (placements, continuation) = plan_grid(&vec![vec![tall, one], vec![one]], 2, &mut warnings, 1);
    assert!(warnings.is_empty());
    assert_eq!(placements.len(), 3);
    assert_eq!(atomic_blocks(&continuation), vec![(0, 2)]);
}

#[test]
fn a_continuation_row_with_too_many_cells_reports_overflow() {
    let one = CellSpan { colspan: 1, rowspan: 1 };
    let tall = CellSpan { colspan: 1, rowspan: 2 };
    let mut warnings = Vec::new();
    let (placements, continuation) = plan_grid(&vec![vec![tall, one], vec![one, one]], 2, &mut warnings, 1);
    assert!(warnings.iter().any(|w| w.kind == LayoutWarningKind::TableRowOverflow));
    assert_eq!(placements.len(), 3);
    assert_eq!(continuation, vec![false, true]);
}
