use lwpdf::pdf::content::{ContentBuilder, Rgb};

fn text_of(c: ContentBuilder) -> String {
    String::from_utf8(c.into_bytes()).unwrap()
}

#[test]
fn builds_expected_operators() {
    let mut c = ContentBuilder::new();
    c.save();
    c.clip_rect(0, 0, 100_000, 50_000);
    c.text("F1", 12_000, 10_000, 20_000, Rgb(0, 0, 0), &[0x00, 0x01, 0x00, 0x02, 0x00, 0x03]);
    c.restore();
    let s = text_of(c);
    assert!(s.contains("q\n"));
    assert!(s.contains("0 0 100 50 re W n"));
    assert!(s.contains("<000100020003> Tj"));
    assert!(s.trim_end().ends_with('Q'));
}

#[test]
fn draw_image_emits_the_cm_do_idiom() {
    let mut c = ContentBuilder::new();
    c.draw_image("Im1", 10_000, 20_000, 100_000, 50_000);
    let s = text_of(c);
    assert!(s.contains("100 0 0 50 10 20 cm /Im1 Do"));
}

#[test]
fn text_rotated_emits_a_rotation_matrix_and_centers_horizontally() {
    let mut c = ContentBuilder::new();
    c.text_rotated("F1", 72_000, 707, 707, 300_000, 400_000, 50_000, Rgb(210, 210, 210), &[0x00, 0x01]);
    let s = text_of(c);
    assert!(s.contains("0.707 0.707 -0.707 0.707 300 400 cm"));
    assert!(s.contains("-50 0 Td"), "text must be horizontally centered via a -half_width offset");
    assert!(s.trim_end().ends_with("Q"));
}

#[test]
fn colors_are_fractions_of_255_to_three_decimals() {
    let mut c = ContentBuilder::new();
    c.fill_rect(0, 0, 1000, 1000, Rgb(255, 128, 1));
    assert_eq!(text_of(c), "1 0.502 0.004 rg 0 0 1 1 re f\n");
}

#[test]
fn stroke_rect_line_and_dashes() {
    let mut c = ContentBuilder::new();
    c.stroke_rect(1500, 2000, 3000, 4000, 250, Rgb(0, 0, 0));
    c.set_dash(3000, 1500);
    c.line(0, 0, 10_000, 0, 1000, Rgb(255, 255, 255));
    c.reset_dash();
    assert_eq!(
        text_of(c),
        "0 0 0 RG 0.25 w 1.5 2 3 4 re S\n[3 1.5] 0 d\n1 1 1 RG 1 w 0 0 m 10 0 l S\n[] 0 d\n"
    );
}

#[test]
fn raw_operator_lines_end_with_a_newline() {
    let mut c = ContentBuilder::new();
    c.op("0 0 m");
    assert_eq!(text_of(c), "0 0 m\n");
}

#[test]
fn rounded_rect_draws_four_quarter_circle_corners() {
    let mut c = ContentBuilder::new();
    c.draw_rounded_rect(0, 0, 100_000, 50_000, 10_000, Some(Rgb(0, 0, 0)), None, None);
    let path = "10 0 m\n90 0 l\n95.523 0 100 4.477 100 10 c\n100 40 l\n100 45.523 95.523 50 90 50 c\n10 50 l\n4.477 50 0 45.523 0 40 c\n0 10 l\n0 4.477 4.477 0 10 0 c\nh";
    assert_eq!(String::from_utf8(c.into_bytes()).unwrap(), format!("0 0 0 rg\n{path} f\n"));
}

#[test]
fn rounded_rect_radius_is_clamped_and_dash_is_reset() {
    let mut c = ContentBuilder::new();
    c.draw_rounded_rect(0, 0, 10_000, 4_000, 50_000, None, Some((1_000, Rgb(255, 0, 0))), Some((3_000, 2_000)));
    let text = String::from_utf8(c.into_bytes()).unwrap();
    assert!(text.starts_with("[3 2] 0 d\n1 0 0 RG 1 w\n2 0 m\n8 0 l\n"));
    assert!(text.ends_with(" S\n[] 0 d\n"));
}

#[test]
fn rounded_rect_with_neither_fill_nor_stroke_draws_nothing() {
    let mut c = ContentBuilder::new();
    c.draw_rounded_rect(0, 0, 10_000, 10_000, 1_000, None, None, None);
    assert!(c.into_bytes().is_empty());
}

#[test]
fn rounded_rect_rounds_each_coordinate_once() {
    // A 3-thousandth square: the radius is 1.5 thousandths, so the first
    // point lies at 0.0015 pt, printed 0.002 as the exact value rounds.
    let mut c = ContentBuilder::new();
    c.draw_rounded_rect(0, 0, 3, 3, 10, Some(Rgb(0, 0, 0)), None, None);
    let text = String::from_utf8(c.into_bytes()).unwrap();
    assert!(text.starts_with("0 0 0 rg\n0.002 0 m\n0.002 0 l\n"), "{text}");
}
