use lwpdf::currency::format_currency_de;

#[test]
fn formats_typical_invoice_amounts() {
    assert_eq!(format_currency_de(123456), "1.234,56 \u{20ac}");
    assert_eq!(format_currency_de(0), "0,00 \u{20ac}");
    assert_eq!(format_currency_de(5), "0,05 \u{20ac}");
    assert_eq!(format_currency_de(100), "1,00 \u{20ac}");
}

#[test]
fn groups_large_amounts() {
    assert_eq!(format_currency_de(12_345_678_900), "123.456.789,00 \u{20ac}");
    assert_eq!(format_currency_de(100_000_000), "1.000.000,00 \u{20ac}");
    assert_eq!(format_currency_de(99_999), "999,99 \u{20ac}");
}

#[test]
fn formats_negative_amounts() {
    assert_eq!(format_currency_de(-50), "-0,50 \u{20ac}");
    assert_eq!(format_currency_de(-123456), "-1.234,56 \u{20ac}");
}

#[test]
fn formats_the_extreme_amounts() {
    assert_eq!(format_currency_de(i64::MIN), "-92.233.720.368.547.758,08 \u{20ac}");
    assert_eq!(format_currency_de(i64::MAX), "92.233.720.368.547.758,07 \u{20ac}");
}

#[test]
fn groups_exactly_at_thousands_boundaries() {
    assert_eq!(format_currency_de(99_999_99), "99.999,99 \u{20ac}");
    assert_eq!(format_currency_de(1_000_00), "1.000,00 \u{20ac}");
    assert_eq!(format_currency_de(999_00), "999,00 \u{20ac}");
}
