use lwpdf::layout::hyphenate::auto_hyphenate;
use lwpdf::layout::text::strip_soft_hyphens;
use lwpdf::style::HyphenationLanguage;

#[test]
fn inserts_soft_hyphens_at_dictionary_break_points_in_a_long_word() {
    let hyphenated = auto_hyphenate("Silbentrennung", HyphenationLanguage::German);
    assert!(hyphenated.contains('\u{AD}'), "expected at least one soft hyphen, got {hyphenated:?}");
    assert_eq!(hyphenated.replace('\u{AD}', ""), "Silbentrennung", "hyphenation must not change the word itself");
}

#[test]
fn preserves_whitespace_and_word_boundaries() {
    let hyphenated = auto_hyphenate("Hyphenation example", HyphenationLanguage::EnglishUs);
    assert_eq!(hyphenated.replace('\u{AD}', ""), "Hyphenation example");
    assert!(hyphenated.contains(' '), "the space between words must survive untouched");
}

#[test]
fn leaves_words_with_an_author_soft_hyphen_untouched() {
    let word = "Rech\u{AD}nungsnummer";
    assert_eq!(auto_hyphenate(word, HyphenationLanguage::German), word);
}

#[test]
fn copies_every_kind_of_whitespace_through() {
    let text = "  Rechnung\t\nBetrag  ";
    let hyphenated = auto_hyphenate(text, HyphenationLanguage::German);
    assert_eq!(hyphenated.replace('\u{AD}', ""), text);
    assert!(hyphenated.starts_with("  "));
    assert!(hyphenated.ends_with("  "));
}

#[test]
fn empty_text_stays_empty() {
    assert_eq!(auto_hyphenate("", HyphenationLanguage::EnglishUs), "");
}

#[test]
fn stripping_soft_hyphens_removes_only_them() {
    assert_eq!(strip_soft_hyphens("Sil\u{AD}ben\u{AD}tren\u{AD}nung"), "Silbentrennung");
    assert_eq!(strip_soft_hyphens("plain"), "plain");
    assert_eq!(strip_soft_hyphens("\u{AD}"), "");
}

#[test]
fn hyphenating_twice_changes_nothing() {
    for text in ["Silbentrennung ist eine Rechnungsnummer", "Hyphenation example\u{2003}text", "", "  a\u{AD}b  "] {
        for lang in [HyphenationLanguage::German, HyphenationLanguage::EnglishUs] {
            let once = auto_hyphenate(text, lang);
            assert_eq!(auto_hyphenate(&once, lang), once);
        }
    }
}
