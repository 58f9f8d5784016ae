use std::collections::BTreeSet;
use lwpdf::fonts::cmap::build_cmap_format4;
use lwpdf::fonts::font::{FontData, FontError};
use lwpdf::fonts::glyf::{composite_glyph_closure, glyph_components, parse_loca};
use lwpdf::fonts::sfnt::{build_sfnt, sfnt_search_params, table_checksum};
use lwpdf::fonts::subset::subset_font;
use skrifa::raw::TableProvider;
use skrifa::MetadataProvider;

fn be16(v: u16) -> [u8; 2] {
    v.to_be_bytes()
}

/// A tiny static TrueType font: `.notdef` (empty), `A` (simple), `B` (a
/// composite of `A`), `C` (simple) and an unmapped simple glyph; three
/// long horizontal metrics, the last two glyphs sharing the last advance.
fn tiny_font_bytes() -> Vec<u8> {
    let simple = [0u8, 0, 0, 0, 0, 0, 0, 100, 0, 100, 0, 0];
    let mut composite = vec![0xFFu8, 0xFF, 0, 0, 0, 0, 0, 100, 0, 100];
    composite.extend_from_slice(&be16(0x0001)); // ARG_1_AND_2_ARE_WORDS, no more components
    composite.extend_from_slice(&be16(1)); // glyph A
    composite.extend_from_slice(&[0, 0, 0, 0]);
    let mut glyf = Vec::new();
    let mut loca = Vec::new();
    let glyphs: Vec<&[u8]> = vec![&[], &simple, &composite, &simple, &simple];
    for g in &glyphs {
        loca.extend_from_slice(&(glyf.len() as u32).to_be_bytes());
        glyf.extend_from_slice(g);
    }
    loca.extend_from_slice(&(glyf.len() as u32).to_be_bytes());

    let mut head = vec![0u8; 54];
    head[0..4].copy_from_slice(&0x0001_0000u32.to_be_bytes());
    head[12..16].copy_from_slice(&0x5F0F_3CF5u32.to_be_bytes());
    head[18..20].copy_from_slice(&be16(1000));
    head[36..38].copy_from_slice(&(-50i16).to_be_bytes());
    head[38..40].copy_from_slice(&(-210i16).to_be_bytes());
    head[40..42].copy_from_slice(&be16(900));
    head[42..44].copy_from_slice(&be16(820));
    head[50..52].copy_from_slice(&be16(1));

    let mut hhea = vec![0u8; 36];
    hhea[0..4].copy_from_slice(&0x0001_0000u32.to_be_bytes());
    hhea[4..6].copy_from_slice(&be16(800));
    hhea[6..8].copy_from_slice(&(-200i16).to_be_bytes());
    hhea[34..36].copy_from_slice(&be16(3));

    let mut hmtx = Vec::new();
    for (adv, lsb) in [(500u16, 0u16), (600, 10), (700, 20)] {
        hmtx.extend_from_slice(&be16(adv));
        hmtx.extend_from_slice(&be16(lsb));
    }
    hmtx.extend_from_slice(&be16(30));
    hmtx.extend_from_slice(&be16(40));

    let mut maxp = Vec::new();
    maxp.extend_from_slice(&0x0000_5000u32.to_be_bytes());
    maxp.extend_from_slice(&be16(5));

    let cmap = build_cmap_format4(&vec![('A', 1), ('B', 2), ('C', 3)]).unwrap();
    let tables = vec![
        (*b"cmap", cmap),
        (*b"glyf", glyf),
        (*b"head", head),
        (*b"hhea", hhea),
        (*b"hmtx", hmtx),
        (*b"loca", loca),
        (*b"maxp", maxp),
    ];
    build_sfnt(&tables).unwrap()
}

fn tiny_font() -> FontData {
    FontData::load(tiny_font_bytes()).unwrap()
}

#[test]
fn loads_static_glyf_font() {
    let data = tiny_font();
    assert!(data.bytes().len() > 100);
}

#[test]
fn font_rejects_garbage_bytes() {
    assert_eq!(FontData::load(vec![0u8; 16]).unwrap_err(), FontError::ParseError);
}

#[test]
fn the_built_font_checksums_to_the_magic_constant() {
    assert_eq!(table_checksum(&tiny_font_bytes()), 0xB1B0_AFBA);
}

#[test]
fn tests_subset_checksum_adjustment_makes_the_whole_file_checksum_correct() {
    let subset = subset_font(&tiny_font(), &vec!['A', 'C']).unwrap();
    assert_eq!(table_checksum(&subset.font_data), 0xB1B0_AFBAu32);
}

#[test]
fn subset_keeps_notdef_and_renumbers_in_original_order() {
    let subset = subset_font(&tiny_font(), &vec!['C']).unwrap();
    assert_eq!(subset.num_glyphs, 2);
    assert_eq!(subset.char_to_gid, vec![('C', 1)]);
    assert_eq!(subset.advances, vec![500, 700]);
    assert_eq!(subset.units_per_em, 1000);
}

#[test]
fn tests_composite_glyph_closure_pulls_in_component_glyphs() {
    let subset = subset_font(&tiny_font(), &vec!['B']).unwrap();
    assert!(subset.num_glyphs > 2, "expected the component glyph too, got {} glyphs", subset.num_glyphs);
    assert_eq!(subset.char_to_gid, vec![('B', 2)]);
    FontData::load(subset.font_data).expect("subset with composite glyphs must still be a valid font");
}

#[test]
fn tests_unrepresentable_characters_are_omitted_not_an_error() {
    let subset = subset_font(&tiny_font(), &vec!['A', 'Z', '\u{E000}']).unwrap();
    assert_eq!(subset.char_to_gid, vec![('A', 1)]);
}

#[test]
fn tests_empty_char_set_still_produces_a_loadable_notdef_only_font() {
    let subset = subset_font(&tiny_font(), &Vec::new()).unwrap();
    assert_eq!(subset.num_glyphs, 1);
    FontData::load(subset.font_data).expect("a notdef-only subset must still be a valid font");
}

#[test]
fn tests_subset_round_trips_through_skrifa_and_is_internally_consistent() {
    let subset = subset_font(&tiny_font(), &vec!['A', 'B', 'C']).unwrap();
    let reloaded = FontData::load(subset.font_data.clone()).expect("subset must be loadable");
    let font = skrifa::FontRef::new(reloaded.bytes()).unwrap();
    assert_eq!(font.maxp().unwrap().num_glyphs(), subset.num_glyphs);
    assert_eq!(font.head().unwrap().index_to_loc_format(), 1);
    assert_eq!(font.hhea().unwrap().number_of_h_metrics(), subset.num_glyphs);
}

#[test]
fn tests_subset_cmap_lookup_matches_char_to_gid_mapping() {
    let subset = subset_font(&tiny_font(), &vec!['A', 'C']).unwrap();
    let font = skrifa::FontRef::new(&subset.font_data).unwrap();
    for &(ch, gid) in &subset.char_to_gid {
        let found = font.charmap().map(ch).expect("subset cmap must resolve every included character");
        assert_eq!(found.to_u32() as u16, gid);
    }
}

#[test]
fn tests_subset_preserves_advance_widths_for_used_glyphs() {
    let subset = subset_font(&tiny_font(), &vec!['A', 'B', 'C']).unwrap();
    let font = skrifa::FontRef::new(&subset.font_data).unwrap();
    let hmtx = font.hmtx().unwrap();
    let expected = [(1u16, 600u16), (2, 700), (3, 700)];
    for (gid, adv) in expected {
        assert_eq!(hmtx.advance(skrifa::GlyphId::new(gid as u32)), Some(adv));
        assert_eq!(subset.advances[gid as usize], adv);
    }
}

#[test]
fn parses_short_and_long_loca() {
    assert_eq!(parse_loca(&[0, 0, 0, 6, 0, 10], 2, false).unwrap(), vec![0, 12, 20]);
    assert_eq!(parse_loca(&[0, 0, 0, 0, 0, 0, 0, 12], 1, true).unwrap(), vec![0, 12]);
    assert_eq!(parse_loca(&[0, 0], 1, false).unwrap_err(), FontError::MalformedFont);
}

#[test]
fn finds_composite_components() {
    let mut g = vec![0xFF, 0xFF, 0, 0, 0, 0, 0, 0, 0, 0];
    g.extend_from_slice(&[0x00, 0x21, 0x00, 0x07, 0x00, 0x00, 0x00, 0x00]); // words + more components
    g.extend_from_slice(&[0x00, 0x00, 0x00, 0x09, 0x00, 0x00]); // bytes, last
    let comps = glyph_components(&g);
    assert_eq!(comps.len(), 2);
    assert_eq!((comps[0].gid_offset, comps[0].gid), (12, 7));
    assert_eq!((comps[1].gid_offset, comps[1].gid), (20, 9));
    assert!(glyph_components(&[0, 1, 0, 0, 0, 0, 0, 0, 0, 0]).is_empty());
}

#[test]
fn closure_reports_a_malformed_reachable_glyph() {
    let used: BTreeSet<u16> = [1u16].into_iter().collect();
    // glyph 1's range is reversed
    assert_eq!(composite_glyph_closure(used, &[0, 10, 4], &[0u8; 10]).unwrap_err(), FontError::MalformedFont);
    let used: BTreeSet<u16> = [0u16].into_iter().collect();
    let set = composite_glyph_closure(used, &[0, 0, 0], &[]).unwrap();
    assert_eq!(set, [0u16].into_iter().collect::<BTreeSet<u16>>());
}

#[test]
fn closure_adds_the_components_of_composite_glyphs() {
    // glyph 1 is a composite of glyph 2; glyph 3 is unused
    let simple = [0u8, 1, 0, 0, 0, 0, 0, 100, 0, 100];
    let mut composite = vec![0xFFu8, 0xFF, 0, 0, 0, 0, 0, 100, 0, 100];
    composite.extend_from_slice(&0x0001u16.to_be_bytes());
    composite.extend_from_slice(&2u16.to_be_bytes());
    composite.extend_from_slice(&[0, 0, 0, 0]);
    let mut glyf = composite.clone();
    glyf.extend_from_slice(&simple);
    glyf.extend_from_slice(&simple);
    let c = composite.len() as u32;
    let s = simple.len() as u32;
    let loca = [0, 0, c, c + s, c + 2 * s];
    let used: BTreeSet<u16> = [0u16, 1].into_iter().collect();
    let set = composite_glyph_closure(used, &loca, &glyf).unwrap();
    assert_eq!(set, [0u16, 1, 2].into_iter().collect::<BTreeSet<u16>>());
}

#[test]
fn search_params_follow_the_binary_search_rules() {
    assert_eq!(sfnt_search_params(7, 16), (64, 2, 48));
    assert_eq!(sfnt_search_params(1, 16), (16, 0, 0));
    assert_eq!(sfnt_search_params(16, 16), (256, 4, 0));
}

#[test]
fn cmap_format4_maps_every_bmp_character() {
    let table = build_cmap_format4(&vec![('A', 1), ('B', 2), ('\u{20AC}', 7)]).unwrap();
    // version 0, one subtable (3, 1) at offset 12, format 4
    assert_eq!(&table[0..4], &[0, 0, 0, 1]);
    assert_eq!(&table[4..8], &[0, 3, 0, 1]);
    assert_eq!(&table[12..14], &[0, 4]);
}

#[test]
fn unrepresentable_glyph_is_none_not_a_panic() {
    let data = tiny_font();
    assert_eq!(data.advance_units('\u{E000}'), None);
    assert_eq!(data.glyph_id('\u{E000}'), None);
}

#[test]
fn glyph_ids_and_advances_come_from_the_font() {
    let data = tiny_font();
    assert_eq!(data.glyph_id('A'), Some(1));
    assert_eq!(data.glyph_id('C'), Some(3));
    assert_eq!(data.advance_units('A'), Some(600));
    assert_eq!(data.advance_units('C'), Some(700));
    assert_eq!(data.units_per_em(), 1000);
}

#[test]
fn font_errors_have_messages() {
    assert_eq!(FontError::ParseError.message(), "could not parse font data");
    assert_eq!(FontError::UnsupportedFont.message(), "unsupported font (need static TrueType glyf)");
    assert_eq!(FontError::MalformedFont.message(), "malformed or inconsistent font tables");
}

#[test]
fn vertical_metrics_come_from_the_font() {
    let m = tiny_font().vertical_metrics();
    assert_eq!(m.ascent, 800);
    assert_eq!(m.descent, -200);
    // No OS/2 table: the capital height falls back to the ascent.
    assert_eq!(m.cap_height, 800);
    assert_eq!(m.bbox, (-50, -210, 900, 820));
    assert!(!m.is_italic);
    assert!(!m.is_bold);
}
