use lwpdf::fonts::cmap::build_cmap_format4;
use lwpdf::fonts::font::FontData;
use lwpdf::fonts::sfnt::{build_sfnt, table_checksum};
use lwpdf::fonts::subset::subset_font;
use skrifa::raw::TableProvider;
use skrifa::MetadataProvider;

fn be16(v: u16) -> [u8; 2] {
    v.to_be_bytes()
}

/// A tiny static TrueType font: `.notdef` (empty), `A` (simple), `B` (a
/// composite of `A`), `C` (simple) and an unmapped simple glyph; three
/// long horizontal metrics, the last two glyphs sharing the last advance.
fn tiny_font_bytes() -> Vec<u8> {
    let simple = [0u8, 0, 0, 0, 0, 0, 0, 100, 0, 100, 0, 0];
    let mut composite = vec![0xFFu8, 0xFF, 0, 0, 0, 0, 0, 100, 0, 100];
    composite.extend_from_slice(&be16(0x0001)); // ARG_1_AND_2_ARE_WORDS, no more components
    composite.extend_from_slice(&be16(1)); // glyph A
    composite.extend_from_slice(&[0, 0, 0, 0]);
    let mut glyf = Vec::new();
    let mut loca = Vec::new();
    let glyphs: Vec<&[u8]> = vec![&[], &simple, &composite, &simple, &simple];
    for g in &glyphs {
        loca.extend_from_slice(&(glyf.len() as u32).to_be_bytes());
        glyf.extend_from_slice(g);
    }
    loca.extend_from_slice(&(glyf.len() as u32).to_be_bytes());

    let mut head = vec![0u8; 54];
    head[0..4].copy_from_slice(&0x0001_0000u32.to_be_bytes());
    head[12..16].copy_from_slice(&0x5F0F_3CF5u32.to_be_bytes());
    head[18..20].copy_from_slice(&be16(1000));
    head[50..52].copy_from_slice(&be16(1));

    let mut hhea = vec![0u8; 36];
    hhea[0..4].copy_from_slice(&0x0001_0000u32.to_be_bytes());
    hhea[4..6].copy_from_slice(&be16(800));
    hhea[6..8].copy_from_slice(&(-200i16).to_be_bytes());
    hhea[34..36].copy_from_slice(&be16(3));

    let mut hmtx = Vec::new();
    for (adv, lsb) in [(500u16, 0u16), (600, 10), (700, 20)] {
        hmtx.extend_from_slice(&be16(adv));
        hmtx.extend_from_slice(&be16(lsb));
    }
    hmtx.extend_from_slice(&be16(30));
    hmtx.extend_from_slice(&be16(40));

    let mut maxp = Vec::new();
    maxp.extend_from_slice(&0x0000_5000u32.to_be_bytes());
    maxp.extend_from_slice(&be16(5));

    let cmap = build_cmap_format4(&vec![('A', 1), ('B', 2), ('C', 3)]).unwrap();
    let tables = vec![
        (*b"cmap", cmap),
        (*b"glyf", glyf),
        (*b"head", head),
        (*b"hhea", hhea),
        (*b"hmtx", hmtx),
        (*b"loca", loca),
        (*b"maxp", maxp),
    ];
    build_sfnt(&tables).unwrap()
}

fn tiny_font() -> FontData {
    FontData::load(tiny_font_bytes()).unwrap()
}

#[test]
fn subset_subset_checksum_adjustment_makes_the_whole_file_checksum_correct() {
    let subset = subset_font(&tiny_font(), &vec!['A', 'C']).unwrap();
    assert_eq!(table_checksum(&subset.font_data), 0xB1B0_AFBAu32);
}

#[test]
fn subset_composite_glyph_closure_pulls_in_component_glyphs() {
    let subset = subset_font(&tiny_font(), &vec!['B']).unwrap();
    assert!(subset.num_glyphs > 2, "expected the component glyph too, got {} glyphs", subset.num_glyphs);
    assert_eq!(subset.char_to_gid, vec![('B', 2)]);
    FontData::load(subset.font_data).expect("subset with composite glyphs must still be a valid font");
}

#[test]
fn subset_unrepresentable_characters_are_omitted_not_an_error() {
    let subset = subset_font(&tiny_font(), &vec!['A', 'Z', '\u{E000}']).unwrap();
    assert_eq!(subset.char_to_gid, vec![('A', 1)]);
}

#[test]
fn subset_empty_char_set_still_produces_a_loadable_notdef_only_font() {
    let subset = subset_font(&tiny_font(), &Vec::new()).unwrap();
    assert_eq!(subset.num_glyphs, 1);
    FontData::load(subset.font_data).expect("a notdef-only subset must still be a valid font");
}

#[test]
fn subset_subset_round_trips_through_skrifa_and_is_internally_consistent() {
    let subset = subset_font(&tiny_font(), &vec!['A', 'B', 'C']).unwrap();
    let reloaded = FontData::load(subset.font_data.clone()).expect("subset must be loadable");
    let font = skrifa::FontRef::new(reloaded.bytes()).unwrap();
    assert_eq!(font.maxp().unwrap().num_glyphs(), subset.num_glyphs);
    assert_eq!(font.head().unwrap().index_to_loc_format(), 1);
    assert_eq!(font.hhea().unwrap().number_of_h_metrics(), subset.num_glyphs);
}

#[test]
fn subset_subset_cmap_lookup_matches_char_to_gid_mapping() {
    let subset = subset_font(&tiny_font(), &vec!['A', 'C']).unwrap();
    let font = skrifa::FontRef::new(&subset.font_data).unwrap();
    for &(ch, gid) in &subset.char_to_gid {
        let found = font.charmap().map(ch).expect("subset cmap must resolve every included character");
        assert_eq!(found.to_u32() as u16, gid);
    }
}

#[test]
fn subset_subset_preserves_advance_widths_for_used_glyphs() {
    let subset = subset_font(&tiny_font(), &vec!['A', 'B', 'C']).unwrap();
    let font = skrifa::FontRef::new(&subset.font_data).unwrap();
    let hmtx = font.hmtx().unwrap();
    let expected = [(1u16, 600u16), (2, 700), (3, 700)];
    for (gid, adv) in expected {
        assert_eq!(hmtx.advance(skrifa::GlyphId::new(gid as u32)), Some(adv));
        assert_eq!(subset.advances[gid as usize], adv);
    }
}

