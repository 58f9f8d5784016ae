//! TrueType subsetting: rewrites `glyf`, `loca`, `hmtx`, `head`, `hhea`,
//! `maxp` and `cmap` for exactly the glyphs a document uses (plus
//! `.notdef` and the full composite-glyph closure). `skrifa` locates the
//! tables and resolves `cmap`, `head`, `hhea` and `maxp` metadata; the
//! byte-level rewriting is this module's own.

use std::collections::BTreeSet;
use skrifa::raw::TableProvider;
use skrifa::MetadataProvider;
use vstd::prelude::*;
use crate::bytes::{be16, push_u16_be, read_u16, set_u16_be, splice, u16_be};
use crate::fonts::cmap::{build_cmap_format4, cmap_table, format4_len};
use crate::fonts::font::{FontData, FontError};
use crate::fonts::glyf::{
    closed_superset, closed_under_components, comps_of, glyph_bytes, in_range, lemma_glyph_components_in_bounds,
    least_closed_superset, valid_range, composite_glyph_closure, flags_of, glyf_concat, glyph_closure, glyph_flags, has_closure, includes, lemma_least_closed_superset_unique,
    loca_concat, loca_entry, loca_fits, parse_loca, rebuild_glyf_and_loca, rebuild_ok,
};
use crate::fonts::sfnt::{build_sfnt, find_tag, head_tag, sfnt_file, sfnt_fits, table_list, tdata};

verus! {

/// Whether `skrifa::FontRef::new` accepts `font`.
pub uninterp spec fn skrifa_parses(font: Seq<u8>) -> bool;

/// The bytes `FontRef::data_for_tag` gives for `tag` (`None` when the
/// font does not parse or has no such table).
pub uninterp spec fn skrifa_table(font: Seq<u8>, tag: Seq<u8>) -> Option<Seq<u8>>;

/// `head.indexToLocFormat` as `FontRef::head` reads it (`None` when the
/// font or its `head` table does not parse).
pub uninterp spec fn skrifa_loc_format(font: Seq<u8>) -> Option<i16>;

/// `head.unitsPerEm` as `FontRef::head` reads it.
pub uninterp spec fn skrifa_units_per_em(font: Seq<u8>) -> Option<u16>;

/// `hhea.numberOfHMetrics` as `FontRef::hhea` reads it.
pub uninterp spec fn skrifa_h_metrics(font: Seq<u8>) -> Option<u16>;

/// `maxp.numGlyphs` as `FontRef::maxp` reads it.
pub uninterp spec fn skrifa_num_glyphs(font: Seq<u8>) -> Option<u16>;

/// The nominal glyph the font's character map gives `ch`.
pub uninterp spec fn skrifa_glyph(font: Seq<u8>, ch: char) -> Option<u32>;

/// `skrifa::FontRef::new(font)`: whether the font's table directory
/// parses. Only its answer is named; nothing is stated of which inputs
/// parse.
#[verifier::external_body]
fn font_ref_parses(font: &[u8]) -> (r: bool)
    ensures
        r == skrifa_parses(font@),
{
    skrifa::FontRef::new(font).is_ok()
}

/// `FontRef::data_for_tag(Tag::new(tag))` on the font parsed from `font`,
/// copied out (`None` when parsing fails or the table is absent).
#[verifier::external_body]
fn table_bytes(font: &[u8], tag: &[u8; 4]) -> (r: Option<Vec<u8>>)
    ensures
        match r {
            Some(v) => skrifa_table(font@, tag@) == Some(v@),
            None => skrifa_table(font@, tag@) is None,
        },
{
    match skrifa::FontRef::new(font) {
        Ok(f) => match f.data_for_tag(skrifa::Tag::new(tag)) {
            Some(d) => Some(d.as_bytes().to_vec()),
            None => None,
        },
        Err(_) => None,
    }
}

/// `Head::index_to_loc_format` of `FontRef::head()` (`None` when the font
/// or its `head` table does not parse).
#[verifier::external_body]
fn head_loc_format(font: &[u8]) -> (r: Option<i16>)
    ensures
        r == skrifa_loc_format(font@),
{
    match skrifa::FontRef::new(font) {
        Ok(f) => match f.head() {
            Ok(h) => Some(h.index_to_loc_format()),
            Err(_) => None,
        },
        Err(_) => None,
    }
}

/// `Head::units_per_em` of `FontRef::head()`.
#[verifier::external_body]
fn head_units_per_em(font: &[u8]) -> (r: Option<u16>)
    ensures
        r == skrifa_units_per_em(font@),
{
    match skrifa::FontRef::new(font) {
        Ok(f) => match f.head() {
            Ok(h) => Some(h.units_per_em()),
            Err(_) => None,
        },
        Err(_) => None,
    }
}

/// `Hhea::number_of_h_metrics` of `FontRef::hhea()`.
#[verifier::external_body]
fn hhea_h_metrics(font: &[u8]) -> (r: Option<u16>)
    ensures
        r == skrifa_h_metrics(font@),
{
    match skrifa::FontRef::new(font) {
        Ok(f) => match f.hhea() {
            Ok(h) => Some(h.number_of_h_metrics()),
            Err(_) => None,
        },
        Err(_) => None,
    }
}

/// `Maxp::num_glyphs` of `FontRef::maxp()`.
#[verifier::external_body]
fn maxp_num_glyphs(font: &[u8]) -> (r: Option<u16>)
    ensures
        r == skrifa_num_glyphs(font@),
{
    match skrifa::FontRef::new(font) {
        Ok(f) => match f.maxp() {
            Ok(m) => Some(m.num_glyphs()),
            Err(_) => None,
        },
        Err(_) => None,
    }
}

/// `Charmap::map(ch)` on the font's `charmap()`, as a raw glyph number.
#[verifier::external_body]
fn charmap_glyph(font: &[u8], ch: char) -> (r: Option<u32>)
    ensures
        r == skrifa_glyph(font@, ch),
{
    match skrifa::FontRef::new(font) {
        Ok(f) => match f.charmap().map(ch) {
            Some(g) => Some(g.to_u32()),
            None => None,
        },
        Err(_) => None,
    }
}

// ---------------------------------------------------------------------
// Characters to glyphs.
// ---------------------------------------------------------------------

/// Characters strictly increasing, as a set iterates them.
pub open spec fn strictly_increasing(chars: Seq<char>) -> bool {
    forall|i: int, j: int| 0 <= i < j < chars.len() ==> (chars[i] as u32) < (chars[j] as u32)
}

/// The characters the font maps, each with its original glyph ID, in
/// input order.
pub open spec fn mapped_chars(font: Seq<u8>, chars: Seq<char>) -> Seq<(char, u16)>
    decreases chars.len(),
{
    if chars.len() == 0 {
        Seq::empty()
    } else {
        let prev = mapped_chars(font, chars.drop_last());
        match skrifa_glyph(font, chars.last()) {
            Some(g) => prev.push((chars.last(), g as u16)),
            None => prev,
        }
    }
}

/// Every glyph the character map gives fits a 16-bit glyph ID.
pub open spec fn glyph_ids_fit(font: Seq<u8>, chars: Seq<char>) -> bool {
    forall|i: int|
        0 <= i < chars.len() ==> match #[trigger] skrifa_glyph(font, chars[i]) {
            Some(g) => g <= 0xFFFF,
            None => true,
        }
}

/// `.notdef` plus every glyph of `pairs`, as a membership table.
pub open spec fn seed_of(pairs: Seq<(char, u16)>) -> Seq<bool> {
    Seq::new(65536, |g: int| g == 0 || exists|i: int| 0 <= i < pairs.len() && #[trigger] pairs[i].1 == g)
}

proof fn lemma_mapped_chars_sorted(font: Seq<u8>, chars: Seq<char>)
    requires
        strictly_increasing(chars),
    ensures
        forall|i: int| 0 <= i < mapped_chars(font, chars).len() ==> exists|j: int|
            0 <= j < chars.len() && #[trigger] mapped_chars(font, chars)[i].0 == chars[j],
        crate::fonts::cmap::chars_increasing(mapped_chars(font, chars)),
    decreases chars.len(),
{
    if chars.len() > 0 {
        let c = chars.drop_last();
        assert(strictly_increasing(c));
        lemma_mapped_chars_sorted(font, c);
        let p = mapped_chars(font, c);
        assert forall|i: int| 0 <= i < p.len() implies (p[i].0 as u32) < (chars.last() as u32) by {
            let j = choose|j: int| 0 <= j < c.len() && #[trigger] p[i].0 == c[j];
            assert(c[j] == chars[j]);
        }
        assert forall|i: int| 0 <= i < mapped_chars(font, chars).len() implies exists|j: int|
            0 <= j < chars.len() && #[trigger] mapped_chars(font, chars)[i].0 == chars[j] by {
            if i < p.len() {
                let j = choose|j: int| 0 <= j < c.len() && #[trigger] p[i].0 == c[j];
                assert(c[j] == chars[j]);
                assert(mapped_chars(font, chars)[i] == p[i]);
            } else {
                assert(mapped_chars(font, chars)[i].0 == chars[chars.len() - 1]);
            }
        }
    }
}

/// Maps each character to its original glyph ID (characters the font has
/// no glyph for are left out) and seeds the used-glyph table with
/// `.notdef` and every mapped glyph. A glyph ID past 16 bits is
/// `MalformedFont`.
fn map_chars_to_glyphs(font: &[u8], chars: &Vec<char>) -> (r: Result<(Vec<(char, u16)>, BTreeSet<u16>), FontError>)
    ensures
        r is Ok <==> glyph_ids_fit(font@, chars@),
        r is Err ==> r == Err::<(Vec<(char, u16)>, BTreeSet<u16>), FontError>(FontError::MalformedFont),
        r matches Ok((pairs, used)) ==> pairs@ == mapped_chars(font@, chars@) && glyph_flags(used@) == seed_of(pairs@),
{
    let mut pairs: Vec<(char, u16)> = Vec::new();
    let mut used: BTreeSet<u16> = BTreeSet::new();
    used.insert(0);
    assert(glyph_flags(used@) =~= seed_of(pairs@));
    let mut i: usize = 0;
    while i < chars.len()
        invariant
            i <= chars@.len(),
            pairs@ == mapped_chars(font@, chars@.take(i as int)),
            glyph_flags(used@) == seed_of(pairs@),
            glyph_ids_fit(font@, chars@.take(i as int)),
        decreases chars@.len() - i,
    {
        let ch = chars[i];
        let ghost pre = chars@.take(i as int);
        assert(chars@.take(i + 1).drop_last() =~= pre);
        match charmap_glyph(font, ch) {
            Some(gid) => {
                if gid > 0xFFFF {
                    assert(!glyph_ids_fit(font@, chars@)) by {
                        assert(chars@[i as int] == ch);
                    }
                    return Err(FontError::MalformedFont);
                }
                let ghost old_pairs = pairs@;
                let ghost old_used = used@;
                pairs.push((ch, gid as u16));
                used.insert(gid as u16);
                proof {
                    assert forall|x: int| 0 <= x < 65536 implies glyph_flags(used@)[x] == seed_of(pairs@)[x] by {
                        assert(glyph_flags(old_used)[x] == seed_of(old_pairs)[x]);
                        if x != gid as int {
                            assert((x as u16) != (gid as u16));
                            assert(used@.contains(x as u16) == old_used.contains(x as u16));
                        }
                        if x == gid as int {
                            assert(pairs@[old_pairs.len() as int].1 == x);
                        } else if exists|j: int| 0 <= j < pairs@.len() && #[trigger] pairs@[j].1 == x {
                            let j = choose|j: int| 0 <= j < pairs@.len() && #[trigger] pairs@[j].1 == x;
                            assert(j < old_pairs.len());
                            assert(old_pairs[j].1 == x);
                        } else {
                            assert forall|j: int| 0 <= j < old_pairs.len() implies #[trigger] old_pairs[j].1 != x by {
                                assert(pairs@[j] == old_pairs[j]);
                            }
                        }
                    }
                    assert(glyph_flags(used@) =~= seed_of(pairs@));
                }
            },
            None => {},
        }
        i = i + 1;
        proof {
            assert forall|k: int| 0 <= k < chars@.take(i as int).len() implies match #[trigger] skrifa_glyph(font@, chars@.take(i as int)[k]) {
                Some(g) => g <= 0xFFFF,
                None => true,
            } by {
                if k < i - 1 {
                    assert(chars@.take(i as int)[k] == pre[k]);
                }
            }
        }
    }
    assert(chars@.take(chars@.len() as int) =~= chars@);
    Ok((pairs, used))
}

// ---------------------------------------------------------------------
// Glyph order.
// ---------------------------------------------------------------------

/// The members of `set` below `n`, in increasing order.
pub open spec fn members_below(set: Seq<bool>, n: nat) -> Seq<u16>
    decreases n,
{
    if n == 0 {
        Seq::empty()
    } else {
        let p = members_below(set, (n - 1) as nat);
        if set[n - 1] {
            p.push((n - 1) as u16)
        } else {
            p
        }
    }
}

/// The subset's glyph order: every member of `set`, increasing, so that
/// `.notdef` stays glyph 0.
pub open spec fn glyph_order(set: Seq<bool>) -> Seq<u16> {
    members_below(set, 65536)
}

/// Original glyph ID to new glyph ID: a member's position in the order.
pub open spec fn id_map(set: Seq<bool>) -> Seq<Option<u16>> {
    Seq::new(65536, |g: int| if set[g] { Some(members_below(set, g as nat).len() as u16) } else { None })
}

proof fn lemma_members_below_len(set: Seq<bool>, n: nat)
    ensures
        members_below(set, n).len() <= n,
    decreases n,
{
    if n > 0 {
        lemma_members_below_len(set, (n - 1) as nat);
    }
}

/// Assigns new, sequential glyph IDs to the members of `used`, returning
/// the order, its length and the original-to-new map. A subset of all
/// 65536 glyph IDs does not fit the 16-bit glyph count: `MalformedFont`.
fn build_glyph_order(used_set: &BTreeSet<u16>) -> (r: Result<(Vec<u16>, u16, Vec<Option<u16>>), FontError>)
    ensures
        r is Ok <==> glyph_order(glyph_flags(used_set@)).len() <= 65535,
        r is Err ==> r == Err::<(Vec<u16>, u16, Vec<Option<u16>>), FontError>(FontError::MalformedFont),
        r matches Ok((ordered, n, map)) ==> ordered@ == glyph_order(glyph_flags(used_set@)) && n == ordered@.len()
            && map@ == id_map(glyph_flags(used_set@)),
{
    let used = flags_of(used_set);
    let mut ordered: Vec<u16> = Vec::new();
    let mut map: Vec<Option<u16>> = Vec::new();
    let mut g: usize = 0;
    while g < 65536
        invariant
            g <= 65536,
            used@.len() == 65536,
            ordered@ == members_below(used@, g as nat),
            map@ == id_map(used@).take(g as int),
        decreases 65536 - g,
    {
        proof {
            lemma_members_below_len(used@, g as nat);
        }
        if used[g] {
            map.push(Some(ordered.len() as u16));
            ordered.push(g as u16);
        } else {
            map.push(None);
        }
        g = g + 1;
        assert(map@ =~= id_map(used@).take(g as int));
    }
    assert(id_map(used@).take(65536) =~= id_map(used@));
    if ordered.len() > 65535 {
        return Err(FontError::MalformedFont);
    }
    let n = ordered.len() as u16;
    Ok((ordered, n, map))
}

// ---------------------------------------------------------------------
// hmtx.
// ---------------------------------------------------------------------

/// The raw (advance width, left side bearing) fields of original glyph
/// `g` in `hmtx` with `nh` long metrics: glyphs past the long metrics
/// share the last advance and have their bearing from the trailing
/// array (0 past its end). `None` when `hmtx` is too short to read them.
pub open spec fn orig_metric(h: Seq<u8>, nh: nat, g: nat) -> Option<(nat, nat)> {
    if g < nh {
        if 4 * g + 4 <= h.len() {
            Some((be16(h, 4 * g as int), be16(h, 4 * g + 2 as int)))
        } else {
            None
        }
    } else if 4 * nh <= h.len() + 2 {
        let lo = 4 * nh + 2 * (g - nh);
        Some((be16(h, 4 * nh - 4), if lo + 2 <= h.len() { be16(h, lo as int) } else { 0 }))
    } else {
        None
    }
}

/// Every glyph of the order has readable metrics.
pub open spec fn hmtx_ok(h: Seq<u8>, nh: nat, ordered: Seq<u16>) -> bool {
    forall|k: int| 0 <= k < ordered.len() ==> (#[trigger] orig_metric(h, nh, ordered[k] as nat)) is Some
}

/// The advance width of original glyph `g`.
pub open spec fn metric_advance(h: Seq<u8>, nh: nat, g: nat) -> nat {
    match orig_metric(h, nh, g) {
        Some(m) => m.0,
        None => 0,
    }
}

/// The left side bearing field of original glyph `g`.
pub open spec fn metric_bearing(h: Seq<u8>, nh: nat, g: nat) -> nat {
    match orig_metric(h, nh, g) {
        Some(m) => m.1,
        None => 0,
    }
}

/// The subset's `hmtx`: one full (advance, bearing) pair per glyph of the
/// first `k` of `ordered`.
pub open spec fn hmtx_table(h: Seq<u8>, nh: nat, ordered: Seq<u16>, k: nat) -> Seq<u8>
    decreases k,
{
    if k == 0 {
        Seq::empty()
    } else {
        let g = ordered[k - 1] as nat;
        hmtx_table(h, nh, ordered, (k - 1) as nat) + u16_be(metric_advance(h, nh, g)) + u16_be(metric_bearing(h, nh, g))
    }
}

/// The advance width of each glyph of the order, in font units.
pub open spec fn hmtx_advances(h: Seq<u8>, nh: nat, ordered: Seq<u16>) -> Seq<u16> {
    Seq::new(ordered.len(), |k: int| metric_advance(h, nh, ordered[k] as nat) as u16)
}

/// Reads glyph `g`'s raw metric fields.
fn read_metric(hmtx: &[u8], nh: u16, g: u16) -> (r: Option<(u16, u16)>)
    requires
        nh >= 1,
    ensures
        match orig_metric(hmtx@, nh as nat, g as nat) {
            Some(m) => r == Some((m.0 as u16, m.1 as u16)) && m.0 < 65536 && m.1 < 65536,
            None => r is None,
        },
{
    let len = hmtx.len();
    if g < nh {
        let off = (g as usize) * 4;
        if off + 4 > len {
            return None;
        }
        Some((read_u16(hmtx, off), read_u16(hmtx, off + 2)))
    } else {
        let nhu = nh as usize;
        if 4 * nhu - 2 > len {
            return None;
        }
        let advance = read_u16(hmtx, 4 * nhu - 4);
        let lo = 4 * nhu + 2 * ((g as usize) - nhu);
        let bearing = if lo + 2 <= len {
            read_u16(hmtx, lo)
        } else {
            0
        };
        Some((advance, bearing))
    }
}

/// Builds the subset's `hmtx` (a full pair per glyph, no trailing-advance
/// compression) and each glyph's advance width. `MalformedFont` when
/// `hmtx` is too short for a glyph's metrics.
fn rebuild_hmtx(ordered: &Vec<u16>, hmtx: &[u8], nh: u16) -> (r: Result<(Vec<u8>, Vec<u16>), FontError>)
    requires
        nh >= 1,
    ensures
        r is Ok <==> hmtx_ok(hmtx@, nh as nat, ordered@),
        r is Err ==> r == Err::<(Vec<u8>, Vec<u16>), FontError>(FontError::MalformedFont),
        r matches Ok((t, adv)) ==> t@ == hmtx_table(hmtx@, nh as nat, ordered@, ordered@.len())
            && adv@ == hmtx_advances(hmtx@, nh as nat, ordered@),
{
    let mut table: Vec<u8> = Vec::new();
    let mut advances: Vec<u16> = Vec::new();
    let mut k: usize = 0;
    while k < ordered.len()
        invariant
            k <= ordered@.len(),
            nh >= 1,
            table@ == hmtx_table(hmtx@, nh as nat, ordered@, k as nat),
            advances@ == hmtx_advances(hmtx@, nh as nat, ordered@).take(k as int),
            forall|j: int| 0 <= j < k ==> (#[trigger] orig_metric(hmtx@, nh as nat, ordered@[j] as nat)) is Some,
        decreases ordered@.len() - k,
    {
        let g = ordered[k];
        match read_metric(hmtx, nh, g) {
            Some((adv, lsb)) => {
                push_u16_be(&mut table, adv);
                push_u16_be(&mut table, lsb);
                advances.push(adv);
                k = k + 1;
                assert(advances@ =~= hmtx_advances(hmtx@, nh as nat, ordered@).take(k as int));
            },
            None => {
                return Err(FontError::MalformedFont);
            },
        }
    }
    assert(hmtx_advances(hmtx@, nh as nat, ordered@).take(ordered@.len() as int) =~= hmtx_advances(hmtx@, nh as nat, ordered@));
    Ok((table, advances))
}

// ---------------------------------------------------------------------
// head, hhea, maxp.
// ---------------------------------------------------------------------

/// `head` cut to its 54 fixed bytes with `indexToLocFormat` set to long.
pub open spec fn patched_head(head: Seq<u8>) -> Seq<u8> {
    splice(head.take(54), 50, u16_be(1))
}

/// `hhea` cut to its 36 fixed bytes with `numberOfHMetrics` set to `n`.
pub open spec fn patched_hhea(hhea: Seq<u8>, n: nat) -> Seq<u8> {
    splice(hhea.take(36), 34, u16_be(n))
}

/// `maxp` with `numGlyphs` set to `n`.
pub open spec fn patched_maxp(maxp: Seq<u8>, n: nat) -> Seq<u8> {
    splice(maxp, 4, u16_be(n))
}

/// The rewritten `head`, `hhea` and `maxp` tables.
pub struct PatchedTables {
    pub head: Vec<u8>,
    pub hhea: Vec<u8>,
    pub maxp: Vec<u8>,
}

/// Rewrites the fields of `head`, `hhea` and `maxp` that depend on the
/// subset: `indexToLocFormat` becomes long (the rebuilt `loca` always is),
/// and the new glyph count goes into `numberOfHMetrics` (the rebuilt
/// `hmtx` has a full entry per glyph) and `numGlyphs`. A table shorter
/// than its fixed part is `MalformedFont`.
fn patch_head_hhea_maxp(head_raw: &[u8], hhea_raw: &[u8], maxp_raw: &[u8], num_glyphs_new: u16) -> (r: Result<
    PatchedTables,
    FontError,
>)
    ensures
        r is Ok <==> head_raw@.len() >= 54 && hhea_raw@.len() >= 36 && maxp_raw@.len() >= 6,
        r is Err ==> r == Err::<PatchedTables, FontError>(FontError::MalformedFont),
        r matches Ok(p) ==> p.head@ == patched_head(head_raw@) && p.hhea@ == patched_hhea(hhea_raw@, num_glyphs_new as nat)
            && p.maxp@ == patched_maxp(maxp_raw@, num_glyphs_new as nat),
{
    if head_raw.len() < 54 || hhea_raw.len() < 36 || maxp_raw.len() < 6 {
        return Err(FontError::MalformedFont);
    }
    let mut head = crate::bytes::copy_range(head_raw, 0, 54);
    assert(head@ =~= head_raw@.take(54));
    set_u16_be(&mut head, 50, 1);
    let mut hhea = crate::bytes::copy_range(hhea_raw, 0, 36);
    assert(hhea@ =~= hhea_raw@.take(36));
    set_u16_be(&mut hhea, 34, num_glyphs_new);
    let mut maxp = crate::bytes::copy_range(maxp_raw, 0, maxp_raw.len());
    assert(maxp@ =~= maxp_raw@);
    set_u16_be(&mut maxp, 4, num_glyphs_new);
    Ok(PatchedTables { head, hhea, maxp })
}

// ---------------------------------------------------------------------
// Character map remapping.
// ---------------------------------------------------------------------

/// `pairs` with each original glyph ID replaced by its new one.
pub open spec fn remapped(pairs: Seq<(char, u16)>, map: Seq<Option<u16>>) -> Seq<(char, u16)> {
    Seq::new(
        pairs.len(),
        |i: int|
            (pairs[i].0, match map[pairs[i].1 as int] {
                Some(n) => n,
                None => 0u16,
            }),
    )
}

/// Every original glyph of `pairs` has a new ID.
pub open spec fn all_remapped(pairs: Seq<(char, u16)>, map: Seq<Option<u16>>) -> bool {
    forall|i: int| 0 <= i < pairs.len() ==> (#[trigger] map[pairs[i].1 as int]) is Some
}

/// Replaces each character's original glyph ID with its new one; an
/// original glyph without a new ID is `MalformedFont`.
fn remap_char_to_gid(pairs: &Vec<(char, u16)>, map: &Vec<Option<u16>>) -> (r: Result<Vec<(char, u16)>, FontError>)
    requires
        map@.len() == 65536,
    ensures
        r is Ok <==> all_remapped(pairs@, map@),
        r is Err ==> r == Err::<Vec<(char, u16)>, FontError>(FontError::MalformedFont),
        r matches Ok(v) ==> v@ == remapped(pairs@, map@),
{
    let mut out: Vec<(char, u16)> = Vec::new();
    let mut i: usize = 0;
    while i < pairs.len()
        invariant
            i <= pairs@.len(),
            map@.len() == 65536,
            out@ == remapped(pairs@, map@).take(i as int),
            forall|j: int| 0 <= j < i ==> (#[trigger] map@[pairs@[j].1 as int]) is Some,
        decreases pairs@.len() - i,
    {
        let (ch, orig) = pairs[i];
        match map[orig as usize] {
            Some(n) => {
                out.push((ch, n));
            },
            None => {
                return Err(FontError::MalformedFont);
            },
        }
        i = i + 1;
        assert(out@ =~= remapped(pairs@, map@).take(i as int));
    }
    assert(remapped(pairs@, map@).take(pairs@.len() as int) =~= remapped(pairs@, map@));
    Ok(out)
}

// ---------------------------------------------------------------------
// Assembly.
// ---------------------------------------------------------------------

pub open spec fn cmap_tag() -> Seq<u8> {
    seq![99u8, 109u8, 97u8, 112u8]
}

pub open spec fn glyf_tag() -> Seq<u8> {
    seq![103u8, 108u8, 121u8, 102u8]
}

pub open spec fn hhea_tag() -> Seq<u8> {
    seq![104u8, 104u8, 101u8, 97u8]
}

pub open spec fn hmtx_tag() -> Seq<u8> {
    seq![104u8, 109u8, 116u8, 120u8]
}

pub open spec fn loca_tag() -> Seq<u8> {
    seq![108u8, 111u8, 99u8, 97u8]
}

pub open spec fn maxp_tag() -> Seq<u8> {
    seq![109u8, 97u8, 120u8, 112u8]
}

/// The `loca` offsets as `parse_loca` reads them.
pub open spec fn loca_offsets(raw: Seq<u8>, num_glyphs: nat, long_format: bool) -> Seq<u32> {
    Seq::new(num_glyphs + 1, |i: int| loca_entry(raw, i, long_format) as u32)
}

/// The subset's seven tables, sorted by tag.
pub open spec fn subset_tables(
    char_to_gid: Seq<(char, u16)>,
    glyf: Seq<u8>,
    loca: Seq<u8>,
    head: Seq<u8>,
    hhea: Seq<u8>,
    hmtx: Seq<u8>,
    maxp: Seq<u8>,
) -> Seq<(Seq<u8>, Seq<u8>)> {
    seq![
        (cmap_tag(), cmap_table(char_to_gid)),
        (glyf_tag(), glyf),
        (head_tag(), head),
        (hhea_tag(), hhea),
        (hmtx_tag(), hmtx),
        (loca_tag(), loca),
        (maxp_tag(), maxp),
    ]
}

/// What a subset is made of: the sfnt binary, each mapped character with
/// its new glyph ID (in character order), the glyph count, each new
/// glyph's advance width in font units, and the font's units per em.
pub struct SubsetModel {
    pub font_data: Seq<u8>,
    pub char_to_gid: Seq<(char, u16)>,
    pub num_glyphs: nat,
    pub advances: Seq<u16>,
    pub units_per_em: u16,
}

/// The subset built from the original tables and header values, or
/// `None` when the font's tables are inconsistent or the result does not
/// fit its fields.
#[verifier::opaque]
pub open spec fn subset_from(
    font: Seq<u8>,
    chars: Seq<char>,
    glyf: Seq<u8>,
    loca_raw: Seq<u8>,
    hmtx: Seq<u8>,
    head: Seq<u8>,
    hhea: Seq<u8>,
    maxp: Seq<u8>,
    loc_format: i16,
    units_per_em: u16,
    nh: u16,
    ng: u16,
) -> Option<SubsetModel> {
    let long = loc_format == 1;
    if !loca_fits(loca_raw, ng as nat, long) || nh == 0 || !glyph_ids_fit(font, chars) {
        None
    } else {
        let loca = loca_offsets(loca_raw, ng as nat, long);
        let pairs = mapped_chars(font, chars);
        let seed = seed_of(pairs);
        if !has_closure(loca, glyf, seed) {
            None
        } else {
            let set = glyph_closure(loca, glyf, seed);
            let order = glyph_order(set);
            let map = id_map(set);
            let c2g = remapped(pairs, map);
            if order.len() > 65535 || !rebuild_ok(order, loca, glyf, map) || !hmtx_ok(hmtx, nh as nat, order)
                || head.len() < 54 || hhea.len() < 36 || maxp.len() < 6 || format4_len(c2g) > 65535 {
                None
            } else {
                let t = subset_tables(
                    c2g,
                    glyf_concat(order, loca, glyf, map, order.len()),
                    loca_concat(order, loca, glyf, map, order.len() + 1),
                    patched_head(head),
                    patched_hhea(hhea, order.len()),
                    hmtx_table(hmtx, nh as nat, order, order.len()),
                    patched_maxp(maxp, order.len()),
                );
                if !sfnt_fits(t) {
                    None
                } else {
                    Some(
                        SubsetModel {
                            font_data: sfnt_file(t),
                            char_to_gid: c2g,
                            num_glyphs: order.len(),
                            advances: hmtx_advances(hmtx, nh as nat, order),
                            units_per_em,
                        },
                    )
                }
            }
        }
    }
}

/// What subsetting `font` to `chars` gives: `ParseError` when skrifa
/// cannot read the font, `UnsupportedFont` without `glyf`, `loca` or
/// `hmtx`, `MalformedFont` when a required table or header is missing or
/// the tables are inconsistent, else the subset.
pub open spec fn subset_result(font: Seq<u8>, chars: Seq<char>) -> Result<SubsetModel, FontError> {
    if !skrifa_parses(font) {
        Err(FontError::ParseError)
    } else if skrifa_table(font, glyf_tag()) is None || skrifa_table(font, loca_tag()) is None
        || skrifa_table(font, hmtx_tag()) is None {
        Err(FontError::UnsupportedFont)
    } else if skrifa_table(font, head_tag()) is None || skrifa_table(font, hhea_tag()) is None
        || skrifa_table(font, maxp_tag()) is None || skrifa_loc_format(font) is None
        || skrifa_units_per_em(font) is None || skrifa_h_metrics(font) is None
        || skrifa_num_glyphs(font) is None {
        Err(FontError::MalformedFont)
    } else {
        match subset_from(
            font,
            chars,
            skrifa_table(font, glyf_tag())->0,
            skrifa_table(font, loca_tag())->0,
            skrifa_table(font, hmtx_tag())->0,
            skrifa_table(font, head_tag())->0,
            skrifa_table(font, hhea_tag())->0,
            skrifa_table(font, maxp_tag())->0,
            skrifa_loc_format(font)->0,
            skrifa_units_per_em(font)->0,
            skrifa_h_metrics(font)->0,
            skrifa_num_glyphs(font)->0,
        ) {
            Some(m) => Ok(m),
            None => Err(FontError::MalformedFont),
        }
    }
}

/// The result of subsetting: a standalone sfnt binary, each requested
/// character the font maps with its glyph ID in that binary (in character
/// order), the binary's glyph count, and each new glyph's advance width in
/// font units together with the font's units per em.
pub struct FontSubset {
    pub font_data: Vec<u8>,
    pub char_to_gid: Vec<(char, u16)>,
    pub num_glyphs: u16,
    pub advances: Vec<u16>,
    pub units_per_em: u16,
}

impl View for FontSubset {
    type V = SubsetModel;

    open spec fn view(&self) -> SubsetModel {
        SubsetModel {
            font_data: self.font_data@,
            char_to_gid: self.char_to_gid@,
            num_glyphs: self.num_glyphs as nat,
            advances: self.advances@,
            units_per_em: self.units_per_em,
        }
    }
}

proof fn lemma_find_head(t: Seq<(Seq<u8>, Seq<u8>)>)
    requires
        t.len() == 7,
        t[0].0 == cmap_tag(),
        t[1].0 == glyf_tag(),
        t[2].0 == head_tag(),
    ensures
        find_tag(t, head_tag(), 0) == 2,
{
    assert(t[0].0[0] != head_tag()[0]);
    assert(t[1].0[0] != head_tag()[1]);
    assert(find_tag(t, head_tag(), 2) == 2);
    assert(find_tag(t, head_tag(), 1) == 2);
}

/// Builds the subset from the original tables and header values.
fn assemble_subset(
    font: &[u8],
    chars: &Vec<char>,
    glyf: &[u8],
    loca_raw: &[u8],
    hmtx: &[u8],
    head: &[u8],
    hhea: &[u8],
    maxp: &[u8],
    loc_format: i16,
    units_per_em: u16,
    nh: u16,
    ng: u16,
) -> (r: Result<FontSubset, FontError>)
    requires
        strictly_increasing(chars@),
    ensures
        match subset_from(
            font@,
            chars@,
            glyf@,
            loca_raw@,
            hmtx@,
            head@,
            hhea@,
            maxp@,
            loc_format,
            units_per_em,
            nh,
            ng,
        ) {
            Some(m) => r matches Ok(s) && s@ == m,
            None => r == Err::<FontSubset, FontError>(FontError::MalformedFont),
        },
{
    reveal(subset_from);
    let long = loc_format == 1;
    let loca = match parse_loca(loca_raw, ng, long) {
        Ok(v) => v,
        Err(e) => return Err(e),
    };
    assert(loca@ =~= loca_offsets(loca_raw@, ng as nat, long));
    if nh == 0 {
        return Err(FontError::MalformedFont);
    }
    let (pairs, used) = match map_chars_to_glyphs(font, chars) {
        Ok(v) => v,
        Err(e) => return Err(e),
    };
    let ghost seed = glyph_flags(used@);
    let set_tree = match composite_glyph_closure(used, loca.as_slice(), glyf) {
        Ok(s) => s,
        Err(e) => return Err(e),
    };
    let ghost set = glyph_flags(set_tree@);
    proof {
        lemma_least_closed_superset_unique(loca@, glyf@, seed, set);
    }
    let (ordered, n, map) = match build_glyph_order(&set_tree) {
        Ok(v) => v,
        Err(e) => return Err(e),
    };
    let (new_glyf, new_loca) = match rebuild_glyf_and_loca(&ordered, loca.as_slice(), glyf, &map) {
        Ok(v) => v,
        Err(e) => return Err(e),
    };
    let (new_hmtx, advances) = match rebuild_hmtx(&ordered, hmtx, nh) {
        Ok(v) => v,
        Err(e) => return Err(e),
    };
    let patched = match patch_head_hhea_maxp(head, hhea, maxp, n) {
        Ok(p) => p,
        Err(e) => return Err(e),
    };
    proof {
        assert forall|i: int| 0 <= i < pairs@.len() implies (#[trigger] map@[pairs@[i].1 as int]) is Some by {
            assert(seed[pairs@[i].1 as int]);
            assert(includes(set, seed));
        }
        lemma_mapped_chars_sorted(font@, chars@);
    }
    let char_to_gid = match remap_char_to_gid(&pairs, &map) {
        Ok(v) => v,
        Err(e) => return Err(e),
    };
    assert(crate::fonts::cmap::chars_increasing(char_to_gid@));
    let new_cmap = match build_cmap_format4(&char_to_gid) {
        Ok(v) => v,
        Err(e) => return Err(e),
    };
    let ghost t = subset_tables(
        char_to_gid@,
        new_glyf@,
        new_loca@,
        patched.head@,
        patched.hhea@,
        new_hmtx@,
        patched.maxp@,
    );
    let tables: Vec<([u8; 4], Vec<u8>)> = vec![
        ([99u8, 109u8, 97u8, 112u8], new_cmap),
        ([103u8, 108u8, 121u8, 102u8], new_glyf),
        ([104u8, 101u8, 97u8, 100u8], patched.head),
        ([104u8, 104u8, 101u8, 97u8], patched.hhea),
        ([104u8, 109u8, 116u8, 120u8], new_hmtx),
        ([108u8, 111u8, 99u8, 97u8], new_loca),
        ([109u8, 97u8, 120u8, 112u8], patched.maxp),
    ];
    assert(table_list(tables@) =~= t);
    proof {
        lemma_find_head(t);
    }
    let font_data = match build_sfnt(&tables) {
        Ok(v) => v,
        Err(e) => return Err(e),
    };
    Ok(FontSubset { font_data, char_to_gid, num_glyphs: n, advances, units_per_em })
}

/// Subsets `font` down to `.notdef` plus exactly the glyphs needed for
/// `chars` (given as a set: strictly increasing), including the full
/// composite-glyph closure. Characters the font has no glyph for are left
/// out of the result, not an error.
pub fn subset_font(font: &FontData, chars: &Vec<char>) -> (r: Result<FontSubset, FontError>)
    requires
        strictly_increasing(chars@),
    ensures
        match subset_result(font@, chars@) {
            Ok(m) => r matches Ok(s) && s@ == m,
            Err(e) => r == Err::<FontSubset, FontError>(e),
        },
{
    let bytes = font.bytes();
    if !font_ref_parses(bytes) {
        return Err(FontError::ParseError);
    }
    let glyf = match table_bytes(bytes, &[103u8, 108u8, 121u8, 102u8]) {
        Some(v) => v,
        None => return Err(FontError::UnsupportedFont),
    };
    let loca = match table_bytes(bytes, &[108u8, 111u8, 99u8, 97u8]) {
        Some(v) => v,
        None => return Err(FontError::UnsupportedFont),
    };
    let hmtx = match table_bytes(bytes, &[104u8, 109u8, 116u8, 120u8]) {
        Some(v) => v,
        None => return Err(FontError::UnsupportedFont),
    };
    let head = match table_bytes(bytes, &[104u8, 101u8, 97u8, 100u8]) {
        Some(v) => v,
        None => return Err(FontError::MalformedFont),
    };
    let hhea = match table_bytes(bytes, &[104u8, 104u8, 101u8, 97u8]) {
        Some(v) => v,
        None => return Err(FontError::MalformedFont),
    };
    let maxp = match table_bytes(bytes, &[109u8, 97u8, 120u8, 112u8]) {
        Some(v) => v,
        None => return Err(FontError::MalformedFont),
    };
    let loc_format = match head_loc_format(bytes) {
        Some(v) => v,
        None => return Err(FontError::MalformedFont),
    };
    let units_per_em = match head_units_per_em(bytes) {
        Some(v) => v,
        None => return Err(FontError::MalformedFont),
    };
    let nh = match hhea_h_metrics(bytes) {
        Some(v) => v,
        None => return Err(FontError::MalformedFont),
    };
    let ng = match maxp_num_glyphs(bytes) {
        Some(v) => v,
        None => return Err(FontError::MalformedFont),
    };
    assemble_subset(
        bytes,
        chars,
        glyf.as_slice(),
        loca.as_slice(),
        hmtx.as_slice(),
        head.as_slice(),
        hhea.as_slice(),
        maxp.as_slice(),
        loc_format,
        units_per_em,
        nh,
        ng,
    )
}

// ---------------------------------------------------------------------
// Laws.
// ---------------------------------------------------------------------

/// A subset is a well-formed sfnt file as far as checksums go: the whole
/// file sums, as big-endian 32-bit words, to `0xB1B0AFBA`.
pub proof fn lemma_subset_checksum(font: Seq<u8>, chars: Seq<char>)
    requires
        subset_result(font, chars) is Ok,
    ensures
        crate::fonts::sfnt::checksum(subset_result(font, chars)->Ok_0.font_data) == crate::fonts::sfnt::sfnt_magic(),
{
    let glyf = skrifa_table(font, glyf_tag())->0;
    let loca_raw = skrifa_table(font, loca_tag())->0;
    let hmtx = skrifa_table(font, hmtx_tag())->0;
    let head = skrifa_table(font, head_tag())->0;
    let hhea = skrifa_table(font, hhea_tag())->0;
    let nh = skrifa_h_metrics(font)->0;
    let ng = skrifa_num_glyphs(font)->0;
    let long = skrifa_loc_format(font)->0 == 1;
    let loca = loca_offsets(loca_raw, ng as nat, long);
    let pairs = mapped_chars(font, chars);
    let set = glyph_closure(loca, glyf, seed_of(pairs));
    let order = glyph_order(set);
    let map = id_map(set);
    reveal(subset_from);
    let t = subset_tables(
        remapped(pairs, map),
        glyf_concat(order, loca, glyf, map, order.len()),
        loca_concat(order, loca, glyf, map, order.len() + 1),
        patched_head(head),
        patched_hhea(hhea, order.len()),
        hmtx_table(hmtx, nh as nat, order, order.len()),
        patched_maxp(skrifa_table(font, maxp_tag())->0, order.len()),
    );
    lemma_find_head(t);
    assert(tdata(t, 2) == patched_head(head));
    assert(crate::fonts::sfnt::tags_ok(t)) by {
        assert forall|i: int| 0 <= i < t.len() implies (#[trigger] t[i]).0.len() == 4 by {}
    }
    crate::fonts::sfnt::lemma_sfnt_file_checksum(t);
}

/// A character appears in the subset's mapping exactly when it was
/// requested and the font has a glyph for it.
pub proof fn lemma_subset_maps_exactly_the_representable(font: Seq<u8>, chars: Seq<char>, ch: char)
    requires
        subset_result(font, chars) is Ok,
    ensures
        (exists|i: int|
            0 <= i < subset_result(font, chars)->Ok_0.char_to_gid.len()
                && #[trigger] subset_result(font, chars)->Ok_0.char_to_gid[i].0 == ch) <==> (chars.contains(ch)
            && skrifa_glyph(font, ch) is Some),
{
    lemma_subset_char_to_gid(font, chars);
    lemma_mapped_chars_members(font, chars, ch);
    let m = subset_result(font, chars)->Ok_0.char_to_gid;
    let p = mapped_chars(font, chars);
    if exists|i: int| 0 <= i < m.len() && #[trigger] m[i].0 == ch {
        let i = choose|i: int| 0 <= i < m.len() && #[trigger] m[i].0 == ch;
        assert(p[i].0 == ch);
    }
    if exists|i: int| 0 <= i < p.len() && #[trigger] p[i].0 == ch {
        let i = choose|i: int| 0 <= i < p.len() && #[trigger] p[i].0 == ch;
        assert(m[i].0 == ch);
    }
}

/// The subset maps the same characters, in the same order, as the font's
/// character map gave them.
proof fn lemma_subset_char_to_gid(font: Seq<u8>, chars: Seq<char>)
    requires
        subset_result(font, chars) is Ok,
    ensures
        subset_result(font, chars)->Ok_0.char_to_gid.len() == mapped_chars(font, chars).len(),
        forall|i: int|
            0 <= i < mapped_chars(font, chars).len() ==> (#[trigger] subset_result(font, chars)->Ok_0.char_to_gid[i]).0
                == mapped_chars(font, chars)[i].0,
{
    reveal(subset_from);
}

proof fn lemma_mapped_chars_members(font: Seq<u8>, chars: Seq<char>, ch: char)
    ensures
        (exists|i: int| 0 <= i < mapped_chars(font, chars).len() && #[trigger] mapped_chars(font, chars)[i].0 == ch)
            <==> (chars.contains(ch) && skrifa_glyph(font, ch) is Some),
    decreases chars.len(),
{
    if chars.len() > 0 {
        let c = chars.drop_last();
        lemma_mapped_chars_members(font, c, ch);
        let p = mapped_chars(font, c);
        let m = mapped_chars(font, chars);
        if exists|i: int| 0 <= i < m.len() && #[trigger] m[i].0 == ch {
            let i = choose|i: int| 0 <= i < m.len() && #[trigger] m[i].0 == ch;
            if i < p.len() {
                assert(m[i] == p[i]);
                let j = choose|j: int| 0 <= j < c.len() && c[j] == ch;
                assert(chars[j] == ch);
            } else {
                assert(chars[chars.len() - 1] == ch);
            }
        }
        if chars.contains(ch) && skrifa_glyph(font, ch) is Some {
            let j = choose|j: int| 0 <= j < chars.len() && chars[j] == ch;
            if j < chars.len() - 1 {
                assert(c[j] == ch);
                assert(c.contains(ch));
                let i = choose|i: int| 0 <= i < p.len() && #[trigger] p[i].0 == ch;
                assert(m[i] == p[i]);
            } else {
                assert(m[m.len() - 1].0 == ch);
            }
        }
    }
}

/// When `seed` has a closed superset, `glyph_closure` is its least one:
/// the glyphs that lie in every closed superset form one.
pub proof fn lemma_glyph_closure_least(loca: Seq<u32>, glyf: Seq<u8>, seed: Seq<bool>)
    requires
        has_closure(loca, glyf, seed),
        seed.len() == 65536,
    ensures
        least_closed_superset(loca, glyf, seed, glyph_closure(loca, glyf, seed)),
{
    let w = choose|w: Seq<bool>| closed_superset(loca, glyf, seed, w);
    let meet = Seq::new(65536, |g: int| forall|s: Seq<bool>| #[trigger] closed_superset(loca, glyf, seed, s) ==> s[g]);
    assert(includes(meet, seed)) by {
        assert forall|g: int| 0 <= g < 65536 && #[trigger] seed[g] implies meet[g] by {
            assert forall|s: Seq<bool>| #[trigger] closed_superset(loca, glyf, seed, s) implies s[g] by {}
        }
    }
    assert(closed_under_components(loca, glyf, meet)) by {
        assert forall|g: int| 0 <= g < 65536 && #[trigger] meet[g] && in_range(loca, g) implies valid_range(loca, glyf, g)
            && forall|i: int|
            0 <= i < comps_of(loca, glyf, g).len() && in_range(loca, #[trigger] comps_of(loca, glyf, g)[i].1 as int)
                ==> meet[comps_of(loca, glyf, g)[i].1 as int] by {
            assert(w[g]);
            assert forall|i: int|
                0 <= i < comps_of(loca, glyf, g).len() && in_range(loca, #[trigger] comps_of(loca, glyf, g)[i].1 as int)
                    implies meet[comps_of(loca, glyf, g)[i].1 as int] by {
                let c = comps_of(loca, glyf, g)[i].1 as int;
                lemma_glyph_components_in_bounds(glyph_bytes(loca, glyf, g));
                assert forall|s: Seq<bool>| #[trigger] closed_superset(loca, glyf, seed, s) implies s[c] by {
                    assert(s[g]);
                }
            }
        }
    }
    assert(closed_superset(loca, glyf, seed, meet));
    assert forall|s: Seq<bool>| #[trigger] closed_superset(loca, glyf, seed, s) implies includes(s, meet) by {
        assert forall|g: int| 0 <= g < 65536 && #[trigger] meet[g] implies s[g] by {}
    }
    assert(least_closed_superset(loca, glyf, seed, meet));
}

proof fn lemma_members_prefix(set: Seq<bool>, n: nat, m: nat)
    requires
        n <= m,
    ensures
        members_below(set, n).len() <= members_below(set, m).len(),
        forall|i: int| 0 <= i < members_below(set, n).len() ==> #[trigger] members_below(set, m)[i] == members_below(set, n)[i],
    decreases m,
{
    if m > n {
        lemma_members_prefix(set, n, (m - 1) as nat);
    }
}

/// A member's new glyph ID leads back to it through the glyph order.
proof fn lemma_order_at_id(set: Seq<bool>, g: nat)
    requires
        g < 65536,
        set.len() == 65536,
        set[g as int],
    ensures
        id_map(set)[g as int] == Some(members_below(set, g).len() as u16),
        members_below(set, g).len() < glyph_order(set).len(),
        glyph_order(set)[members_below(set, g).len() as int] == g,
        members_below(set, g).len() < 65536,
{
    lemma_members_prefix(set, g + 1, 65536);
    lemma_members_below_len(set, g);
}

proof fn lemma_mapped_chars_glyphs(font: Seq<u8>, chars: Seq<char>)
    ensures
        forall|i: int|
            0 <= i < mapped_chars(font, chars).len() ==> #[trigger] skrifa_glyph(font, mapped_chars(font, chars)[i].0) is Some
                && mapped_chars(font, chars)[i].1 == skrifa_glyph(font, mapped_chars(font, chars)[i].0)->0 as u16,
        forall|i: int|
            0 <= i < mapped_chars(font, chars).len() ==> exists|j: int|
                0 <= j < chars.len() && #[trigger] mapped_chars(font, chars)[i].0 == chars[j],
    decreases chars.len(),
{
    if chars.len() > 0 {
        let c = chars.drop_last();
        lemma_mapped_chars_glyphs(font, c);
        let p = mapped_chars(font, c);
        let m = mapped_chars(font, chars);
        assert forall|i: int| 0 <= i < m.len() implies exists|j: int| 0 <= j < chars.len() && #[trigger] m[i].0 == chars[j] by {
            if i < p.len() {
                assert(m[i] == p[i]);
                let j = choose|j: int| 0 <= j < c.len() && #[trigger] p[i].0 == c[j];
                assert(chars[j] == c[j]);
            } else {
                assert(m[i].0 == chars[chars.len() - 1]);
            }
        }
        assert forall|i: int| 0 <= i < m.len() implies #[trigger] skrifa_glyph(font, m[i].0) is Some && m[i].1
            == skrifa_glyph(font, m[i].0)->0 as u16 by {
            if i < p.len() {
                assert(m[i] == p[i]);
            }
        }
    }
}

proof fn lemma_subset_parts(font: Seq<u8>, chars: Seq<char>)
    requires
        subset_result(font, chars) is Ok,
    ensures
        ({
            let hmtx = skrifa_table(font, hmtx_tag())->0;
            let nh = skrifa_h_metrics(font)->0 as nat;
            let loca = loca_offsets(
                skrifa_table(font, loca_tag())->0,
                skrifa_num_glyphs(font)->0 as nat,
                skrifa_loc_format(font)->0 == 1,
            );
            let pairs = mapped_chars(font, chars);
            let seed = seed_of(pairs);
            let set = glyph_closure(loca, skrifa_table(font, glyf_tag())->0, seed);
            let s = subset_result(font, chars)->Ok_0;
            &&& glyph_ids_fit(font, chars)
            &&& set.len() == 65536
            &&& includes(set, seed)
            &&& s.char_to_gid == remapped(pairs, id_map(set))
            &&& s.advances == hmtx_advances(hmtx, nh, glyph_order(set))
        }),
{
    reveal(subset_from);
    let loca = loca_offsets(
        skrifa_table(font, loca_tag())->0,
        skrifa_num_glyphs(font)->0 as nat,
        skrifa_loc_format(font)->0 == 1,
    );
    let seed = seed_of(mapped_chars(font, chars));
    let glyf = skrifa_table(font, glyf_tag())->0;
    lemma_glyph_closure_least(loca, glyf, seed);
}

/// Subsetting keeps every mapped character's advance width: the advance
/// recorded for its new glyph is the one `hmtx` gives its original glyph.
pub proof fn lemma_subset_keeps_advances(font: Seq<u8>, chars: Seq<char>, i: int)
    requires
        subset_result(font, chars) is Ok,
        0 <= i < subset_result(font, chars)->Ok_0.char_to_gid.len(),
    ensures
        ({
            let s = subset_result(font, chars)->Ok_0;
            let ch = s.char_to_gid[i].0;
            &&& skrifa_glyph(font, ch) is Some
            &&& (s.char_to_gid[i].1 as int) < s.advances.len()
            &&& s.advances[s.char_to_gid[i].1 as int] as nat == metric_advance(
                skrifa_table(font, hmtx_tag())->0,
                skrifa_h_metrics(font)->0 as nat,
                skrifa_glyph(font, ch)->0 as nat,
            )
        }),
{
    lemma_subset_parts(font, chars);
    lemma_mapped_chars_glyphs(font, chars);
    let pairs = mapped_chars(font, chars);
    let loca = loca_offsets(
        skrifa_table(font, loca_tag())->0,
        skrifa_num_glyphs(font)->0 as nat,
        skrifa_loc_format(font)->0 == 1,
    );
    let seed = seed_of(pairs);
    let set = glyph_closure(loca, skrifa_table(font, glyf_tag())->0, seed);
    let g = pairs[i].1 as nat;
    let j = choose|j: int| 0 <= j < chars.len() && #[trigger] pairs[i].0 == chars[j];
    assert(skrifa_glyph(font, chars[j]) is Some);
    assert(seed[g as int]);
    assert(set[g as int]);
    lemma_order_at_id(set, g);
}

} // verus!
