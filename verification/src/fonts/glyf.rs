//! `loca`/`glyf` parsing and rewriting: `loca` table parsing, composite
//! glyph component walking, and the composite-glyph closure and glyph
//! renumbering used to rebuild `glyf`/`loca` for a subset.

use std::collections::BTreeSet;
use vstd::prelude::*;
use crate::bytes::{be16, be32, bei16, splice, u16_be, u32_be, read_u16, read_u32, read_i16, push_u32_be, set_u16_be};
use crate::fonts::font::FontError;

verus! {

/// The membership flags of a set of glyph IDs, one for each of the 65536.
pub open spec fn glyph_flags(s: Set<u16>) -> Seq<bool> {
    Seq::new(65536, |i: int| s.contains(i as u16))
}

/// The membership flags of `s`.
pub fn flags_of(s: &BTreeSet<u16>) -> (v: Vec<bool>)
    ensures
        v@ == glyph_flags(s@),
{
    let mut v: Vec<bool> = Vec::new();
    let mut g: u32 = 0;
    while g < 65536
        invariant
            g <= 65536,
            v@.len() == g,
            forall|i: int| 0 <= i < g ==> v@[i] == s@.contains(i as u16),
        decreases 65536 - g,
    {
        let k: u16 = g as u16;
        v.push(s.contains(&k));
        g = g + 1;
    }
    assert(v@ =~= glyph_flags(s@));
    v
}

/// The set whose membership flags are `v`.
pub fn set_of_flags(v: &Vec<bool>) -> (s: BTreeSet<u16>)
    requires
        v@.len() == 65536,
    ensures
        glyph_flags(s@) == v@,
        s@ == Set::new(|x: u16| v@[x as int]),
{
    let mut s: BTreeSet<u16> = BTreeSet::new();
    let mut g: usize = 0;
    while g < 65536
        invariant
            g <= 65536,
            v@.len() == 65536,
            s@ == Set::new(|x: u16| (x as int) < g && v@[x as int]),
        decreases 65536 - g,
    {
        if v[g] {
            s.insert(g as u16);
        }
        g = g + 1;
        assert(s@ =~= Set::new(|x: u16| (x as int) < g && v@[x as int]));
    }
    assert(s@ =~= Set::new(|x: u16| v@[x as int]));
    assert(glyph_flags(s@) =~= v@);
    s
}

/// The `loca` offsets: `num_glyphs + 1` entries, each a big-endian `u32`
/// (long format) or a big-endian `u16` holding half the offset (short).
pub open spec fn loca_entry(loca: Seq<u8>, i: int, long_format: bool) -> nat {
    if long_format { be32(loca, 4 * i) } else { be16(loca, 2 * i) * 2 }
}

/// Whether `loca` is long enough for `num_glyphs + 1` entries.
pub open spec fn loca_fits(loca: Seq<u8>, num_glyphs: nat, long_format: bool) -> bool {
    loca.len() >= (num_glyphs + 1) * (if long_format { 4nat } else { 2nat })
}

/// Parses `num_glyphs + 1` `loca` offsets.
pub fn parse_loca(loca: &[u8], num_glyphs: u16, long_format: bool) -> (r: Result<Vec<u32>, FontError>)
    ensures
        r is Ok <==> loca_fits(loca@, num_glyphs as nat, long_format),
        r is Err ==> r == Err::<Vec<u32>, FontError>(FontError::MalformedFont),
        r matches Ok(v) ==> v@.len() == num_glyphs + 1 && forall|i: int|
            0 <= i < v@.len() ==> #[trigger] v@[i] as nat == loca_entry(loca@, i, long_format),
{
    let count = num_glyphs as usize + 1;
    let unit: usize = if long_format { 4 } else { 2 };
    if loca.len() < count * unit {
        return Err(FontError::MalformedFont);
    }
    let mut v: Vec<u32> = Vec::new();
    let mut i: usize = 0;
    while i < count
        invariant
            i <= count == num_glyphs + 1,
            unit == (if long_format { 4usize } else { 2usize }),
            loca@.len() >= count * unit,
            v@.len() == i,
            forall|j: int| 0 <= j < i ==> #[trigger] v@[j] as nat == loca_entry(loca@, j, long_format),
        decreases count - i,
    {
        if long_format {
            v.push(read_u32(loca, i * 4));
        } else {
            v.push(read_u16(loca, i * 2) as u32 * 2);
        }
        i = i + 1;
    }
    Ok(v)
}

/// A component reference inside a composite glyph: `gid_offset` is where
/// its glyph-index field starts within the glyph's raw bytes.
pub struct Component {
    pub gid_offset: usize,
    pub gid: u16,
}

/// Bytes taken by a component's arguments and transform, from its flags
/// (`ARG_1_AND_2_ARE_WORDS` 0x0001, `WE_HAVE_A_SCALE` 0x0008,
/// `WE_HAVE_AN_X_AND_Y_SCALE` 0x0040, `WE_HAVE_A_TWO_BY_TWO` 0x0080).
pub open spec fn component_args_len(flags: u16) -> nat {
    (if flags & 0x0001u16 != 0 { 4nat } else { 2nat }) + (if flags & 0x0008u16 != 0 {
        2nat
    } else if flags & 0x0040u16 != 0 {
        4nat
    } else if flags & 0x0080u16 != 0 {
        8nat
    } else {
        0nat
    })
}

/// The component records starting at `pos`, as `(gid_offset, gid)` pairs,
/// following `MORE_COMPONENTS` (0x0020) until it is clear or a record
/// would not fit.
pub open spec fn components_from(g: Seq<u8>, pos: nat) -> Seq<(nat, nat)>
    decreases g.len() + 12 - pos,
{
    if pos + 4 > g.len() {
        seq![]
    } else {
        let flags = be16(g, pos as int) as u16;
        let gid_offset = pos + 2;
        let next = gid_offset + 2 + component_args_len(flags);
        seq![(gid_offset, be16(g, gid_offset as int))] + (if flags & 0x0020u16 == 0 {
            seq![]
        } else {
            components_from(g, next)
        })
    }
}

/// The component references of one glyph: none for a glyph shorter than
/// its 10-byte header or with a non-negative contour count (a simple glyph).
pub open spec fn glyph_components_spec(g: Seq<u8>) -> Seq<(nat, nat)> {
    if g.len() < 10 || bei16(g, 0) >= 0 {
        seq![]
    } else {
        components_from(g, 10)
    }
}

pub proof fn lemma_components_in_bounds(g: Seq<u8>, pos: nat)
    ensures
        forall|i: int| 0 <= i < components_from(g, pos).len() ==> (#[trigger] components_from(g, pos)[i]).0 + 2 <= g.len()
            && components_from(g, pos)[i].1 < 65536 && components_from(g, pos)[i].0 >= pos + 2,
    decreases g.len() + 12 - pos,
{
    if pos + 4 <= g.len() {
        let flags = be16(g, pos as int) as u16;
        let next = pos + 4 + component_args_len(flags);
        let head = seq![(pos + 2, be16(g, (pos + 2) as int))];
        if flags & 0x0020u16 != 0 {
            lemma_components_in_bounds(g, next);
            let rest = components_from(g, next);
            assert(components_from(g, pos) == head + rest);
            assert forall|i: int| 0 <= i < components_from(g, pos).len() implies (#[trigger] components_from(
                g,
                pos,
            )[i]).0 + 2 <= g.len() && components_from(g, pos)[i].1 < 65536 && components_from(g, pos)[i].0 >= pos
                + 2 by {
                if i > 0 {
                    assert(components_from(g, pos)[i] == rest[i - 1]);
                }
            }
        } else {
            assert(components_from(g, pos) == head);
        }
    }
}

pub proof fn lemma_glyph_components_in_bounds(g: Seq<u8>)
    ensures
        forall|i: int| 0 <= i < glyph_components_spec(g).len() ==> (#[trigger] glyph_components_spec(g)[i]).0 + 2 <= g.len()
            && glyph_components_spec(g)[i].1 < 65536,
{
    lemma_components_in_bounds(g, 10);
}

/// Walks a single glyph's component records (empty for simple glyphs).
pub fn glyph_components(glyph: &[u8]) -> (out: Vec<Component>)
    ensures
        out@.len() == glyph_components_spec(glyph@).len(),
        forall|i: int| 0 <= i < out@.len() ==> (#[trigger] out@[i]).gid_offset as nat == glyph_components_spec(glyph@)[i].0
            && out@[i].gid as nat == glyph_components_spec(glyph@)[i].1,
{
    let mut out: Vec<Component> = Vec::new();
    if glyph.len() < 10 {
        return out;
    }
    if read_i16(glyph, 0) >= 0 {
        return out;
    }
    let len = glyph.len();
    let mut pos: usize = 10;
    let ghost g = glyph@;
    loop
        invariant_except_break
            len == g.len(),
            g == glyph@,
            10 <= pos <= len,
            out@.len() + components_from(g, pos as nat).len() == glyph_components_spec(g).len(),
            forall|i: int| 0 <= i < out@.len() ==> (#[trigger] out@[i]).gid_offset as nat == glyph_components_spec(g)[i].0
                && out@[i].gid as nat == glyph_components_spec(g)[i].1,
            glyph_components_spec(g) == out@.map_values(|c: Component| (c.gid_offset as nat, c.gid as nat)) + components_from(g, pos as nat),
        ensures
            out@.len() == glyph_components_spec(g).len(),
            forall|i: int| 0 <= i < out@.len() ==> (#[trigger] out@[i]).gid_offset as nat == glyph_components_spec(g)[i].0
                && out@[i].gid as nat == glyph_components_spec(g)[i].1,
        decreases len - pos,
    {
        if len - pos < 4 {
            assert(components_from(g, pos as nat) =~= Seq::<(nat, nat)>::empty());
            break;
        }
        let flags = read_u16(glyph, pos);
        let gid_offset = pos + 2;
        let gid = read_u16(glyph, gid_offset);
        let ghost before = out@;
        out.push(Component { gid_offset, gid });
        let mut adv: usize = 4;
        adv = adv + if flags & 0x0001 != 0 { 4 } else { 2 };
        if flags & 0x0008 != 0 {
            adv = adv + 2;
        } else if flags & 0x0040 != 0 {
            adv = adv + 4;
        } else if flags & 0x0080 != 0 {
            adv = adv + 8;
        }
        assert(adv == 4 + component_args_len(flags));
        assert(out@.map_values(|c: Component| (c.gid_offset as nat, c.gid as nat)) =~= before.map_values(
            |c: Component| (c.gid_offset as nat, c.gid as nat),
        ) + seq![(gid_offset as nat, gid as nat)]);
        if flags & 0x0020 == 0 {
            assert(components_from(g, pos as nat) =~= seq![(gid_offset as nat, gid as nat)]);
            break;
        }
        if adv > len - pos {
            assert(components_from(g, (pos + adv) as nat) =~= Seq::<(nat, nat)>::empty());
            assert(components_from(g, pos as nat) =~= seq![(gid_offset as nat, gid as nat)]);
            break;
        }
        pos = pos + adv;
    }
    out
}

/// Whether glyph `g` has a `loca` entry pair.
pub open spec fn in_range(loca: Seq<u32>, g: int) -> bool {
    0 <= g && g + 1 < loca.len()
}

/// Whether glyph `g`'s `loca` range is ordered and inside `glyf`.
pub open spec fn valid_range(loca: Seq<u32>, glyf: Seq<u8>, g: int) -> bool {
    loca[g] <= loca[g + 1] <= glyf.len()
}

/// Glyph `g`'s bytes.
pub open spec fn glyph_bytes(loca: Seq<u32>, glyf: Seq<u8>, g: int) -> Seq<u8> {
    glyf.subrange(loca[g] as int, loca[g + 1] as int)
}

/// Glyph `g`'s component references.
pub open spec fn comps_of(loca: Seq<u32>, glyf: Seq<u8>, g: int) -> Seq<(nat, nat)> {
    glyph_components_spec(glyph_bytes(loca, glyf, g))
}

/// `c` is a component of the in-range, well-formed glyph `h`.
pub open spec fn component_of(loca: Seq<u32>, glyf: Seq<u8>, h: int, c: int) -> bool {
    &&& in_range(loca, h)
    &&& valid_range(loca, glyf, h)
    &&& exists|i: int| 0 <= i < comps_of(loca, glyf, h).len() && #[trigger] comps_of(loca, glyf, h)[i].1 == c
}

/// Every in-range member is well-formed and has all its in-range
/// components in the set.
pub open spec fn closed_under_components(loca: Seq<u32>, glyf: Seq<u8>, set: Seq<bool>) -> bool {
    forall|g: int|
        0 <= g < 65536 && #[trigger] set[g] && in_range(loca, g) ==> valid_range(loca, glyf, g) && forall|i: int|
            0 <= i < comps_of(loca, glyf, g).len() && in_range(loca, #[trigger] comps_of(loca, glyf, g)[i].1 as int)
                ==> set[comps_of(loca, glyf, g)[i].1 as int]
}

/// `big` holds every member of `small`.
pub open spec fn includes(big: Seq<bool>, small: Seq<bool>) -> bool {
    forall|g: int| 0 <= g < 65536 && #[trigger] small[g] ==> big[g]
}

/// `set` is a membership table over all glyph IDs that holds `seed` and is
/// closed under components.
pub open spec fn closed_superset(loca: Seq<u32>, glyf: Seq<u8>, seed: Seq<bool>, set: Seq<bool>) -> bool {
    &&& set.len() == 65536
    &&& includes(set, seed)
    &&& closed_under_components(loca, glyf, set)
}

/// `set` is the least closed superset of `seed`: it is one, and every
/// other one holds all of its members.
pub open spec fn least_closed_superset(loca: Seq<u32>, glyf: Seq<u8>, seed: Seq<bool>, set: Seq<bool>) -> bool {
    &&& closed_superset(loca, glyf, seed, set)
    &&& forall|s: Seq<bool>| #[trigger] closed_superset(loca, glyf, seed, s) ==> includes(s, set)
}

/// Whether `seed` has any closed superset at all (it has none when a glyph
/// reachable from it has a malformed `loca` range).
pub open spec fn has_closure(loca: Seq<u32>, glyf: Seq<u8>, seed: Seq<bool>) -> bool {
    exists|s: Seq<bool>| closed_superset(loca, glyf, seed, s)
}

/// The composite-glyph closure of `seed`: its least closed superset.
pub open spec fn glyph_closure(loca: Seq<u32>, glyf: Seq<u8>, seed: Seq<bool>) -> Seq<bool> {
    choose|s: Seq<bool>| least_closed_superset(loca, glyf, seed, s)
}

/// A least closed superset is unique, so it is `glyph_closure`.
pub proof fn lemma_least_closed_superset_unique(loca: Seq<u32>, glyf: Seq<u8>, seed: Seq<bool>, set: Seq<bool>)
    requires
        least_closed_superset(loca, glyf, seed, set),
    ensures
        glyph_closure(loca, glyf, seed) == set,
{
    let c = glyph_closure(loca, glyf, seed);
    assert(least_closed_superset(loca, glyf, seed, c));
    assert(includes(c, set));
    assert(includes(set, c));
    assert forall|g: int| 0 <= g < set.len() implies c[g] == set[g] by {
        if set[g] {
            assert(c[g]);
        }
        if c[g] {
            assert(set[g]);
        }
    }
    assert(c =~= set);
}

/// Every glyph in a queue whose non-seed members were each reached as an
/// in-range component of an earlier member lies in every closed superset.
proof fn lemma_queue_in_closed_superset(
    loca: Seq<u32>,
    glyf: Seq<u8>,
    seed: Seq<bool>,
    queue: Seq<u16>,
    s: Seq<bool>,
    k: int,
)
    requires
        closed_superset(loca, glyf, seed, s),
        0 <= k < queue.len(),
        forall|j: int| 0 <= j < queue.len() && !seed[#[trigger] queue[j] as int] ==> exists|p: int|
            0 <= p < j && in_range(loca, queue[j] as int) && #[trigger] component_of(loca, glyf, queue[p] as int, queue[j] as int),
    ensures
        s[queue[k] as int],
    decreases k,
{
    let x = queue[k] as int;
    if !seed[x] {
        let p = choose|p: int| 0 <= p < k && in_range(loca, x) && #[trigger] component_of(loca, glyf, queue[p] as int, x);
        lemma_queue_in_closed_superset(loca, glyf, seed, queue, s, p);
        let h = queue[p] as int;
        let i = choose|i: int| 0 <= i < comps_of(loca, glyf, h).len() && #[trigger] comps_of(loca, glyf, h)[i].1 == x;
        assert(in_range(loca, comps_of(loca, glyf, h)[i].1 as int));
    }
}

/// The byte range of glyph `gid` within `glyf`, from `loca[gid]` and
/// `loca[gid + 1]`.
pub fn glyph_range(loca: &[u32], gid: u16) -> (r: Result<(usize, usize), FontError>)
    ensures
        r is Ok <==> in_range(loca@, gid as int),
        r matches Ok((s, e)) ==> s == loca@[gid as int] && e == loca@[gid + 1],
        r is Err ==> r == Err::<(usize, usize), FontError>(FontError::MalformedFont),
{
    if (gid as usize) + 1 >= loca.len() {
        return Err(FontError::MalformedFont);
    }
    Ok((loca[gid as usize] as usize, loca[gid as usize + 1] as usize))
}

proof fn lemma_distinct_u16_len(q: Seq<u16>)
    requires
        q.no_duplicates(),
    ensures
        q.len() <= 65536,
{
    let qi = q.map_values(|x: u16| x as int);
    assert(qi.no_duplicates()) by {
        assert forall|i: int, j: int| 0 <= i < qi.len() && 0 <= j < qi.len() && i != j implies qi[i] != qi[j] by {
            assert(q[i] != q[j]);
        }
    }
    qi.unique_seq_to_set();
    vstd::set_lib::lemma_int_range(0, 65536);
    assert(qi.to_set().subset_of(vstd::set_lib::set_int_range(0, 65536)));
    vstd::set_lib::lemma_len_subset(qi.to_set(), vstd::set_lib::set_int_range(0, 65536));
}

/// Expands a seed set of glyph IDs (a membership table indexed by glyph ID)
/// to include every transitively-referenced composite-glyph component.
/// Component references outside `loca`'s range are dropped as corrupt
/// data; seed members outside it are kept. Fails with `MalformedFont` on
/// reaching an in-range glyph whose `loca` range is reversed or runs past
/// `glyf`.
pub fn composite_glyph_closure(used: BTreeSet<u16>, loca: &[u32], glyf_raw: &[u8]) -> (r: Result<BTreeSet<u16>, FontError>)
    ensures
        r is Ok <==> has_closure(loca@, glyf_raw@, glyph_flags(used@)),
        r matches Ok(set) ==> least_closed_superset(loca@, glyf_raw@, glyph_flags(used@), glyph_flags(set@)),
        r is Err ==> r == Err::<BTreeSet<u16>, FontError>(FontError::MalformedFont),
{
    let flags = flags_of(&used);
    match closure_flags(flags, loca, glyf_raw) {
        Ok(f) => Ok(set_of_flags(&f)),
        Err(e) => Err(e),
    }
}

/// The closure of `composite_glyph_closure`, over membership flags.
fn closure_flags(used: Vec<bool>, loca: &[u32], glyf_raw: &[u8]) -> (r: Result<Vec<bool>, FontError>)
    requires
        used@.len() == 65536,
    ensures
        r is Ok <==> has_closure(loca@, glyf_raw@, used@),
        r matches Ok(set) ==> least_closed_superset(loca@, glyf_raw@, used@, set@),
        r is Err ==> r == Err::<Vec<bool>, FontError>(FontError::MalformedFont),
{
    let mut set = used;
    let ghost seed = set@;
    let mut queue: Vec<u16> = Vec::new();
    let mut g: usize = 0;
    while g < 65536
        invariant
            g <= 65536,
            set@ == seed,
            seed.len() == 65536,
            forall|x: int| 0 <= x < g ==> (seed[x] <==> queue@.contains(x as u16)),
            forall|j: int| 0 <= j < queue@.len() ==> (queue@[j] as int) < g && seed[queue@[j] as int],
            forall|i: int, j: int| 0 <= i < j < queue@.len() ==> queue@[i] < queue@[j],
        decreases 65536 - g,
    {
        let ghost oq = queue@;
        if set[g] {
            queue.push(g as u16);
            proof {
                assert(queue@[queue@.len() - 1] == g as u16);
            }
        }
        proof {
            assert forall|x: int| 0 <= x < g + 1 implies (seed[x] <==> queue@.contains(x as u16)) by {
                if x < g {
                    if oq.contains(x as u16) {
                        let w = choose|w: int| 0 <= w < oq.len() && oq[w] == x as u16;
                        assert(queue@[w] == x as u16);
                    }
                    if queue@.contains(x as u16) {
                        let w = choose|w: int| 0 <= w < queue@.len() && queue@[w] == x as u16;
                        if w >= oq.len() {
                            assert(queue@[w] == g as u16);
                        } else {
                            assert(oq[w] == x as u16);
                        }
                    }
                } else {
                    if queue@.contains(x as u16) {
                        let w = choose|w: int| 0 <= w < queue@.len() && queue@[w] == x as u16;
                        if w < oq.len() {
                            assert(oq[w] == x as u16);
                        }
                    }
                }
            }
        }
        g = g + 1;
    }
    let mut head: usize = 0;
    while head < queue.len()
        invariant
            seed == used@,
            set@.len() == 65536,
            seed.len() == 65536,
            queue@.no_duplicates(),
            head <= queue@.len(),
            forall|x: int| 0 <= x < 65536 ==> (#[trigger] set@[x] <==> queue@.contains(x as u16)),
            forall|x: int| 0 <= x < 65536 && #[trigger] seed[x] ==> set@[x],
            forall|j: int|
                0 <= j < head && in_range(loca@, #[trigger] queue@[j] as int) ==> valid_range(loca@, glyf_raw@, queue@[j] as int)
                    && forall|i: int|
                    0 <= i < comps_of(loca@, glyf_raw@, queue@[j] as int).len() && in_range(
                        loca@,
                        #[trigger] comps_of(loca@, glyf_raw@, queue@[j] as int)[i].1 as int,
                    ) ==> set@[comps_of(loca@, glyf_raw@, queue@[j] as int)[i].1 as int],
            forall|j: int| 0 <= j < queue@.len() && !seed[#[trigger] queue@[j] as int] ==> exists|p: int|
                0 <= p < j && in_range(loca@, queue@[j] as int) && #[trigger] component_of(loca@, glyf_raw@, queue@[p] as int, queue@[j] as int),
        decreases 65536 - head,
    {
        proof {
            lemma_distinct_u16_len(queue@);
        }
        let gid = queue[head];
        head = head + 1;
        if (gid as usize) + 1 >= loca.len() {
            continue;
        }
        let start = loca[gid as usize] as usize;
        let end = loca[gid as usize + 1] as usize;
        if start > end || end > glyf_raw.len() {
            proof {
                assert forall|s: Seq<bool>| !closed_superset(loca@, glyf_raw@, seed, s) by {
                    if closed_superset(loca@, glyf_raw@, seed, s) {
                        lemma_queue_in_closed_superset(loca@, glyf_raw@, seed, queue@, s, head - 1);
                    }
                }
            }
            return Err(FontError::MalformedFont);
        }
        let glyph = &glyf_raw[start..end];
        assert(glyph@ == glyph_bytes(loca@, glyf_raw@, gid as int));
        let comps = glyph_components(glyph);
        proof {
            lemma_glyph_components_in_bounds(glyph@);
        }
        let mut k: usize = 0;
        while k < comps.len()
            invariant
                k <= comps@.len() == comps_of(loca@, glyf_raw@, gid as int).len(),
                forall|i: int| 0 <= i < comps@.len() ==> (#[trigger] comps@[i]).gid as nat == comps_of(loca@, glyf_raw@, gid as int)[i].1,
                set@.len() == 65536,
                seed.len() == 65536,
                queue@.no_duplicates(),
                1 <= head <= queue@.len(),
                queue@[head - 1] == gid,
                in_range(loca@, gid as int),
                valid_range(loca@, glyf_raw@, gid as int),
                forall|x: int| 0 <= x < 65536 ==> (#[trigger] set@[x] <==> queue@.contains(x as u16)),
                forall|x: int| 0 <= x < 65536 && #[trigger] seed[x] ==> set@[x],
                forall|j: int|
                    0 <= j < head - 1 && in_range(loca@, #[trigger] queue@[j] as int) ==> valid_range(loca@, glyf_raw@, queue@[j] as int)
                        && forall|i: int|
                        0 <= i < comps_of(loca@, glyf_raw@, queue@[j] as int).len() && in_range(
                            loca@,
                            #[trigger] comps_of(loca@, glyf_raw@, queue@[j] as int)[i].1 as int,
                        ) ==> set@[comps_of(loca@, glyf_raw@, queue@[j] as int)[i].1 as int],
                forall|i: int|
                    0 <= i < k && in_range(loca@, #[trigger] comps_of(loca@, glyf_raw@, gid as int)[i].1 as int)
                        ==> set@[comps_of(loca@, glyf_raw@, gid as int)[i].1 as int],
                forall|j: int| 0 <= j < queue@.len() && !seed[#[trigger] queue@[j] as int] ==> exists|p: int|
                    0 <= p < j && in_range(loca@, queue@[j] as int) && #[trigger] component_of(loca@, glyf_raw@, queue@[p] as int, queue@[j] as int),
            decreases comps@.len() - k,
        {
            let c = comps[k].gid;
            let ghost set_before = set@;
            if (c as usize) + 1 < loca.len() && !set[c as usize] {
                proof {
                    lemma_distinct_u16_len(queue@);
                    assert(!queue@.contains(c));
                }
                let ghost old_set = set@;
                let ghost old_queue = queue@;
                set.set(c as usize, true);
                queue.push(c);
                proof {
                    assert(queue@[head - 1] == old_queue[head - 1]);
                    assert forall|j: int| 0 <= j < head - 1 implies #[trigger] queue@[j] == old_queue[j] by {}
                    assert(queue@.no_duplicates()) by {
                        assert forall|a: int, b: int| 0 <= a < queue@.len() && 0 <= b < queue@.len() && a != b implies queue@[a] != queue@[b] by {
                            if a < old_queue.len() && b < old_queue.len() {
                            } else if a < old_queue.len() {
                                assert(old_queue.contains(old_queue[a]));
                            } else if b < old_queue.len() {
                                assert(old_queue.contains(old_queue[b]));
                            }
                        }
                    }
                    assert forall|x: int| 0 <= x < 65536 implies (#[trigger] set@[x] <==> queue@.contains(x as u16)) by {
                        if x == c as int {
                            assert(queue@[queue@.len() - 1] == c);
                        } else {
                            if old_queue.contains(x as u16) {
                                let w = choose|w: int| 0 <= w < old_queue.len() && old_queue[w] == x as u16;
                                assert(queue@[w] == x as u16);
                            }
                            if queue@.contains(x as u16) {
                                let w = choose|w: int| 0 <= w < queue@.len() && queue@[w] == x as u16;
                                assert(w < old_queue.len());
                                assert(old_queue[w] == x as u16);
                            }
                        }
                    }
                    assert(component_of(loca@, glyf_raw@, gid as int, c as int)) by {
                        assert(comps_of(loca@, glyf_raw@, gid as int)[k as int].1 == c as nat);
                    }
                    assert(set@[gid as int]) by {
                        assert(old_queue[head - 1] == gid);
                        assert(old_queue.contains(gid));
                    }
                    assert forall|j: int| 0 <= j < queue@.len() && !seed[#[trigger] queue@[j] as int] implies exists|p: int|
                        0 <= p < j && in_range(loca@, queue@[j] as int) && #[trigger] component_of(loca@, glyf_raw@, queue@[p] as int, queue@[j] as int) by {
                        if j == old_queue.len() {
                            assert(queue@[head - 1] == gid);
                            assert(component_of(loca@, glyf_raw@, queue@[head - 1] as int, queue@[j] as int));
                        } else {
                            assert(queue@[j] == old_queue[j]);
                            let p = choose|p: int| 0 <= p < j && in_range(loca@, old_queue[j] as int) && #[trigger] component_of(loca@, glyf_raw@, old_queue[p] as int, old_queue[j] as int);
                            assert(queue@[p] == old_queue[p]);
                        }
                    }
                }
            }
            proof {
                assert forall|x: int| 0 <= x < 65536 && set_before[x] implies #[trigger] set@[x] by {}
                assert(comps_of(loca@, glyf_raw@, gid as int)[k as int].1 == c as nat);
                assert forall|i: int|
                    0 <= i < k + 1 && in_range(loca@, #[trigger] comps_of(loca@, glyf_raw@, gid as int)[i].1 as int)
                        implies set@[comps_of(loca@, glyf_raw@, gid as int)[i].1 as int] by {
                    lemma_glyph_components_in_bounds(glyph_bytes(loca@, glyf_raw@, gid as int));
                    if i < k {
                        assert(set_before[comps_of(loca@, glyf_raw@, gid as int)[i].1 as int]);
                    }
                }
                assert forall|j: int|
                    0 <= j < head - 1 && in_range(loca@, #[trigger] queue@[j] as int) implies valid_range(loca@, glyf_raw@, queue@[j] as int)
                        && forall|i: int|
                        0 <= i < comps_of(loca@, glyf_raw@, queue@[j] as int).len() && in_range(
                            loca@,
                            #[trigger] comps_of(loca@, glyf_raw@, queue@[j] as int)[i].1 as int,
                        ) ==> set@[comps_of(loca@, glyf_raw@, queue@[j] as int)[i].1 as int] by {
                    assert forall|i: int|
                        0 <= i < comps_of(loca@, glyf_raw@, queue@[j] as int).len() && in_range(
                            loca@,
                            #[trigger] comps_of(loca@, glyf_raw@, queue@[j] as int)[i].1 as int,
                        ) implies set@[comps_of(loca@, glyf_raw@, queue@[j] as int)[i].1 as int] by {
                        lemma_glyph_components_in_bounds(glyph_bytes(loca@, glyf_raw@, queue@[j] as int));
                        assert(set_before[comps_of(loca@, glyf_raw@, queue@[j] as int)[i].1 as int]);
                    }
                }
            }
            k = k + 1;
        }
    }
    proof {
        assert forall|g: int| 0 <= g < 65536 && #[trigger] set@[g] && in_range(loca@, g) implies valid_range(loca@, glyf_raw@, g)
            && forall|i: int|
            0 <= i < comps_of(loca@, glyf_raw@, g).len() && in_range(loca@, #[trigger] comps_of(loca@, glyf_raw@, g)[i].1 as int)
                ==> set@[comps_of(loca@, glyf_raw@, g)[i].1 as int] by {
            assert(queue@.contains(g as u16));
            let j = choose|j: int| 0 <= j < queue@.len() && queue@[j] == g as u16;
            assert(in_range(loca@, queue@[j] as int));
        }
        assert(includes(set@, seed));
        assert(closed_superset(loca@, glyf_raw@, seed, set@));
        assert forall|s: Seq<bool>| #[trigger] closed_superset(loca@, glyf_raw@, seed, s) implies includes(s, set@) by {
            assert forall|g: int| 0 <= g < 65536 && #[trigger] set@[g] implies s[g] by {
                assert(queue@.contains(g as u16));
                let j = choose|j: int| 0 <= j < queue@.len() && queue@[j] == g as u16;
                lemma_queue_in_closed_superset(loca@, glyf_raw@, seed, queue@, s, j);
            }
        }
    }
    Ok(set)
}

/// The new glyph ID `map` assigns to `gid`, `.notdef` (0) when none.
pub open spec fn new_id(map: Seq<Option<u16>>, gid: nat) -> nat {
    match map[gid as int] {
        Some(n) => n as nat,
        None => 0,
    }
}

/// `b` with the glyph-index field of each of `comps` (in order) replaced
/// by its new ID.
pub open spec fn patch_list(b: Seq<u8>, comps: Seq<(nat, nat)>, map: Seq<Option<u16>>) -> Seq<u8>
    decreases comps.len(),
{
    if comps.len() == 0 {
        b
    } else {
        splice(patch_list(b, comps.drop_last(), map), comps.last().0 as int, u16_be(new_id(map, comps.last().1)))
    }
}

/// Glyph `g`'s bytes with every component reference renumbered.
pub open spec fn patched_glyph(loca: Seq<u32>, glyf: Seq<u8>, map: Seq<Option<u16>>, g: int) -> Seq<u8> {
    patch_list(glyph_bytes(loca, glyf, g), comps_of(loca, glyf, g), map)
}

/// The renumbered glyphs of `ordered[0..k]`, back to back.
pub open spec fn glyf_concat(ordered: Seq<u16>, loca: Seq<u32>, glyf: Seq<u8>, map: Seq<Option<u16>>, k: nat) -> Seq<u8>
    decreases k,
{
    if k == 0 {
        seq![]
    } else {
        glyf_concat(ordered, loca, glyf, map, (k - 1) as nat) + patched_glyph(loca, glyf, map, ordered[k - 1] as int)
    }
}

/// The long-format `loca` for the first `k` glyph starts.
pub open spec fn loca_concat(ordered: Seq<u16>, loca: Seq<u32>, glyf: Seq<u8>, map: Seq<Option<u16>>, k: nat) -> Seq<u8>
    decreases k,
{
    if k == 0 {
        seq![]
    } else {
        loca_concat(ordered, loca, glyf, map, (k - 1) as nat) + u32_be(glyf_concat(ordered, loca, glyf, map, (k - 1) as nat).len())
    }
}

/// Whether every glyph of `ordered` has a well-formed `loca` range and every
/// new offset fits a `u32`.
pub open spec fn rebuild_ok(ordered: Seq<u16>, loca: Seq<u32>, glyf: Seq<u8>, map: Seq<Option<u16>>) -> bool {
    &&& forall|k: int| 0 <= k < ordered.len() ==> in_range(loca, #[trigger] ordered[k] as int) && valid_range(loca, glyf, ordered[k] as int)
    &&& forall|k: nat| k <= ordered.len() ==> #[trigger] glyf_concat(ordered, loca, glyf, map, k).len() <= u32::MAX
}

proof fn lemma_patch_list_len(b: Seq<u8>, comps: Seq<(nat, nat)>, map: Seq<Option<u16>>)
    requires
        forall|i: int| 0 <= i < comps.len() ==> (#[trigger] comps[i]).0 + 2 <= b.len(),
    ensures
        patch_list(b, comps, map).len() == b.len(),
    decreases comps.len(),
{
    if comps.len() > 0 {
        lemma_patch_list_len(b, comps.drop_last(), map);
    }
}

proof fn lemma_glyf_concat_prefix(ordered: Seq<u16>, loca: Seq<u32>, glyf: Seq<u8>, map: Seq<Option<u16>>, k: nat, m: nat)
    requires
        k <= m,
    ensures
        glyf_concat(ordered, loca, glyf, map, k).len() <= glyf_concat(ordered, loca, glyf, map, m).len(),
    decreases m,
{
    if k < m {
        lemma_glyf_concat_prefix(ordered, loca, glyf, map, k, (m - 1) as nat);
    }
}

/// Glyph `orig_gid`'s bytes with its component references renumbered.
fn patch_glyph(glyph: &[u8], map: &Vec<Option<u16>>) -> (out: Vec<u8>)
    requires
        map@.len() == 65536,
    ensures
        out@ == patch_list(glyph@, glyph_components_spec(glyph@), map@),
{
    let comps = glyph_components(glyph);
    let ghost cs = glyph_components_spec(glyph@);
    proof {
        lemma_glyph_components_in_bounds(glyph@);
    }
    let mut out: Vec<u8> = Vec::new();
    crate::bytes::push_bytes(&mut out, glyph);
    let mut k: usize = 0;
    assert(cs.take(0) =~= Seq::<(nat, nat)>::empty());
    while k < comps.len()
        invariant
            k <= comps@.len() == cs.len(),
            cs == glyph_components_spec(glyph@),
            map@.len() == 65536,
            forall|i: int| 0 <= i < comps@.len() ==> (#[trigger] comps@[i]).gid_offset as nat == cs[i].0 && comps@[i].gid as nat
                == cs[i].1,
            forall|i: int| 0 <= i < cs.len() ==> (#[trigger] cs[i]).0 + 2 <= glyph@.len() && cs[i].1 < 65536,
            out@ == patch_list(glyph@, cs.take(k as int), map@),
            out@.len() == glyph@.len(),
        decreases comps@.len() - k,
    {
        let c = &comps[k];
        let new_gid: u16 = match map[c.gid as usize] {
            Some(n) => n,
            None => 0,
        };
        set_u16_be(&mut out, c.gid_offset, new_gid);
        proof {
            assert(cs.take(k + 1).drop_last() =~= cs.take(k as int));
            assert(cs.take(k + 1).last() == cs[k as int]);
        }
        k = k + 1;
    }
    assert(cs.take(comps@.len() as int) =~= cs);
    out
}

/// Rebuilds `glyf` and a long-format `loca` holding exactly `ordered`'s
/// glyphs in that order, each composite component reference renumbered
/// through `orig_to_new` (a component outside the subset becomes
/// `.notdef`). Fails with `MalformedFont` when a glyph has no well-formed
/// `loca` range or an offset overflows a `u32`.
pub fn rebuild_glyf_and_loca(ordered: &Vec<u16>, loca: &[u32], glyf_raw: &[u8], orig_to_new: &Vec<Option<u16>>) -> (r: Result<
    (Vec<u8>, Vec<u8>),
    FontError,
>)
    requires
        orig_to_new@.len() == 65536,
    ensures
        r is Ok <==> rebuild_ok(ordered@, loca@, glyf_raw@, orig_to_new@),
        r is Err ==> r == Err::<(Vec<u8>, Vec<u8>), FontError>(FontError::MalformedFont),
        r matches Ok((g, l)) ==> g@ == glyf_concat(ordered@, loca@, glyf_raw@, orig_to_new@, ordered@.len())
            && l@ == loca_concat(ordered@, loca@, glyf_raw@, orig_to_new@, ordered@.len() + 1),
{
    let ghost o = ordered@;
    let ghost lo = loca@;
    let ghost gl = glyf_raw@;
    let ghost m = orig_to_new@;
    let mut new_glyf: Vec<u8> = Vec::new();
    let mut new_loca: Vec<u8> = Vec::new();
    let mut k: usize = 0;
    while k < ordered.len()
        invariant
            k <= o.len(),
            o == ordered@,
            lo == loca@,
            gl == glyf_raw@,
            m == orig_to_new@,
            m.len() == 65536,
            new_glyf@ == glyf_concat(o, lo, gl, m, k as nat),
            new_loca@ == loca_concat(o, lo, gl, m, k as nat),
            forall|j: int| 0 <= j < k ==> in_range(lo, #[trigger] o[j] as int) && valid_range(lo, gl, o[j] as int),
            forall|j: nat| j < k ==> #[trigger] glyf_concat(o, lo, gl, m, j).len() <= u32::MAX,
        decreases o.len() - k,
    {
        let here = new_glyf.len();
        if here > 4294967295 {
            proof {
                assert(!(glyf_concat(o, lo, gl, m, k as nat).len() <= u32::MAX));
            }
            return Err(FontError::MalformedFont);
        }
        crate::bytes::push_u32_be(&mut new_loca, here as u32);
        let gid = ordered[k];
        if (gid as usize) + 1 >= loca.len() {
            return Err(FontError::MalformedFont);
        }
        let start = loca[gid as usize] as usize;
        let end = loca[gid as usize + 1] as usize;
        if start > end || end > glyf_raw.len() {
            return Err(FontError::MalformedFont);
        }
        let glyph = &glyf_raw[start..end];
        assert(glyph@ == glyph_bytes(lo, gl, gid as int));
        let patched = patch_glyph(glyph, orig_to_new);
        crate::bytes::push_bytes(&mut new_glyf, patched.as_slice());
        k = k + 1;
    }
    let total = new_glyf.len();
    if total > 4294967295 {
        return Err(FontError::MalformedFont);
    }
    crate::bytes::push_u32_be(&mut new_loca, total as u32);
    Ok((new_glyf, new_loca))
}

} // verus!
