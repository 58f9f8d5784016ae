//! Reading a format-4 `cmap` subtable back, as a font reader does, and the
//! proof that the subtable built for a subset maps every character to its
//! glyph and nothing else to any glyph.

use vstd::prelude::*;
use crate::bytes::{be16, lemma_be16_roundtrip, u16_be};
use crate::fonts::cmap::{
    bmp_pairs, chars_increasing, format4_len, format4_subtable, lemma_bmp_pairs_props, lemma_runs_bounded,
    lemma_runs_props, range_offset, runs_of, seg_count, u16s,
};
use crate::fonts::sfnt::search_params;

verus! {

/// The first segment at or after `i` whose `endCode` is at least `c`, in a
/// format-4 subtable `t` with `s` segments.
pub open spec fn first_segment(t: Seq<u8>, s: nat, c: nat, i: nat) -> Option<nat>
    decreases s - i,
{
    if i >= s {
        None
    } else if be16(t, (14 + 2 * i) as int) >= c {
        Some(i)
    } else {
        first_segment(t, s, c, i + 1)
    }
}

/// The glyph a format-4 subtable `t` maps code point `c` to (0 for none):
/// the first segment whose `endCode` is at least `c`; nothing when its
/// `startCode` lies above `c`; else `c + idDelta` when its
/// `idRangeOffset` is 0, or the `glyphIdArray` entry that offset leads to,
/// plus `idDelta` unless it is 0 (all modulo 65536).
pub open spec fn format4_glyph(t: Seq<u8>, c: nat) -> nat {
    let s = be16(t, 6) / 2;
    match first_segment(t, s, c, 0) {
        None => 0,
        Some(i) => {
            let start = be16(t, (16 + 2 * s + 2 * i) as int);
            let delta = be16(t, (16 + 4 * s + 2 * i) as int);
            let ro = be16(t, (16 + 6 * s + 2 * i) as int);
            if c < start {
                0
            } else if ro == 0 {
                (c + delta) % 65536
            } else {
                let g = be16(t, (16 + 6 * s + 2 * i + ro + 2 * (c - start)) as int);
                if g == 0 {
                    0
                } else {
                    (g + delta) % 65536
                }
            }
        },
    }
}

/// Reading across a concatenation: a value wholly inside either part.
proof fn lemma_be16_concat(a: Seq<u8>, b: Seq<u8>, off: int)
    requires
        0 <= off,
        off + 1 < a.len() || (a.len() <= off && off + 1 < a.len() + b.len()),
    ensures
        off + 1 < a.len() ==> be16(a + b, off) == be16(a, off),
        a.len() <= off ==> be16(a + b, off) == be16(b, off - a.len()),
{
}

proof fn lemma_u16s_len(vals: Seq<nat>)
    ensures
        u16s(vals).len() == 2 * vals.len(),
    decreases vals.len(),
{
    if vals.len() > 0 {
        lemma_u16s_len(vals.drop_last());
    }
}

/// Value `i` of `u16s(vals)` reads back.
proof fn lemma_u16s_read(vals: Seq<nat>, i: int)
    requires
        0 <= i < vals.len(),
        vals[i] < 65536,
    ensures
        be16(u16s(vals), 2 * i) == vals[i],
    decreases vals.len(),
{
    let d = vals.drop_last();
    lemma_u16s_len(d);
    if i < d.len() {
        lemma_u16s_read(d, i);
        lemma_be16_concat(u16s(d), u16_be(vals.last()), 2 * i);
    } else {
        lemma_be16_concat(u16s(d), u16_be(vals.last()), 2 * i);
        lemma_be16_roundtrip(vals.last());
    }
}

/// The subtable's `endCode` values: each run's last code point, then the
/// terminator.
pub open spec fn end_codes(m: Seq<(char, u16)>) -> Seq<nat> {
    runs_of(bmp_pairs(m)).map_values(|x: (nat, nat, nat)| x.1).push(0xFFFF)
}

/// The subtable's `startCode` values.
pub open spec fn start_codes(m: Seq<(char, u16)>) -> Seq<nat> {
    runs_of(bmp_pairs(m)).map_values(|x: (nat, nat, nat)| x.0).push(0xFFFF)
}

/// The subtable's `idDelta` values.
pub open spec fn id_deltas(m: Seq<(char, u16)>) -> Seq<nat> {
    Seq::new(runs_of(bmp_pairs(m)).len(), |i: int| 0nat).push(1)
}

/// The subtable's `idRangeOffset` values.
pub open spec fn range_offsets(m: Seq<(char, u16)>) -> Seq<nat> {
    let r = runs_of(bmp_pairs(m));
    Seq::new(r.len(), |i: int| range_offset(seg_count(m), r[i].2, i as nat)).push(0)
}

/// The subtable's `glyphIdArray`.
pub open spec fn glyph_ids(m: Seq<(char, u16)>) -> Seq<nat> {
    bmp_pairs(m).map_values(|x: (nat, nat)| x.1)
}

/// Where the subtable's parts start, and what they hold.
proof fn lemma_subtable_parts(m: Seq<(char, u16)>)
    ensures
        ({
            let s = seg_count(m);
            let sp = search_params(s, 2);
            let h = u16_be(4) + u16_be(format4_len(m)) + u16_be(0) + u16_be(2 * s) + u16_be(sp.0) + u16_be(sp.1)
                + u16_be(sp.2);
            &&& h.len() == 14
            &&& format4_subtable(m) == h + u16s(end_codes(m)) + u16_be(0) + u16s(start_codes(m)) + u16s(id_deltas(m))
                + u16s(range_offsets(m)) + u16s(glyph_ids(m))
            &&& be16(h, 6) == (2 * s) % 65536
        }),
        end_codes(m).len() == seg_count(m),
        start_codes(m).len() == seg_count(m),
        id_deltas(m).len() == seg_count(m),
        range_offsets(m).len() == seg_count(m),
        glyph_ids(m).len() == bmp_pairs(m).len(),
{
    let s = seg_count(m);
    let sp = search_params(s, 2);
    let h = u16_be(4) + u16_be(format4_len(m)) + u16_be(0) + u16_be(2 * s) + u16_be(sp.0) + u16_be(sp.1) + u16_be(sp.2);
    assert(h[6] == u16_be(2 * s)[0] && h[7] == u16_be(2 * s)[1]);
}

/// Reads in the parts of the subtable.
proof fn lemma_subtable_read(m: Seq<(char, u16)>, part: int, k: int)
    requires
        0 <= part < 6,
        0 <= k,
        part < 5 ==> k < seg_count(m),
        part == 5 ==> k < bmp_pairs(m).len(),
        part == 0 ==> end_codes(m)[k] < 65536,
        part == 1 ==> start_codes(m)[k] < 65536,
        part == 2 ==> id_deltas(m)[k] < 65536,
        part == 3 ==> range_offsets(m)[k] < 65536,
        part == 5 ==> glyph_ids(m)[k] < 65536,
    ensures
        part == 0 ==> be16(format4_subtable(m), 14 + 2 * k) == end_codes(m)[k],
        part == 1 ==> be16(format4_subtable(m), 16 + 2 * seg_count(m) + 2 * k) == start_codes(m)[k],
        part == 2 ==> be16(format4_subtable(m), 16 + 4 * seg_count(m) + 2 * k) == id_deltas(m)[k],
        part == 3 ==> be16(format4_subtable(m), 16 + 6 * seg_count(m) + 2 * k) == range_offsets(m)[k],
        part == 5 ==> be16(format4_subtable(m), 16 + 8 * seg_count(m) + 2 * k) == glyph_ids(m)[k],
{
    lemma_subtable_parts(m);
    let s = seg_count(m);
    let sp = search_params(s, 2);
    let h = u16_be(4) + u16_be(format4_len(m)) + u16_be(0) + u16_be(2 * s) + u16_be(sp.0) + u16_be(sp.1) + u16_be(sp.2);
    let e = u16s(end_codes(m));
    let st = u16s(start_codes(m));
    let d = u16s(id_deltas(m));
    let ro = u16s(range_offsets(m));
    let g = u16s(glyph_ids(m));
    lemma_u16s_len(end_codes(m));
    lemma_u16s_len(start_codes(m));
    lemma_u16s_len(id_deltas(m));
    lemma_u16s_len(range_offsets(m));
    lemma_u16s_len(glyph_ids(m));
    let a1 = h + e;
    let a2 = a1 + u16_be(0);
    let a3 = a2 + st;
    let a4 = a3 + d;
    let a5 = a4 + ro;
    let t = a5 + g;
    assert(t == format4_subtable(m));
    if part == 0 {
        lemma_u16s_read(end_codes(m), k);
        lemma_be16_concat(h, e, 14 + 2 * k);
        lemma_be16_concat(a1, u16_be(0), 14 + 2 * k);
        lemma_be16_concat(a2, st, 14 + 2 * k);
        lemma_be16_concat(a3, d, 14 + 2 * k);
        lemma_be16_concat(a4, ro, 14 + 2 * k);
        lemma_be16_concat(a5, g, 14 + 2 * k);
    } else if part == 1 {
        let o = 16 + 2 * s + 2 * k;
        lemma_u16s_read(start_codes(m), k);
        lemma_be16_concat(a2, st, o);
        lemma_be16_concat(a3, d, o);
        lemma_be16_concat(a4, ro, o);
        lemma_be16_concat(a5, g, o);
    } else if part == 2 {
        let o = 16 + 4 * s + 2 * k;
        lemma_u16s_read(id_deltas(m), k);
        lemma_be16_concat(a3, d, o);
        lemma_be16_concat(a4, ro, o);
        lemma_be16_concat(a5, g, o);
    } else if part == 3 {
        let o = 16 + 6 * s + 2 * k;
        lemma_u16s_read(range_offsets(m), k);
        lemma_be16_concat(a4, ro, o);
        lemma_be16_concat(a5, g, o);
    } else if part == 5 {
        let o = 16 + 8 * s + 2 * k;
        lemma_u16s_read(glyph_ids(m), k);
        lemma_be16_concat(a5, g, o);
    }
}

/// The segment count the subtable records.
proof fn lemma_subtable_seg_count(m: Seq<(char, u16)>)
    requires
        2 * seg_count(m) < 65536,
    ensures
        be16(format4_subtable(m), 6) / 2 == seg_count(m),
{
    lemma_subtable_parts(m);
    let s = seg_count(m);
    let sp = search_params(s, 2);
    let h = u16_be(4) + u16_be(format4_len(m)) + u16_be(0) + u16_be(2 * s) + u16_be(sp.0) + u16_be(sp.1) + u16_be(sp.2);
    let rest = u16s(end_codes(m)) + u16_be(0) + u16s(start_codes(m)) + u16s(id_deltas(m)) + u16s(range_offsets(m))
        + u16s(glyph_ids(m));
    assert(format4_subtable(m) =~= h + rest);
    lemma_be16_concat(h, rest, 6);
}

/// Whether place `q` lies in the run `run` (start, end, first place).
pub open spec fn in_run(run: (nat, nat, nat), q: int) -> bool {
    run.2 <= q <= run.2 + (run.1 - run.0)
}

/// Whether place `q` lies in one of the runs `r`.
pub open spec fn covered(r: Seq<(nat, nat, nat)>, q: int) -> bool {
    exists|i: int| 0 <= i < r.len() && #[trigger] in_run(r[i], q)
}

/// Code points strictly increasing along `p`.
pub open spec fn increasing_points(p: Seq<(nat, nat)>) -> bool {
    forall|a: int, b: int| 0 <= a < b < p.len() ==> p[a].0 < p[b].0
}

/// `r` describes the runs of `p`: each run's code points are consecutive
/// and stand at consecutive places of `p`, later runs start more than one
/// past earlier ones' ends, every place of `p` lies in a run, and the last
/// run ends at the last place.
pub open spec fn runs_ok(p: Seq<(nat, nat)>, r: Seq<(nat, nat, nat)>) -> bool {
    &&& forall|i: int| 0 <= i < r.len() ==> (#[trigger] r[i]).0 <= r[i].1 && r[i].2 + (r[i].1 - r[i].0) < p.len()
    &&& forall|i: int, t: int|
        #![trigger r[i], p[r[i].2 + t]]
        0 <= i < r.len() && 0 <= t <= r[i].1 - r[i].0 ==> p[r[i].2 + t].0 == r[i].0 + t
    &&& forall|j: int, i: int| #![trigger r[j], r[i]] 0 <= j < i < r.len() ==> r[j].1 + 1 < r[i].0
    &&& forall|q: int| 0 <= q < p.len() ==> #[trigger] covered(r, q)
    &&& p.len() > 0 ==> r.len() > 0 && r.last().2 + (r.last().1 - r.last().0) == p.len() - 1
}

proof fn lemma_runs_ok(p: Seq<(nat, nat)>)
    requires
        increasing_points(p),
    ensures
        runs_ok(p, runs_of(p)),
    decreases p.len(),
{
    if p.len() == 0 {
        return;
    }
    let d = p.drop_last();
    let x = p.last();
    assert(increasing_points(d)) by {
        assert forall|a: int, b: int| 0 <= a < b < d.len() implies d[a].0 < d[b].0 by {
            assert(d[a] == p[a] && d[b] == p[b]);
        }
    }
    lemma_runs_ok(d);
    let rd = runs_of(d);
    let r = runs_of(p);
    assert forall|k: int| 0 <= k < d.len() implies #[trigger] p[k] == d[k] by {}
    assert(x == p[p.len() - 1]);
    if rd.len() > 0 && x.0 == rd.last().1 + 1 {
        let l = rd.len() - 1;
        assert(r == rd.update(l, (rd.last().0, x.0, rd.last().2)));
        assert(rd.last() == rd[l]);
        assert forall|i: int| 0 <= i < r.len() implies (#[trigger] r[i]).0 <= r[i].1 && r[i].2 + (r[i].1 - r[i].0)
            < p.len() by {
            if i < l {
                assert(r[i] == rd[i]);
            }
        }
        assert forall|i: int, t: int|
            #![trigger r[i], p[r[i].2 + t]]
            0 <= i < r.len() && 0 <= t <= r[i].1 - r[i].0 implies p[r[i].2 + t].0 == r[i].0 + t by {
            if i < l {
                assert(r[i] == rd[i]);
                assert(rd[i].2 + t < d.len());
                assert(d[rd[i].2 + t].0 == rd[i].0 + t);
            } else if t <= rd[l].1 - rd[l].0 {
                assert(rd[l].2 + t < d.len());
                assert(d[rd[l].2 + t].0 == rd[l].0 + t);
            } else {
                assert(rd[l].2 + t == p.len() - 1);
            }
        }
        assert forall|j: int, i: int| #![trigger r[j], r[i]] 0 <= j < i < r.len() implies r[j].1 + 1 < r[i].0 by {
            assert(r[j] == rd[j]);
            if i < l {
                assert(r[i] == rd[i]);
            }
        }
        assert forall|q: int| 0 <= q < p.len() implies #[trigger] covered(r, q) by {
            if q < d.len() {
                assert(d[q] == p[q]);
                assert(covered(rd, q));
                let i = choose|i: int| 0 <= i < rd.len() && #[trigger] in_run(rd[i], q);
                if i < l {
                    assert(r[i] == rd[i]);
                }
                assert(in_run(r[i], q));
            } else {
                assert(in_run(r[l], q));
            }
        }
        assert(r.last() == r[l]);
        assert(r.len() > 0 && r.last().2 + (r.last().1 - r.last().0) == p.len() - 1);
        assert(runs_ok(p, r));
    } else {
        let n = rd.len();
        assert(r == rd.push((x.0, x.0, (p.len() - 1) as nat)));
        if n > 0 {
            let l = n - 1;
            assert(rd.last() == rd[l]);
            assert(d[rd[l].2 + (rd[l].1 - rd[l].0)].0 == rd[l].0 + (rd[l].1 - rd[l].0));
            assert(d.last() == d[d.len() - 1]);
            assert(rd[l].1 == d.last().0);
            assert(d.last().0 < x.0);
        }
        assert forall|i: int| 0 <= i < r.len() implies (#[trigger] r[i]).0 <= r[i].1 && r[i].2 + (r[i].1 - r[i].0)
            < p.len() by {
            if i < n {
                assert(r[i] == rd[i]);
            }
        }
        assert forall|i: int, t: int|
            #![trigger r[i], p[r[i].2 + t]]
            0 <= i < r.len() && 0 <= t <= r[i].1 - r[i].0 implies p[r[i].2 + t].0 == r[i].0 + t by {
            if i < n {
                assert(r[i] == rd[i]);
                assert(rd[i].2 + t < d.len());
                assert(d[rd[i].2 + t].0 == rd[i].0 + t);
            }
        }
        assert forall|j: int, i: int| #![trigger r[j], r[i]] 0 <= j < i < r.len() implies r[j].1 + 1 < r[i].0 by {
            assert(r[j] == rd[j]);
            if i < n {
                assert(r[i] == rd[i]);
            } else {
                let l = n - 1;
                if j < l {
                    assert(rd[j].1 + 1 < rd[l].0);
                }
            }
        }
        assert forall|q: int| 0 <= q < p.len() implies #[trigger] covered(r, q) by {
            if q < d.len() {
                assert(d[q] == p[q]);
                assert(covered(rd, q));
                let i = choose|i: int| 0 <= i < rd.len() && #[trigger] in_run(rd[i], q);
                assert(r[i] == rd[i]);
                assert(in_run(r[i], q));
            } else {
                assert(in_run(r[n as int], q));
            }
        }
        assert(r.last() == r[n as int]);
        assert(r.len() > 0 && r.last().2 + (r.last().1 - r.last().0) == p.len() - 1);
        assert(runs_ok(p, r));
    }
}

/// Entry `j` of the mapping as a `(code point, glyph)` pair.
pub open spec fn pair_of(m: Seq<(char, u16)>, j: int) -> (nat, nat) {
    ((m[j].0 as u32) as nat, m[j].1 as nat)
}

/// Whether `x` is one of the mapping's pairs.
pub open spec fn is_pair_of(m: Seq<(char, u16)>, x: (nat, nat)) -> bool {
    exists|j: int| 0 <= j < m.len() && #[trigger] pair_of(m, j) == x
}

/// Whether `x` stands in `p`.
pub open spec fn in_pairs(p: Seq<(nat, nat)>, x: (nat, nat)) -> bool {
    exists|q: int| 0 <= q < p.len() && #[trigger] p[q] == x
}

/// The BMP pairs come from the mapping, in increasing code point order,
/// and hold each of its BMP entries.
proof fn lemma_bmp_pairs_members(m: Seq<(char, u16)>)
    requires
        chars_increasing(m),
    ensures
        forall|a: int| 0 <= a < bmp_pairs(m).len() ==> #[trigger] is_pair_of(m, bmp_pairs(m)[a]),
        increasing_points(bmp_pairs(m)),
        forall|k: int| 0 <= k < m.len() && (m[k].0 as u32) <= 0xFFFF ==> #[trigger] in_pairs(bmp_pairs(m), pair_of(m, k)),
    decreases m.len(),
{
    if m.len() == 0 {
        return;
    }
    let d = m.drop_last();
    assert(chars_increasing(d)) by {
        assert forall|i: int, j: int| 0 <= i < j < d.len() implies (d[i].0 as u32) < (d[j].0 as u32) by {
            assert(d[i] == m[i] && d[j] == m[j]);
        }
    }
    lemma_bmp_pairs_members(d);
    let pd = bmp_pairs(d);
    let p = bmp_pairs(m);
    let last = (m.len() - 1) as int;
    assert(m.last() == m[last]);
    assert forall|j: int| 0 <= j < d.len() implies #[trigger] pair_of(d, j) == pair_of(m, j) by {
        assert(d[j] == m[j]);
    }
    assert forall|a: int| 0 <= a < pd.len() implies (#[trigger] pd[a]).0 < (m[last].0 as u32) as nat by {
        assert(is_pair_of(d, pd[a]));
        let j = choose|j: int| 0 <= j < d.len() && #[trigger] pair_of(d, j) == pd[a];
        assert(pair_of(m, j) == pd[a]);
        assert((m[j].0 as u32) < (m[last].0 as u32));
    }
    assert forall|a: int| 0 <= a < p.len() implies #[trigger] is_pair_of(m, p[a]) by {
        if a < pd.len() {
            assert(p[a] == pd[a]);
            assert(is_pair_of(d, pd[a]));
            let j = choose|j: int| 0 <= j < d.len() && #[trigger] pair_of(d, j) == pd[a];
            assert(pair_of(m, j) == p[a]);
        } else {
            assert(pair_of(m, last) == p[a]);
        }
    }
    assert forall|a: int, b: int| 0 <= a < b < p.len() implies p[a].0 < p[b].0 by {
        if b < pd.len() {
            assert(p[a] == pd[a] && p[b] == pd[b]);
        } else {
            assert(p[a] == pd[a]);
            assert(p[b] == pair_of(m, last));
        }
    }
    assert forall|k: int| 0 <= k < m.len() && (m[k].0 as u32) <= 0xFFFF implies #[trigger] in_pairs(p, pair_of(m, k)) by {
        if k < d.len() {
            assert(pair_of(d, k) == pair_of(m, k));
            assert(in_pairs(pd, pair_of(d, k)));
            let q = choose|q: int| 0 <= q < pd.len() && #[trigger] pd[q] == pair_of(d, k);
            assert(p[q] == pd[q]);
        } else {
            assert(p[pd.len() as int] == pair_of(m, k));
        }
    }
}

/// The first segment found is `i` when every earlier one ends below `c`
/// and `i` does not.
proof fn lemma_first_segment_is(t: Seq<u8>, s: nat, c: nat, j: nat, i: nat)
    requires
        j <= i < s,
        forall|x: nat| j <= x < i ==> #[trigger] be16(t, (14 + 2 * x) as int) < c,
        be16(t, (14 + 2 * i) as int) >= c,
    ensures
        first_segment(t, s, c, j) == Some(i),
    decreases i - j,
{
    if j < i {
        assert(be16(t, (14 + 2 * j) as int) < c);
        lemma_first_segment_is(t, s, c, j + 1, i);
    }
}

/// The values the lookup reads for segment `i`, a run's, and where
/// code point `c` of that run leads in `glyphIdArray`.
proof fn lemma_run_segment_reads(m: Seq<(char, u16)>, i: int)
    requires
        chars_increasing(m),
        format4_len(m) <= 65535,
        0 <= i < runs_of(bmp_pairs(m)).len(),
    ensures
        ({
            let r = runs_of(bmp_pairs(m));
            let t = format4_subtable(m);
            let s = seg_count(m);
            &&& be16(t, 6) / 2 == s
            &&& be16(t, 14 + 2 * i) == r[i].1
            &&& be16(t, 16 + 2 * s + 2 * i) == r[i].0
            &&& be16(t, 16 + 4 * s + 2 * i) == 0
            &&& be16(t, 16 + 6 * s + 2 * i) == 2 * s + 2 * r[i].2 - 2 * i
            &&& 2 * s + 2 * r[i].2 - 2 * i > 0
        }),
{
    let p = bmp_pairs(m);
    let r = runs_of(p);
    let s = seg_count(m);
    lemma_bmp_pairs_props(m);
    lemma_runs_props(p);
    lemma_runs_bounded(p);
    lemma_subtable_seg_count(m);
    assert(end_codes(m)[i] == r[i].1);
    assert(start_codes(m)[i] == r[i].0);
    assert(id_deltas(m)[i] == 0);
    assert(range_offsets(m)[i] == range_offset(s, r[i].2, i as nat));
    lemma_subtable_read(m, 0, i);
    lemma_subtable_read(m, 1, i);
    lemma_subtable_read(m, 2, i);
    lemma_subtable_read(m, 3, i);
}

/// Every BMP character of the mapping looks up, in the built subtable, as
/// its glyph.
pub proof fn lemma_cmap_maps_each_character(m: Seq<(char, u16)>, k: int)
    requires
        chars_increasing(m),
        format4_len(m) <= 65535,
        0 <= k < m.len(),
        (m[k].0 as u32) <= 0xFFFF,
    ensures
        format4_glyph(format4_subtable(m), (m[k].0 as u32) as nat) == m[k].1,
{
    let p = bmp_pairs(m);
    let r = runs_of(p);
    let s = seg_count(m);
    let t = format4_subtable(m);
    let c = (m[k].0 as u32) as nat;
    lemma_bmp_pairs_props(m);
    lemma_bmp_pairs_members(m);
    lemma_runs_ok(p);
    lemma_runs_props(p);
    lemma_runs_bounded(p);
    assert(in_pairs(p, pair_of(m, k)));
    let q = choose|q: int| 0 <= q < p.len() && #[trigger] p[q] == pair_of(m, k);
    assert(covered(r, q));
    let i = choose|i: int| 0 <= i < r.len() && #[trigger] in_run(r[i], q);
    assert(p[r[i].2 + (q - r[i].2)].0 == r[i].0 + (q - r[i].2));
    assert(r[i].0 <= c <= r[i].1);
    lemma_run_segment_reads(m, i);
    assert forall|x: nat| 0 <= x < i implies #[trigger] be16(t, (14 + 2 * x) as int) < c by {
        lemma_run_segment_reads(m, x as int);
        assert(r[x as int].1 + 1 < r[i].0);
    }
    lemma_first_segment_is(t, s, c, 0, i as nat);
    lemma_subtable_read(m, 5, q);
    assert(glyph_ids(m)[q] == p[q].1);
    assert(16 + 6 * s + 2 * i + (2 * s + 2 * r[i].2 - 2 * i) + 2 * (c - r[i].0) == 16 + 8 * s + 2 * q);
}

/// What the segment search finds: the first segment at or after `j` whose
/// `endCode` is at least `c`, or none when every one ends below `c`.
proof fn lemma_first_segment_found(t: Seq<u8>, s: nat, c: nat, j: nat)
    ensures
        match first_segment(t, s, c, j) {
            Some(i) => j <= i < s && be16(t, (14 + 2 * i) as int) >= c && forall|x: nat|
                j <= x < i ==> #[trigger] be16(t, (14 + 2 * x) as int) < c,
            None => forall|x: nat| j <= x < s ==> #[trigger] be16(t, (14 + 2 * x) as int) < c,
        },
    decreases s - j,
{
    if j < s && be16(t, (14 + 2 * j) as int) < c {
        lemma_first_segment_found(t, s, c, j + 1);
    }
}

/// A BMP code point the mapping does not hold looks up, in the built
/// subtable, as no glyph.
pub proof fn lemma_cmap_maps_nothing_else(m: Seq<(char, u16)>, c: nat)
    requires
        chars_increasing(m),
        format4_len(m) <= 65535,
        c <= 0xFFFF,
        forall|k: int| 0 <= k < m.len() ==> #[trigger] pair_of(m, k).0 != c,
    ensures
        format4_glyph(format4_subtable(m), c) == 0,
{
    let p = bmp_pairs(m);
    let r = runs_of(p);
    let s = seg_count(m);
    let t = format4_subtable(m);
    lemma_bmp_pairs_props(m);
    lemma_bmp_pairs_members(m);
    lemma_runs_ok(p);
    lemma_runs_props(p);
    lemma_runs_bounded(p);
    lemma_subtable_seg_count(m);
    let last = (s - 1) as int;
    assert(end_codes(m)[last] == 0xFFFF);
    assert(start_codes(m)[last] == 0xFFFF);
    assert(id_deltas(m)[last] == 1);
    assert(range_offsets(m)[last] == 0);
    lemma_subtable_read(m, 0, last);
    lemma_subtable_read(m, 1, last);
    lemma_subtable_read(m, 2, last);
    lemma_subtable_read(m, 3, last);
    lemma_first_segment_found(t, s, c, 0);
    match first_segment(t, s, c, 0) {
        None => {
            assert(be16(t, (14 + 2 * (last as nat)) as int) < c);
        },
        Some(i) => {
            if i < r.len() {
                lemma_run_segment_reads(m, i as int);
                let ii = i as int;
                if r[ii].0 <= c {
                    let q = r[ii].2 + (c - r[ii].0);
                    assert(p[r[ii].2 + (c - r[ii].0)].0 == r[ii].0 + (c - r[ii].0));
                    assert(is_pair_of(m, p[q]));
                    let j = choose|j: int| 0 <= j < m.len() && #[trigger] pair_of(m, j) == p[q];
                    assert(pair_of(m, j).0 == c);
                }
            }
        },
    }
}

} // verus!
