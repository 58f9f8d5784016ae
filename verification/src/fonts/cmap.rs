//! Builds a subset's `cmap` table: a single format-4 (segmented BMP)
//! subtable covering exactly the characters the subset includes.

use vstd::prelude::*;
use crate::bytes::{u16_be, u32_be, push_u16_be, push_u32_be, push_bytes};
use crate::fonts::font::FontError;
use crate::fonts::sfnt::{search_params, sfnt_search_params};

verus! {

/// Big-endian `u16`s, back to back.
pub open spec fn u16s(vals: Seq<nat>) -> Seq<u8>
    decreases vals.len(),
{
    if vals.len() == 0 {
        seq![]
    } else {
        u16s(vals.drop_last()) + u16_be(vals.last())
    }
}

/// Characters strictly increasing by code point.
pub open spec fn chars_increasing(m: Seq<(char, u16)>) -> bool {
    forall|i: int, j: int| 0 <= i < j < m.len() ==> (m[i].0 as u32) < (m[j].0 as u32)
}

/// The BMP part of the mapping as `(code point, glyph)` pairs, in order.
pub open spec fn bmp_pairs(m: Seq<(char, u16)>) -> Seq<(nat, nat)>
    decreases m.len(),
{
    if m.len() == 0 {
        seq![]
    } else {
        let rest = bmp_pairs(m.drop_last());
        if (m.last().0 as u32) <= 0xFFFF {
            rest.push(((m.last().0 as u32) as nat, m.last().1 as nat))
        } else {
            rest
        }
    }
}

/// Maximal runs of consecutive code points, as `(start, end, index of the
/// run's first pair)`.
pub open spec fn runs_of(p: Seq<(nat, nat)>) -> Seq<(nat, nat, nat)>
    decreases p.len(),
{
    if p.len() == 0 {
        seq![]
    } else {
        let r = runs_of(p.drop_last());
        let cp = p.last().0;
        if r.len() > 0 && cp == r.last().1 + 1 {
            r.update(r.len() - 1, (r.last().0, cp, r.last().2))
        } else {
            r.push((cp, cp, (p.len() - 1) as nat))
        }
    }
}

/// Number of format-4 segments: one per run plus the `0xFFFF` terminator.
pub open spec fn seg_count(m: Seq<(char, u16)>) -> nat {
    runs_of(bmp_pairs(m)).len() + 1
}

/// Byte length of the format-4 subtable.
pub open spec fn format4_len(m: Seq<(char, u16)>) -> nat {
    16 + 8 * seg_count(m) + 2 * bmp_pairs(m).len()
}

/// The `idRangeOffset` of run `i`: the distance from its own
/// `idRangeOffset` slot to its first entry in `glyphIdArray`.
pub open spec fn range_offset(s: nat, run_off: nat, i: nat) -> nat {
    (2 * s + 2 * run_off - 2 * i) as nat
}

/// The format-4 subtable for `m`.
pub open spec fn format4_subtable(m: Seq<(char, u16)>) -> Seq<u8> {
    let p = bmp_pairs(m);
    let r = runs_of(p);
    let s = seg_count(m);
    let sp = search_params(s, 2);
    u16_be(4) + u16_be(format4_len(m)) + u16_be(0) + u16_be(2 * s) + u16_be(sp.0) + u16_be(sp.1) + u16_be(sp.2)
        + u16s(r.map_values(|x: (nat, nat, nat)| x.1).push(0xFFFF)) + u16_be(0)
        + u16s(r.map_values(|x: (nat, nat, nat)| x.0).push(0xFFFF))
        + u16s(Seq::new(r.len(), |i: int| 0nat).push(1))
        + u16s(Seq::new(r.len(), |i: int| range_offset(s, r[i].2, i as nat)).push(0))
        + u16s(p.map_values(|x: (nat, nat)| x.1))
}

/// The whole `cmap` table: header plus one (3, 1) Windows Unicode BMP
/// encoding record pointing at the format-4 subtable right after it.
pub open spec fn cmap_table(m: Seq<(char, u16)>) -> Seq<u8> {
    u16_be(0) + u16_be(1) + u16_be(3) + u16_be(1) + u32_be(12) + format4_subtable(m)
}

pub proof fn lemma_runs_props(p: Seq<(nat, nat)>)
    ensures
        runs_of(p).len() <= p.len(),
        forall|i: int| 0 <= i < runs_of(p).len() ==> (#[trigger] runs_of(p)[i]).2 < p.len() && runs_of(p)[i].2 >= i
            && runs_of(p)[i].0 <= runs_of(p)[i].1,
        p.len() > 0 ==> runs_of(p).len() > 0 && runs_of(p).last().1 == p.last().0,
    decreases p.len(),
{
    if p.len() > 0 {
        lemma_runs_props(p.drop_last());
    }
}

pub proof fn lemma_runs_bounded(p: Seq<(nat, nat)>)
    requires
        forall|q: int| 0 <= q < p.len() ==> (#[trigger] p[q]).0 <= 0xFFFF,
    ensures
        forall|i: int| 0 <= i < runs_of(p).len() ==> (#[trigger] runs_of(p)[i]).0 <= 0xFFFF && runs_of(p)[i].1 <= 0xFFFF,
    decreases p.len(),
{
    if p.len() > 0 {
        let pd = p.drop_last();
        assert forall|q: int| 0 <= q < pd.len() implies (#[trigger] pd[q]).0 <= 0xFFFF by {
            assert(pd[q] == p[q]);
        }
        lemma_runs_bounded(pd);
        assert(p.last() == p[p.len() - 1]);
        let r = runs_of(pd);
        let cp = p.last().0;
        if r.len() > 0 && cp == r.last().1 + 1 {
            assert(r.last() == r[r.len() - 1]);
            assert forall|i: int| 0 <= i < runs_of(p).len() implies (#[trigger] runs_of(p)[i]).0 <= 0xFFFF && runs_of(
                p,
            )[i].1 <= 0xFFFF by {
                if i < r.len() - 1 {
                    assert(runs_of(p)[i] == r[i]);
                }
            }
        } else {
            assert forall|i: int| 0 <= i < runs_of(p).len() implies (#[trigger] runs_of(p)[i]).0 <= 0xFFFF && runs_of(
                p,
            )[i].1 <= 0xFFFF by {
                if i < r.len() {
                    assert(runs_of(p)[i] == r[i]);
                }
            }
        }
    }
}

pub proof fn lemma_bmp_pairs_props(m: Seq<(char, u16)>)
    ensures
        bmp_pairs(m).len() <= m.len(),
        forall|i: int| 0 <= i < bmp_pairs(m).len() ==> (#[trigger] bmp_pairs(m)[i]).0 <= 0xFFFF && bmp_pairs(m)[i].1 < 65536,
    decreases m.len(),
{
    if m.len() > 0 {
        lemma_bmp_pairs_props(m.drop_last());
    }
}

/// Appends big-endian `u16`s.
fn push_u16s(out: &mut Vec<u8>, vals: &Vec<u16>)
    ensures
        final(out)@ == old(out)@ + u16s(vals@.map_values(|v: u16| v as nat)),
{
    let ghost start = out@;
    let mut i: usize = 0;
    while i < vals.len()
        invariant
            i <= vals@.len(),
            out@ == start + u16s(vals@.take(i as int).map_values(|v: u16| v as nat)),
        decreases vals@.len() - i,
    {
        push_u16_be(out, vals[i]);
        proof {
            let t = vals@.take(i + 1).map_values(|v: u16| v as nat);
            assert(t.drop_last() =~= vals@.take(i as int).map_values(|v: u16| v as nat));
        }
        i = i + 1;
    }
    assert(vals@.take(vals@.len() as int) =~= vals@);
}

/// Builds a `cmap` table with a single format-4 (segmented BMP) subtable
/// covering exactly the BMP characters of `char_to_new_gid`. Segments
/// always use the `idRangeOffset` + `glyphIdArray` indirection, since
/// subset glyph IDs are generally not contiguous with code point order.
/// Fails with `MalformedFont` when the subtable would exceed its 16-bit
/// length field.
pub fn build_cmap_format4(char_to_new_gid: &Vec<(char, u16)>) -> (r: Result<Vec<u8>, FontError>)
    requires
        chars_increasing(char_to_new_gid@),
    ensures
        r is Ok <==> format4_len(char_to_new_gid@) <= 65535,
        r is Err ==> r == Err::<Vec<u8>, FontError>(FontError::MalformedFont),
        r matches Ok(t) ==> t@ == cmap_table(char_to_new_gid@),
{
    let ghost m = char_to_new_gid@;
    // BMP pairs, in code point order.
    let mut cps: Vec<u32> = Vec::new();
    let mut gids: Vec<u16> = Vec::new();
    let mut i: usize = 0;
    while i < char_to_new_gid.len()
        invariant
            i <= m.len(),
            m == char_to_new_gid@,
            cps@.len() == gids@.len() == bmp_pairs(m.take(i as int)).len(),
            forall|j: int| 0 <= j < cps@.len() ==> #[trigger] bmp_pairs(m.take(i as int))[j] == (cps@[j] as nat, gids@[j] as nat),
        decreases m.len() - i,
    {
        let (ch, gid) = char_to_new_gid[i];
        let cp = ch as u32;
        assert(m.take(i + 1).drop_last() =~= m.take(i as int));
        if cp <= 0xFFFF {
            cps.push(cp);
            gids.push(gid);
        }
        i = i + 1;
    }
    assert(m.take(m.len() as int) =~= m);
    let ghost p = bmp_pairs(m);
    proof {
        lemma_bmp_pairs_props(m);
    }
    // Runs of consecutive code points.
    let mut run_start: Vec<u32> = Vec::new();
    let mut run_end: Vec<u32> = Vec::new();
    let mut run_off: Vec<usize> = Vec::new();
    let mut k: usize = 0;
    while k < cps.len()
        invariant
            k <= cps@.len() == p.len(),
            cps@.len() == gids@.len(),
            forall|j: int| 0 <= j < cps@.len() ==> #[trigger] p[j] == (cps@[j] as nat, gids@[j] as nat),
            forall|j: int| 0 <= j < p.len() ==> (#[trigger] p[j]).0 <= 0xFFFF,
            run_start@.len() == run_end@.len() == run_off@.len() == runs_of(p.take(k as int)).len(),
            forall|j: int| 0 <= j < run_start@.len() ==> #[trigger] runs_of(p.take(k as int))[j] == (
                run_start@[j] as nat,
                run_end@[j] as nat,
                run_off@[j] as nat,
            ),
        decreases p.len() - k,
    {
        let cp = cps[k];
        proof {
            assert(p.take(k + 1).drop_last() =~= p.take(k as int));
            assert(p.take(k + 1).last() == p[k as int]);
            lemma_runs_props(p.take(k as int));
        }
        let n = run_end.len();
        if n > 0 && run_end[n - 1] < 0xFFFF && cp == run_end[n - 1] + 1 {
            run_end.set(n - 1, cp);
        } else {
            proof {
                if n > 0 {
                    assert(runs_of(p.take(k as int)).last().1 == p.take(k as int).last().0);
                }
            }
            run_start.push(cp);
            run_end.push(cp);
            run_off.push(k);
        }
        k = k + 1;
    }
    assert(p.take(p.len() as int) =~= p);
    let ghost r = runs_of(p);
    proof {
        lemma_runs_props(p);
        lemma_runs_bounded(p);
    }
    if run_start.len() >= 32767 || gids.len() > 32767 {
        return Err(FontError::MalformedFont);
    }
    let seg = run_start.len() + 1;
    let seg_count_x2 = (seg * 2) as u16;
    let (search_range, entry_selector, range_shift) = sfnt_search_params(seg as u16, 2);
    let length = 16 + 8 * seg + 2 * gids.len();
    if length > 65535 {
        return Err(FontError::MalformedFont);
    }
    let mut sub: Vec<u8> = Vec::new();
    push_u16_be(&mut sub, 4);
    push_u16_be(&mut sub, length as u16);
    push_u16_be(&mut sub, 0);
    push_u16_be(&mut sub, seg_count_x2);
    push_u16_be(&mut sub, search_range);
    push_u16_be(&mut sub, entry_selector);
    push_u16_be(&mut sub, range_shift);
    let ghost head = sub@;
    // endCode
    let mut ends: Vec<u16> = Vec::new();
    let mut starts: Vec<u16> = Vec::new();
    let mut deltas: Vec<u16> = Vec::new();
    let mut offs: Vec<u16> = Vec::new();
    let mut j: usize = 0;
    while j < run_start.len()
        invariant
            j <= run_start@.len() == r.len(),
            run_start@.len() == run_end@.len() == run_off@.len(),
            seg == r.len() + 1,
            seg <= 32767,
            forall|q: int| 0 <= q < r.len() ==> #[trigger] r[q] == (run_start@[q] as nat, run_end@[q] as nat, run_off@[q] as nat),
            forall|q: int| 0 <= q < r.len() ==> (#[trigger] r[q]).2 < p.len() && r[q].2 >= q && r[q].0 <= r[q].1 && r[q].1 <= 0xFFFF,
            forall|q: int| 0 <= q < p.len() ==> (#[trigger] p[q]).0 <= 0xFFFF,
            p.len() == gids@.len(),
            16 + 8 * seg + 2 * gids@.len() <= 65535,
            ends@ == r.take(j as int).map_values(|x: (nat, nat, nat)| x.1 as u16),
            starts@ == r.take(j as int).map_values(|x: (nat, nat, nat)| x.0 as u16),
            deltas@ == Seq::new(j as nat, |q: int| 0u16),
            offs@ == Seq::new(j as nat, |q: int| range_offset(seg as nat, r[q].2, q as nat) as u16),
        decreases r.len() - j,
    {
        proof {
            assert(r[j as int] == (run_start@[j as int] as nat, run_end@[j as int] as nat, run_off@[j as int] as nat));
            assert(r[j as int].2 < p.len() && r[j as int].2 >= j);
        }
        ends.push(run_end[j] as u16);
        starts.push(run_start[j] as u16);
        deltas.push(0);
        let ro = 2 * seg + 2 * run_off[j] - 2 * j;
        offs.push(ro as u16);
        proof {
            assert(r.take(j + 1) =~= r.take(j as int).push(r[j as int]));
        }
        j = j + 1;
    }
    ends.push(0xFFFF);
    starts.push(0xFFFF);
    deltas.push(1);
    offs.push(0);
    proof {
        assert(r.take(r.len() as int) =~= r);
        assert(ends@.map_values(|v: u16| v as nat) =~= r.map_values(|x: (nat, nat, nat)| x.1).push(0xFFFF));
        assert(starts@.map_values(|v: u16| v as nat) =~= r.map_values(|x: (nat, nat, nat)| x.0).push(0xFFFF));
        assert(deltas@.map_values(|v: u16| v as nat) =~= Seq::new(r.len(), |i: int| 0nat).push(1));
        assert(offs@.map_values(|v: u16| v as nat) =~= Seq::new(r.len(), |i: int| range_offset(seg as nat, r[i].2, i as nat)).push(0));
        assert(gids@.map_values(|v: u16| v as nat) =~= p.map_values(|x: (nat, nat)| x.1));
    }
    push_u16s(&mut sub, &ends);
    push_u16_be(&mut sub, 0);
    push_u16s(&mut sub, &starts);
    push_u16s(&mut sub, &deltas);
    push_u16s(&mut sub, &offs);
    push_u16s(&mut sub, &gids);
    let mut cmap: Vec<u8> = Vec::new();
    push_u16_be(&mut cmap, 0);
    push_u16_be(&mut cmap, 1);
    push_u16_be(&mut cmap, 3);
    push_u16_be(&mut cmap, 1);
    push_u32_be(&mut cmap, 12);
    push_bytes(&mut cmap, sub.as_slice());
    assert(cmap@ =~= cmap_table(m));
    Ok(cmap)
}

} // verus!
