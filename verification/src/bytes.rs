//! Big-endian integer encoding over byte sequences, shared by the font
//! table code and the PDF writer.

use vstd::prelude::*;

verus! {

/// The two big-endian bytes of `v`.
pub open spec fn u16_be(v: nat) -> Seq<u8> {
    seq![((v / 256) % 256) as u8, (v % 256) as u8]
}

/// The four big-endian bytes of `v`.
pub open spec fn u32_be(v: nat) -> Seq<u8> {
    seq![((v / 16777216) % 256) as u8, ((v / 65536) % 256) as u8, ((v / 256) % 256) as u8, (v % 256) as u8]
}

/// The big-endian `u16` stored at `off`.
pub open spec fn be16(d: Seq<u8>, off: int) -> nat {
    (d[off] as nat) * 256 + (d[off + 1] as nat)
}

/// The big-endian `u32` stored at `off`.
pub open spec fn be32(d: Seq<u8>, off: int) -> nat {
    (d[off] as nat) * 16777216 + (d[off + 1] as nat) * 65536 + (d[off + 2] as nat) * 256 + (d[off + 3] as nat)
}

/// The two's-complement `i16` stored big-endian at `off`.
pub open spec fn bei16(d: Seq<u8>, off: int) -> int {
    let u = be16(d, off);
    if u >= 32768 { u - 65536 } else { u as int }
}

/// `d` with the bytes `pos..pos + r.len()` replaced by `r`.
pub open spec fn splice(d: Seq<u8>, pos: int, r: Seq<u8>) -> Seq<u8> {
    d.take(pos) + r + d.skip(pos + r.len())
}

pub proof fn lemma_be16_roundtrip(v: nat)
    requires
        v < 65536,
    ensures
        be16(u16_be(v), 0) == v,
{
}

/// Reads the big-endian `u16` at `off`.
pub fn read_u16(d: &[u8], off: usize) -> (r: u16)
    requires
        off + 2 <= d@.len(),
    ensures
        r == be16(d@, off as int),
{
    (d[off] as u16) * 256 + (d[off + 1] as u16)
}

/// Reads the big-endian `u32` at `off`.
pub fn read_u32(d: &[u8], off: usize) -> (r: u32)
    requires
        off + 4 <= d@.len(),
    ensures
        r == be32(d@, off as int),
{
    (d[off] as u32) * 16777216 + (d[off + 1] as u32) * 65536 + (d[off + 2] as u32) * 256 + (d[off + 3] as u32)
}

/// Reads the big-endian two's-complement `i16` at `off`.
pub fn read_i16(d: &[u8], off: usize) -> (r: i16)
    requires
        off + 2 <= d@.len(),
    ensures
        r == bei16(d@, off as int),
{
    let u = read_u16(d, off);
    if u >= 32768 {
        (u as i32 - 65536) as i16
    } else {
        u as i16
    }
}

/// Appends the big-endian bytes of `v`.
pub fn push_u16_be(out: &mut Vec<u8>, v: u16)
    ensures
        final(out)@ == old(out)@ + u16_be(v as nat),
{
    out.push((v / 256) as u8);
    out.push((v % 256) as u8);
    assert(final(out)@ =~= old(out)@ + u16_be(v as nat));
}

/// Appends the big-endian bytes of `v`.
pub fn push_u32_be(out: &mut Vec<u8>, v: u32)
    ensures
        final(out)@ == old(out)@ + u32_be(v as nat),
{
    out.push(((v / 16777216) % 256) as u8);
    out.push(((v / 65536) % 256) as u8);
    out.push(((v / 256) % 256) as u8);
    out.push((v % 256) as u8);
    assert(final(out)@ =~= old(out)@ + u32_be(v as nat));
}

/// Appends every byte of `s`.
pub fn push_bytes(out: &mut Vec<u8>, s: &[u8])
    ensures
        final(out)@ == old(out)@ + s@,
{
    let ghost start = out@;
    let mut i: usize = 0;
    while i < s.len()
        invariant
            i <= s@.len(),
            out@ == start + s@.take(i as int),
        decreases s@.len() - i,
    {
        out.push(s[i]);
        i = i + 1;
        assert(out@ =~= start + s@.take(i as int));
    }
    assert(s@.take(s@.len() as int) =~= s@);
}

/// Overwrites `d[pos..pos + 2]` with the big-endian bytes of `v`.
pub fn set_u16_be(d: &mut Vec<u8>, pos: usize, v: u16)
    requires
        pos + 2 <= old(d)@.len(),
    ensures
        final(d)@ == splice(old(d)@, pos as int, u16_be(v as nat)),
{
    let _n = d.len();
    d.set(pos, (v / 256) as u8);
    d.set(pos + 1, (v % 256) as u8);
    assert(final(d)@ =~= splice(old(d)@, pos as int, u16_be(v as nat)));
}

/// Overwrites `d[pos..pos + 4]` with the big-endian bytes of `v`.
pub fn set_u32_be(d: &mut Vec<u8>, pos: usize, v: u32)
    requires
        pos + 4 <= old(d)@.len(),
    ensures
        final(d)@ == splice(old(d)@, pos as int, u32_be(v as nat)),
{
    let _n = d.len();
    d.set(pos, ((v / 16777216) % 256) as u8);
    d.set(pos + 1, ((v / 65536) % 256) as u8);
    d.set(pos + 2, ((v / 256) % 256) as u8);
    d.set(pos + 3, (v % 256) as u8);
    assert(final(d)@ =~= splice(old(d)@, pos as int, u32_be(v as nat)));
}

/// Overwrites `d[pos..pos + r.len()]` with `r`.
pub fn set_range(d: &mut Vec<u8>, pos: usize, r: &[u8])
    requires
        pos + r@.len() <= old(d)@.len(),
    ensures
        final(d)@ == splice(old(d)@, pos as int, r@),
{
    let ghost start = d@;
    let _n = d.len();
    let mut i: usize = 0;
    while i < r.len()
        invariant
            i <= r@.len(),
            pos + r@.len() <= start.len(),
            d@.len() == start.len(),
            start.len() == _n,
            d@ == splice(start, pos as int, r@.take(i as int)),
        decreases r@.len() - i,
    {
        d.set(pos + i, r[i]);
        i = i + 1;
        assert(d@ =~= splice(start, pos as int, r@.take(i as int)));
    }
    assert(r@.take(r@.len() as int) =~= r@);
}

/// Copies `d[start..end]` into a new vector.
pub fn copy_range(d: &[u8], start: usize, end: usize) -> (r: Vec<u8>)
    requires
        start <= end <= d@.len(),
    ensures
        r@ == d@.subrange(start as int, end as int),
{
    let mut r: Vec<u8> = Vec::new();
    let mut i = start;
    while i < end
        invariant
            start <= i <= end <= d@.len(),
            r@ == d@.subrange(start as int, i as int),
        decreases end - i,
    {
        r.push(d[i]);
        i = i + 1;
        assert(r@ =~= d@.subrange(start as int, i as int));
    }
    r
}

} // verus!
