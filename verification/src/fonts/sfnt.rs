//! Low-level sfnt byte encoding: the TrueType table checksum, the shared
//! binary-search-parameter formula, and assembly of a complete sfnt binary
//! from already-built table buffers.

use vstd::prelude::*;
use crate::bytes::{splice, u16_be, u32_be, push_u16_be, push_u32_be, push_bytes, set_u32_be, set_range};
use crate::fonts::font::FontError;

verus! {

pub open spec fn pow2(e: nat) -> nat
    decreases e,
{
    if e == 0 { 1 } else { 2 * pow2((e - 1) as nat) }
}

/// The first four bytes of `d` as a big-endian word, missing bytes read as zero.
pub open spec fn word(d: Seq<u8>) -> nat {
    let b0: nat = if 0 < d.len() { d[0] as nat } else { 0 };
    let b1: nat = if 1 < d.len() { d[1] as nat } else { 0 };
    let b2: nat = if 2 < d.len() { d[2] as nat } else { 0 };
    let b3: nat = if 3 < d.len() { d[3] as nat } else { 0 };
    b0 * 16777216 + b1 * 65536 + b2 * 256 + b3
}

/// TrueType table checksum: the sum, modulo 2^32, of the big-endian 4-byte
/// words of `d`, a final partial word zero-padded (OpenType spec).
pub open spec fn checksum(d: Seq<u8>) -> nat
    decreases d.len(),
{
    if d.len() <= 4 {
        word(d) % 4294967296
    } else {
        (word(d) + checksum(d.skip(4))) % 4294967296
    }
}

/// The whole-file checksum every valid sfnt resolves to once
/// `head.checkSumAdjustment` is set.
pub open spec fn sfnt_magic() -> nat {
    0xB1B0AFBA
}

proof fn lemma_pow2_grows(e: nat)
    ensures
        pow2(e) > e,
        pow2(e) >= 1,
    decreases e,
{
    if e > 0 {
        lemma_pow2_grows((e - 1) as nat);
    }
}

proof fn lemma_mul_bound(a: nat, b: nat)
    requires
        a <= 65535,
        b <= 65535,
    ensures
        a * b <= 65535 * 65535,
{
    assert(a * b <= 65535 * 65535) by (nonlinear_arith)
        requires
            a <= 65535,
            b <= 65535,
    ;
}

proof fn lemma_mod_add(s: nat, w: nat, c: nat)
    ensures
        ((s + w) % 4294967296 + c) % 4294967296 == (s + (w + c) % 4294967296) % 4294967296,
{
    vstd::arithmetic::div_mod::lemma_add_mod_noop(s as int, w as int, 4294967296);
    vstd::arithmetic::div_mod::lemma_add_mod_noop(s as int + w as int, c as int, 4294967296);
    vstd::arithmetic::div_mod::lemma_add_mod_noop(s as int, w as int + c as int, 4294967296);
    vstd::arithmetic::div_mod::lemma_mod_twice(s as int + w as int, 4294967296);
    vstd::arithmetic::div_mod::lemma_add_mod_noop(s as int, (w as int + c as int) % 4294967296, 4294967296);
    vstd::arithmetic::div_mod::lemma_mod_twice(w as int + c as int, 4294967296);
}

/// One word of the checksum loop: the running sum `s` plus the checksum of
/// what is left after the next word equals `s` plus the checksum of the
/// rest before it.
proof fn lemma_checksum_step(d: Seq<u8>, i: int, s: nat, s2: nat)
    requires
        0 <= i < d.len(),
        s2 == (s + word(d.skip(i))) % 4294967296,
    ensures
        d.len() - i > 4 ==> (s2 + checksum(d.skip(i + 4))) % 4294967296 == (s + checksum(d.skip(i))) % 4294967296,
        d.len() - i <= 4 ==> s2 % 4294967296 == (s + checksum(d.skip(i))) % 4294967296,
{
    let rest = d.skip(i);
    if d.len() - i > 4 {
        assert(rest.skip(4) =~= d.skip(i + 4));
        lemma_mod_add(s, word(rest), checksum(d.skip(i + 4)));
    } else {
        vstd::arithmetic::div_mod::lemma_add_mod_noop(s as int, word(rest) as int, 4294967296);
        vstd::arithmetic::div_mod::lemma_mod_twice(word(rest) as int, 4294967296);
        vstd::arithmetic::div_mod::lemma_mod_twice(s as int + word(rest) as int, 4294967296);
        vstd::arithmetic::div_mod::lemma_add_mod_noop(s as int, (word(rest) as int) % 4294967296, 4294967296);
    }
}

/// The (zero-padded) word starting at byte `i`.
fn word_at(data: &[u8], i: usize) -> (w: u32)
    requires
        i < data@.len(),
    ensures
        w == word(data@.skip(i as int)),
{
    let len = data.len();
    let b0 = data[i] as u32;
    let b1: u32 = if len - i > 1 { data[i + 1] as u32 } else { 0 };
    let b2: u32 = if len - i > 2 { data[i + 2] as u32 } else { 0 };
    let b3: u32 = if len - i > 3 { data[i + 3] as u32 } else { 0 };
    b0 * 16777216 + b1 * 65536 + b2 * 256 + b3
}

/// TrueType table checksum over `data`.
pub fn table_checksum(data: &[u8]) -> (sum: u32)
    ensures
        sum == checksum(data@),
{
    let len = data.len();
    let mut sum: u32 = 0;
    let mut i: usize = 0;
    assert(data@.skip(0) =~= data@);
    while i < len
        invariant
            i <= len == data@.len(),
            (sum + checksum(data@.skip(i as int))) % 4294967296 == checksum(data@),
        decreases len - i,
    {
        let w = word_at(data, i);
        let old_sum = sum;
        sum = sum.wrapping_add(w);
        proof {
            lemma_checksum_step(data@, i as int, old_sum as nat, sum as nat);
        }
        if len - i > 4 {
            i = i + 4;
        } else {
            i = len;
            assert(data@.skip(len as int).len() == 0);
            assert(sum as nat % 4294967296 == sum);
        }
    }
    assert(data@.skip(len as int).len() == 0);
    sum
}

/// `floor(log2(c))`, with `floor_log2(0) == 0`.
pub open spec fn floor_log2(c: nat) -> nat
    decreases c,
{
    if c < 2 { 0 } else { 1 + floor_log2(c / 2) }
}

/// `(searchRange, entrySelector, rangeShift)` for `count` units of
/// `unit_size` bytes: `entrySelector = floor(log2(count))`, `searchRange =
/// 2^entrySelector * unit_size`, `rangeShift = count * unit_size -
/// searchRange`, each truncated to a `u16`.
pub open spec fn search_params(count: nat, unit_size: nat) -> (nat, nat, nat) {
    let e = floor_log2(count);
    let sr = pow2(e) * unit_size;
    (sr % 65536, e, (((count * unit_size) as int - sr as int) % 65536) as nat)
}

proof fn lemma_floor_log2_unique(c: nat, e: nat)
    requires
        pow2(e) <= c < pow2(e + 1),
    ensures
        floor_log2(c) == e,
    decreases e,
{
    if e > 0 {
        assert(pow2(e) == 2 * pow2((e - 1) as nat));
        assert(pow2(e + 1) == 2 * pow2(e));
        lemma_floor_log2_unique(c / 2, (e - 1) as nat);
    }
}

/// Shared binary-search-parameter formula from the sfnt/cmap spec,
/// parameterized by `unit_size` so it covers both the sfnt table directory
/// (16-byte records) and the cmap format-4 segment arrays (2 bytes each).
pub fn sfnt_search_params(count: u16, unit_size: u16) -> (r: (u16, u16, u16))
    ensures
        (r.0 as nat, r.1 as nat, r.2 as nat) == search_params(count as nat, unit_size as nat),
{
    let c: u32 = if count == 0 { 1 } else { count as u32 };
    let mut p: u32 = 1;
    let mut entry_selector: u16 = 0;
    while p * 2 <= c
        invariant
            1 <= p <= c <= 65535,
            p == pow2(entry_selector as nat),
            entry_selector < p,
        decreases c - p,
    {
        proof {
            lemma_pow2_grows(entry_selector as nat + 1);
        }
        p = p * 2;
        entry_selector = entry_selector + 1;
    }
    proof {
        lemma_mul_bound(p as nat, unit_size as nat);
        lemma_mul_bound(count as nat, unit_size as nat);
        lemma_floor_log2_unique(c as nat, entry_selector as nat);
    }
    let search_range: u16 = ((p as u64 * unit_size as u64) % 65536) as u16;
    let total: u64 = count as u64 * unit_size as u64;
    let sr64: u64 = p as u64 * unit_size as u64;
    let range_shift: u16 = if total >= sr64 {
        ((total - sr64) % 65536) as u16
    } else {
        ((65536 - (sr64 - total) % 65536) % 65536) as u16
    };
    (search_range, entry_selector, range_shift)
}

pub open spec fn pad4(n: nat) -> nat {
    ((4 - n % 4) % 4) as nat
}

/// `d` zero-padded to a multiple of four bytes.
pub open spec fn padded(d: Seq<u8>) -> Seq<u8> {
    d + Seq::new(pad4(d.len()), |i: int| 0u8)
}

/// A table list as (tag bytes, table bytes) pairs.
pub open spec fn table_list(tables: Seq<([u8; 4], Vec<u8>)>) -> Seq<(Seq<u8>, Seq<u8>)> {
    tables.map_values(|e: ([u8; 4], Vec<u8>)| (e.0@, e.1@))
}

/// Every tag is four bytes long.
pub open spec fn tags_ok(t: Seq<(Seq<u8>, Seq<u8>)>) -> bool {
    forall|i: int| 0 <= i < t.len() ==> (#[trigger] t[i]).0.len() == 4
}

/// Tags taken from `[u8; 4]` arrays are four bytes long.
pub proof fn lemma_table_list_tags(tables: Seq<([u8; 4], Vec<u8>)>)
    ensures
        tags_ok(table_list(tables)),
{
    assert forall|i: int| 0 <= i < table_list(tables).len() implies (#[trigger] table_list(tables)[i]).0.len() == 4 by {
        assert(table_list(tables)[i].0 == tables[i].0@);
    }
}

/// The tag of table `i`.
pub open spec fn ttag(t: Seq<(Seq<u8>, Seq<u8>)>, i: int) -> Seq<u8> {
    t[i].0
}

/// The bytes of table `i`.
pub open spec fn tdata(t: Seq<(Seq<u8>, Seq<u8>)>, i: int) -> Seq<u8> {
    t[i].1
}

/// The padded table bodies of the first `k` tables, back to back.
pub open spec fn body(t: Seq<(Seq<u8>, Seq<u8>)>, k: nat) -> Seq<u8>
    decreases k,
{
    if k == 0 {
        seq![]
    } else {
        body(t, (k - 1) as nat) + padded(tdata(t, k - 1))
    }
}

/// Byte offset of table `i` in the assembled file.
pub open spec fn table_offset(t: Seq<(Seq<u8>, Seq<u8>)>, i: nat) -> nat {
    12 + 16 * t.len() + body(t, i).len()
}

/// Directory record of table `i`: tag, checksum, offset, length.
#[verifier::opaque]
pub open spec fn dir_record(t: Seq<(Seq<u8>, Seq<u8>)>, i: nat) -> Seq<u8> {
    ttag(t, i as int) + u32_be(checksum(tdata(t, i as int))) + u32_be(table_offset(t, i)) + u32_be(
        tdata(t, i as int).len(),
    )
}

/// Directory records of the first `k` tables.
pub open spec fn directory(t: Seq<(Seq<u8>, Seq<u8>)>, k: nat) -> Seq<u8>
    decreases k,
{
    if k == 0 {
        seq![]
    } else {
        directory(t, (k - 1) as nat) + dir_record(t, (k - 1) as nat)
    }
}

/// The 12-byte sfnt header (TrueType version, table count, binary-search
/// parameters).
#[verifier::opaque]
pub open spec fn sfnt_header(n: nat) -> Seq<u8> {
    let p = search_params(n, 16);
    u32_be(0x10000) + u16_be(n) + u16_be(p.0) + u16_be(p.1) + u16_be(p.2)
}

/// Header, directory and padded table bodies, before the checksum patch.
pub open spec fn sfnt_layout(t: Seq<(Seq<u8>, Seq<u8>)>) -> Seq<u8> {
    sfnt_header(t.len()) + directory(t, t.len()) + body(t, t.len())
}

pub open spec fn head_tag() -> Seq<u8> {
    seq![104u8, 101u8, 97u8, 100u8]
}

/// Index of the first table tagged `tag` at or after `i`, or -1.
pub open spec fn find_tag(t: Seq<(Seq<u8>, Seq<u8>)>, tag: Seq<u8>, i: nat) -> int
    decreases t.len() - i,
{
    if i >= t.len() {
        -1
    } else if ttag(t, i as int) == tag {
        i as int
    } else {
        find_tag(t, tag, i + 1)
    }
}

/// Position of `head.checkSumAdjustment` in the assembled file.
pub open spec fn adjustment_pos(t: Seq<(Seq<u8>, Seq<u8>)>) -> nat {
    table_offset(t, find_tag(t, head_tag(), 0) as nat) + 8
}

/// The assembled file with `checkSumAdjustment` zeroed.
pub open spec fn sfnt_zeroed(t: Seq<(Seq<u8>, Seq<u8>)>) -> Seq<u8> {
    splice(sfnt_layout(t), adjustment_pos(t) as int, u32_be(0))
}

/// The complete sfnt binary: the layout with `checkSumAdjustment` set so
/// that the whole file sums to `sfnt_magic()`.
pub open spec fn sfnt_file(t: Seq<(Seq<u8>, Seq<u8>)>) -> Seq<u8> {
    let z = sfnt_zeroed(t);
    splice(z, adjustment_pos(t) as int, u32_be(((sfnt_magic() + 4294967296 - checksum(z)) % 4294967296) as nat))
}

/// Whether every offset and length fits its 32-bit directory field and the
/// table count fits its 16-bit field.
pub open spec fn sfnt_fits(t: Seq<(Seq<u8>, Seq<u8>)>) -> bool {
    &&& t.len() <= 65535
    &&& forall|i: nat| i < t.len() ==> #[trigger] table_fits(t, i)
}

/// Whether table `i`'s offset and length fit their 32-bit fields.
pub open spec fn table_fits(t: Seq<(Seq<u8>, Seq<u8>)>, i: nat) -> bool {
    table_offset(t, i) <= u32::MAX && tdata(t, i as int).len() <= u32::MAX
}

pub proof fn lemma_directory_len(t: Seq<(Seq<u8>, Seq<u8>)>, k: nat)
    requires
        k <= t.len(),
        tags_ok(t),
    ensures
        directory(t, k).len() == 16 * k,
    decreases k,
{
    reveal(dir_record);
    if k > 0 {
        lemma_directory_len(t, (k - 1) as nat);
        assert(t[k - 1].0.len() == 4);
    }
}

pub proof fn lemma_body_aligned(t: Seq<(Seq<u8>, Seq<u8>)>, k: nat)
    ensures
        body(t, k).len() % 4 == 0,
    decreases k,
{
    if k > 0 {
        lemma_body_aligned(t, (k - 1) as nat);
    }
}

pub proof fn lemma_find_tag(t: Seq<(Seq<u8>, Seq<u8>)>, tag: Seq<u8>, i: nat)
    ensures
        find_tag(t, tag, i) == -1 || (i <= find_tag(t, tag, i) < t.len() && ttag(t, find_tag(t, tag, i)) == tag),
    decreases t.len() - i,
{
    if i < t.len() && ttag(t, i as int) != tag {
        lemma_find_tag(t, tag, i + 1);
    }
}

/// Appends `data` zero-padded to a multiple of four bytes.
fn push_padded(out: &mut Vec<u8>, data: &[u8])
    ensures
        final(out)@ == old(out)@ + padded(data@),
{
    push_bytes(out, data);
    let ghost before = old(out)@;
    let pad = (4 - data.len() % 4) % 4;
    let mut k: usize = 0;
    while k < pad
        invariant
            k <= pad <= 3,
            out@ == before + data@ + Seq::new(k as nat, |q: int| 0u8),
        decreases pad - k,
    {
        out.push(0u8);
        k = k + 1;
        assert(out@ =~= before + data@ + Seq::new(k as nat, |q: int| 0u8));
    }
    assert(out@ =~= before + padded(data@));
}

/// Appends `count` zero bytes.
fn push_zeros(out: &mut Vec<u8>, count: usize)
    ensures
        final(out)@ == old(out)@ + Seq::new(count as nat, |q: int| 0u8),
{
    let ghost before = old(out)@;
    let mut k: usize = 0;
    while k < count
        invariant
            k <= count,
            out@ == before + Seq::new(k as nat, |q: int| 0u8),
        decreases count - k,
    {
        out.push(0u8);
        k = k + 1;
        assert(out@ =~= before + Seq::new(k as nat, |q: int| 0u8));
    }
}

/// One 16-byte directory record.
fn make_record(tag: &[u8; 4], checksum: u32, offset: u32, len: u32) -> (rec: Vec<u8>)
    ensures
        rec@ == tag@ + u32_be(checksum as nat) + u32_be(offset as nat) + u32_be(len as nat),
{
    let mut rec: Vec<u8> = Vec::new();
    rec.push(tag[0]);
    rec.push(tag[1]);
    rec.push(tag[2]);
    rec.push(tag[3]);
    assert(rec@ =~= tag@);
    push_u32_be(&mut rec, checksum);
    push_u32_be(&mut rec, offset);
    push_u32_be(&mut rec, len);
    rec
}

/// The byte image while tables are being appended: header, the records
/// written so far, zeros for the rest of the directory, and the bodies.
#[verifier::opaque]
pub open spec fn partial_layout(t: Seq<(Seq<u8>, Seq<u8>)>, i: nat) -> Seq<u8> {
    sfnt_header(t.len()) + directory(t, i) + Seq::new((16 * (t.len() - i)) as nat, |k: int| 0u8) + body(t, i)
}

proof fn lemma_header_record_len(t: Seq<(Seq<u8>, Seq<u8>)>, i: nat)
    requires
        i < t.len(),
        tags_ok(t),
    ensures
        sfnt_header(t.len()).len() == 12,
        dir_record(t, i).len() == 16,
{
    reveal(sfnt_header);
    reveal(dir_record);
}

proof fn lemma_partial_step(t: Seq<(Seq<u8>, Seq<u8>)>, i: nat)
    requires
        i < t.len(),
        tags_ok(t),
    ensures
        splice(partial_layout(t, i) + padded(tdata(t, i as int)), (12 + 16 * i) as int, dir_record(t, i))
            == partial_layout(t, i + 1),
{
    reveal(partial_layout);
    lemma_directory_len(t, i);
    lemma_directory_len(t, i + 1);
    let n = t.len();
    let h = sfnt_header(n);
    let d = directory(t, i);
    let r = dir_record(t, i);
    lemma_header_record_len(t, i);
    let z = Seq::new((16 * (n - i)) as nat, |k: int| 0u8);
    let z1 = Seq::new((16 * (n - (i + 1))) as nat, |k: int| 0u8);
    let b = body(t, i);
    let p = padded(tdata(t, i as int));
    assert(h.len() == 12);
    assert(r.len() == 16);
    let a = h + d + z + b + p;
    assert(partial_layout(t, i) + p == a);
    let pos = (12 + 16 * i) as int;
    assert(a.take(pos) =~= h + d);
    assert(z =~= Seq::new(16, |k: int| 0u8) + z1);
    assert(a.skip(pos + 16) =~= z1 + b + p);
    assert(directory(t, i + 1) == d + r);
    assert(body(t, i + 1) == b + p);
    assert(splice(a, pos, r) =~= h + (d + r) + z1 + (b + p));
}

proof fn lemma_partial_len(t: Seq<(Seq<u8>, Seq<u8>)>, i: nat)
    requires
        i <= t.len(),
        tags_ok(t),
    ensures
        partial_layout(t, i).len() == table_offset(t, i),
{
    reveal(partial_layout);
    reveal(sfnt_header);
    lemma_directory_len(t, i);
}

#[verifier::spinoff_prover]
proof fn lemma_table_in_layout(t: Seq<(Seq<u8>, Seq<u8>)>, h: nat)
    requires
        h < t.len(),
        tags_ok(t),
    ensures
        table_offset(t, h) + tdata(t, h as int).len() <= sfnt_layout(t).len(),
        table_offset(t, h) % 4 == 0,
        sfnt_layout(t).len() % 4 == 0,
{
    reveal(sfnt_header);
    lemma_directory_len(t, t.len());
    lemma_body_prefix(t, h + 1, t.len());
    lemma_body_aligned(t, h);
    lemma_body_aligned(t, t.len());
}

proof fn lemma_partial_bounds(t: Seq<(Seq<u8>, Seq<u8>)>)
    ensures
        partial_layout(t, 0) == sfnt_header(t.len()) + Seq::new((16 * t.len()) as nat, |k: int| 0u8),
        partial_layout(t, t.len()) == sfnt_layout(t),
{
    reveal(partial_layout);
    assert(Seq::new((16 * (t.len() - t.len())) as nat, |k: int| 0u8) =~= Seq::<u8>::empty());
    assert(partial_layout(t, t.len()) =~= sfnt_layout(t));
    assert(partial_layout(t, 0) =~= sfnt_header(t.len()) + Seq::new((16 * t.len()) as nat, |k: int| 0u8));
}

/// Header, directory and padded bodies of `tables`, plus each table's
/// offset; `MalformedFont` when a count, offset or length does not fit.
fn layout_tables(tables: &Vec<([u8; 4], Vec<u8>)>) -> (r: Result<(Vec<u8>, Vec<u32>), FontError>)
    ensures
        r is Ok <==> sfnt_fits(table_list(tables@)),
        r matches Ok((out, offsets)) ==> {
            &&& out@ == sfnt_layout(table_list(tables@))
            &&& offsets@.len() == table_list(tables@).len()
            &&& forall|j: int| 0 <= j < table_list(tables@).len() ==> offsets@[j] as nat == table_offset(table_list(tables@), j as nat)
        },
        r is Err ==> r == Err::<(Vec<u8>, Vec<u32>), FontError>(FontError::MalformedFont),
{
    let ghost t = table_list(tables@);
    let n = tables.len();
    if n > 65535 {
        return Err(FontError::MalformedFont);
    }
    let num_tables = n as u16;
    let (search_range, entry_selector, range_shift) = sfnt_search_params(num_tables, 16);
    let mut out: Vec<u8> = Vec::new();
    push_u32_be(&mut out, 0x0001_0000u32);
    push_u16_be(&mut out, num_tables);
    push_u16_be(&mut out, search_range);
    push_u16_be(&mut out, entry_selector);
    push_u16_be(&mut out, range_shift);
    assert(out@ =~= sfnt_header(n as nat)) by {
        reveal(sfnt_header);
    }
    push_zeros(&mut out, 16 * n);
    let mut offsets: Vec<u32> = Vec::new();
    let mut i: usize = 0;
    proof {
        lemma_partial_bounds(t);
    }
    while i < n
        invariant
            i <= n == t.len() <= 65535,
            t == table_list(tables@),
            out@ == partial_layout(t, i as nat),
            offsets@.len() == i,
            forall|j: int| 0 <= j < i ==> offsets@[j] as nat == table_offset(t, j as nat),
            forall|j: nat| j < i ==> #[trigger] table_fits(t, j),
        decreases n - i,
    {
        proof {
            lemma_partial_len(t, i as nat);
        }
        let offset_usize = out.len();
        if offset_usize > 4294967295 {
            assert(!table_fits(t, i as nat));
            return Err(FontError::MalformedFont);
        }
        let offset = offset_usize as u32;
        let data = &tables[i].1;
        let checksum = table_checksum(data.as_slice());
        if data.len() > 4294967295 {
            assert(!table_fits(t, i as nat));
            return Err(FontError::MalformedFont);
        }
        let len32 = data.len() as u32;
        push_padded(&mut out, data.as_slice());
        let rec = make_record(&tables[i].0, checksum, offset, len32);
        assert(rec@ == dir_record(t, i as nat)) by {
            reveal(dir_record);
        }
        set_range(&mut out, 12 + 16 * i, rec.as_slice());
        proof {
            lemma_partial_step(t, i as nat);
        }
        offsets.push(offset);
        i = i + 1;
    }
    Ok((out, offsets))
}

/// Index of the first table tagged `head`.
fn head_index(tables: &Vec<([u8; 4], Vec<u8>)>) -> (h: usize)
    requires
        find_tag(table_list(tables@), head_tag(), 0) >= 0,
    ensures
        h as int == find_tag(table_list(tables@), head_tag(), 0),
{
    let ghost t = table_list(tables@);
    let n = tables.len();
    let mut h: usize = 0;
    while h < n && !is_head_tag(&tables[h].0)
        invariant
            h <= n == t.len(),
            t == table_list(tables@),
            find_tag(t, head_tag(), h as nat) == find_tag(t, head_tag(), 0),
        decreases n - h,
    {
        h = h + 1;
    }
    h
}

/// Assembles a complete sfnt binary from already-built table buffers
/// (which should be sorted by tag, as the OpenType spec requires). Pads
/// every table to a 4-byte boundary and finally sets
/// `head.checkSumAdjustment` so that the whole file's checksum is
/// `0xB1B0AFBA`. Fails with `MalformedFont` when a count, offset or length
/// does not fit its directory field.
pub fn build_sfnt(tables: &Vec<([u8; 4], Vec<u8>)>) -> (r: Result<Vec<u8>, FontError>)
    requires
        find_tag(table_list(tables@), head_tag(), 0) >= 0,
        tdata(table_list(tables@), find_tag(table_list(tables@), head_tag(), 0)).len() >= 12,
    ensures
        r is Ok <==> sfnt_fits(table_list(tables@)),
        r matches Ok(out) ==> out@ == sfnt_file(table_list(tables@)),
        r is Err ==> r == Err::<Vec<u8>, FontError>(FontError::MalformedFont),
{
    let (mut out, offsets) = match layout_tables(tables) {
        Ok(v) => v,
        Err(e) => return Err(e),
    };
    let h = head_index(tables);
    proof {
        lemma_find_tag(table_list(tables@), head_tag(), 0);
        lemma_table_in_layout(table_list(tables@), h as nat);
    }
    let head_offset = offsets[h] as usize;
    let _n = out.len();
    set_checksum_adjustment(&mut out, head_offset + 8);
    Ok(out)
}

/// Zeroes the word at `pos`, then stores there the value that makes the
/// whole buffer's checksum `sfnt_magic()`.
fn set_checksum_adjustment(out: &mut Vec<u8>, pos: usize)
    requires
        pos + 4 <= old(out)@.len(),
    ensures
        ({
            let z = splice(old(out)@, pos as int, u32_be(0));
            final(out)@ == splice(z, pos as int, u32_be(((sfnt_magic() + 4294967296 - checksum(z)) % 4294967296) as nat))
        }),
{
    set_u32_be(out, pos, 0);
    let file_checksum = table_checksum(out.as_slice());
    let adjustment = 0xB1B0_AFBAu32.wrapping_sub(file_checksum);
    set_u32_be(out, pos, adjustment);
}

/// Whether `tag` is `b"head"`.
fn is_head_tag(tag: &[u8; 4]) -> (b: bool)
    ensures
        b == (tag@ == head_tag()),
{
    let r = tag[0] == 104u8 && tag[1] == 101u8 && tag[2] == 97u8 && tag[3] == 100u8;
    if r {
        assert(tag@ =~= head_tag());
    } else {
        assert(tag@ != head_tag()) by {
            if tag@ == head_tag() {
                assert(tag@[0] == 104u8);
            }
        }
    }
    r
}

pub proof fn lemma_body_prefix(t: Seq<(Seq<u8>, Seq<u8>)>, k: nat, m: nat)
    requires
        k <= m,
    ensures
        body(t, k).len() <= body(t, m).len(),
    decreases m,
{
    if k < m {
        lemma_body_prefix(t, k, (m - 1) as nat);
    }
}

proof fn lemma_word_of_u32_be(w: u32)
    ensures
        word(u32_be(w as nat)) == w as nat,
        u32_be(w as nat).len() == 4,
{
    assert((w / 16777216) % 256 * 16777216 + (w / 65536) % 256 * 65536 + (w / 256) % 256 * 256 + w % 256 == w)
        by (bit_vector);
}

proof fn lemma_mod_shift(a: nat, c: nat, w: nat, x: nat)
    requires
        x < 4294967296,
        w < 4294967296,
    ensures
        (w + c) % 4294967296 == ((x + c) % 4294967296 + w + 4294967296 - x) % 4294967296,
{
    let m: int = 4294967296;
    vstd::arithmetic::div_mod::lemma_add_mod_noop(x as int + c as int, w as int + m - x as int, m);
    vstd::arithmetic::div_mod::lemma_mod_twice(x as int + c as int, m);
    assert((x as int + c as int) + (w as int + m - x as int) == (w as int + c as int) + m);
    vstd::arithmetic::div_mod::lemma_mod_add_multiples_vanish(w as int + c as int, m);
    vstd::arithmetic::div_mod::lemma_mod_twice(w as int + m - x as int, m);
    vstd::arithmetic::div_mod::lemma_add_mod_noop((x as int + c as int) % m, w as int + m - x as int, m);
}

proof fn lemma_mod_step(wd: int, c: int, wi: int, x: int)
    requires
        0 <= x < 4294967296,
        0 <= wi < 4294967296,
        0 <= wd,
        0 <= c,
    ensures
        (wd + (c + wi + 4294967296 - x) % 4294967296) % 4294967296 == ((wd + c) % 4294967296 + wi + 4294967296 - x)
            % 4294967296,
{
    let m: int = 4294967296;
    let b = c + wi + m - x;
    let a = wd + c;
    let d = wi + m - x;
    vstd::arithmetic::div_mod::lemma_mod_twice(b, m);
    vstd::arithmetic::div_mod::lemma_mod_twice(a, m);
    vstd::arithmetic::div_mod::lemma_add_mod_noop(wd, b % m, m);
    vstd::arithmetic::div_mod::lemma_add_mod_noop(wd, b, m);
    assert((wd + b % m) % m == (wd + b) % m);
    vstd::arithmetic::div_mod::lemma_add_mod_noop(a % m, d, m);
    vstd::arithmetic::div_mod::lemma_add_mod_noop(a, d, m);
    assert((a % m + d) % m == (a + d) % m);
    assert(wd + b == a + d);
}

proof fn lemma_checksum_set_first_word(d: Seq<u8>, w: u32)
    requires
        4 <= d.len(),
    ensures
        checksum(splice(d, 0, u32_be(w as nat))) == (checksum(d) + w + 4294967296 - word(d)) % 4294967296,
{
    let m: int = 4294967296;
    let e = splice(d, 0, u32_be(w as nat));
    lemma_word_of_u32_be(w);
    assert(e.len() == d.len());
    assert(word(e) == w) by {
        assert(e.take(4) =~= u32_be(w as nat));
    }
    assert(word(d) < 4294967296);
    if d.len() <= 4 {
        vstd::arithmetic::div_mod::lemma_small_mod(word(d), 4294967296);
        vstd::arithmetic::div_mod::lemma_small_mod(w as nat, 4294967296);
        vstd::arithmetic::div_mod::lemma_mod_add_multiples_vanish(w as int, m);
        assert(word(d) + w + m - word(d) == w + m);
    } else {
        assert(e.skip(4) =~= d.skip(4));
        lemma_mod_shift(0, checksum(d.skip(4)), w as nat, word(d));
    }
}

/// Overwriting one aligned word of `d` with `w` changes the checksum by
/// exactly the difference between the new and the old word.
pub proof fn lemma_checksum_set_word(d: Seq<u8>, p: nat, w: u32)
    requires
        p % 4 == 0,
        p + 4 <= d.len(),
    ensures
        checksum(splice(d, p as int, u32_be(w as nat))) == (checksum(d) + w + 4294967296 - word(d.skip(p as int)))
            % 4294967296,
    decreases p,
{
    if p == 0 {
        assert(d.skip(0) =~= d);
        lemma_checksum_set_first_word(d, w);
    } else {
        let e = splice(d, p as int, u32_be(w as nat));
        lemma_word_of_u32_be(w);
        let ds = d.skip(4);
        assert(e.len() == d.len());
        assert(e.take(4) =~= d.take(4));
        assert(word(e) == word(d));
        assert(e.skip(4) =~= splice(ds, p - 4, u32_be(w as nat)));
        lemma_checksum_set_word(ds, (p - 4) as nat, w);
        assert(ds.skip(p - 4) =~= d.skip(p as int));
        let x = word(d.skip(p as int));
        assert(x < 4294967296);
        lemma_mod_step(word(d) as int, checksum(ds) as int, w as int, x as int);
    }
}

/// Whole-file checksum law: an assembled sfnt binary always sums, as
/// big-endian 32-bit words, to `0xB1B0AFBA` — which is what a correct
/// `head.checkSumAdjustment` means.
pub proof fn lemma_sfnt_file_checksum(t: Seq<(Seq<u8>, Seq<u8>)>)
    requires
        tags_ok(t),
        find_tag(t, head_tag(), 0) >= 0,
        tdata(t, find_tag(t, head_tag(), 0)).len() >= 12,
    ensures
        checksum(sfnt_file(t)) == sfnt_magic(),
{
    let m: int = 4294967296;
    lemma_find_tag(t, head_tag(), 0);
    let h = find_tag(t, head_tag(), 0) as nat;
    lemma_table_in_layout(t, h);
    let l = sfnt_layout(t);
    let pos = adjustment_pos(t);
    let z = sfnt_zeroed(t);
    lemma_checksum_set_word(l, pos, 0);
    let c: int = checksum(z) as int;
    let adj = ((sfnt_magic() + m - c) % m) as nat;
    assert(adj < 4294967296);
    lemma_checksum_set_word(z, pos, adj as u32);
    assert(z.skip(pos as int).take(4) =~= u32_be(0));
    assert(word(z.skip(pos as int)) == 0);
    assert(checksum(sfnt_file(t)) == (c + adj + m) % m);
    assert(c < m);
    vstd::arithmetic::div_mod::lemma_mod_add_multiples_vanish(c + adj, m);
    vstd::arithmetic::div_mod::lemma_add_mod_noop(c, sfnt_magic() + m - c, m);
    vstd::arithmetic::div_mod::lemma_small_mod(c as nat, 4294967296);
    vstd::arithmetic::div_mod::lemma_mod_twice(sfnt_magic() + m - c, m);
    assert((c + (sfnt_magic() + m - c)) == sfnt_magic() + m);
    vstd::arithmetic::div_mod::lemma_mod_add_multiples_vanish(sfnt_magic() as int, m);
    vstd::arithmetic::div_mod::lemma_small_mod(sfnt_magic(), 4294967296);
}

} // verus!
