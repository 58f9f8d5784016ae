//! Number formatting for PDF syntax: decimal and hexadecimal digits as
//! bytes or characters, and compact fixed-point numbers.

use vstd::prelude::*;
use vstd::string::StringSliceAdditionalSpecFns;
use crate::bytes::push_bytes;
use crate::text::{dec_chars, digit, digit_char, lemma_dec_chars_len, push_dec, string_from_chars};

verus! {

/// The ASCII digit byte for `d` (0..=9).
pub open spec fn digit_byte(d: nat) -> u8 {
    (d + 48) as u8
}

/// Decimal representation of `n` as ASCII bytes, without leading zeros.
pub open spec fn dec_bytes(n: nat) -> Seq<u8>
    decreases n,
{
    if n < 10 {
        seq![digit_byte(n)]
    } else {
        dec_bytes(n / 10).push(digit_byte(n % 10))
    }
}

/// `dec_bytes(n)` left-padded with `'0'` bytes to at least `width`.
pub open spec fn dec_bytes_padded(n: nat, width: nat) -> Seq<u8> {
    let d = dec_bytes(n);
    if d.len() >= width {
        d
    } else {
        Seq::new((width - d.len()) as nat, |i: int| 48u8) + d
    }
}

/// The hex digit for `d` (0..=15): `0-9`, then `A-F` or `a-f`.
pub open spec fn hex_digit_byte(d: nat, upper: bool) -> u8 {
    if d < 10 {
        (d + 48) as u8
    } else if upper {
        (d + 55) as u8
    } else {
        (d + 87) as u8
    }
}

/// The low `k` hex digits of `n`, most significant first.
pub open spec fn hex_bytes(n: nat, k: nat, upper: bool) -> Seq<u8>
    decreases k,
{
    if k == 0 {
        Seq::empty()
    } else {
        hex_bytes(n / 16, (k - 1) as nat, upper).push(hex_digit_byte(n % 16, upper))
    }
}

/// Appends the bytes of `s` (its UTF-8 encoding).
pub fn push_str(out: &mut Vec<u8>, s: &str)
    ensures
        final(out)@ == old(out)@ + s.spec_bytes(),
{
    push_bytes(out, s.as_bytes());
}

/// Appends the decimal digits of `n`.
pub fn push_dec_bytes(out: &mut Vec<u8>, n: u64)
    ensures
        final(out)@ == old(out)@ + dec_bytes(n as nat),
    decreases n,
{
    if n >= 10 {
        push_dec_bytes(out, n / 10);
    }
    out.push(((n % 10) as u8) + 48);
}

proof fn lemma_dec_bytes_len(n: nat)
    ensures
        dec_bytes(n).len() >= 1,
    decreases n,
{
    if n >= 10 {
        lemma_dec_bytes_len(n / 10);
    }
}

/// Appends the decimal digits of `n`, zero-padded to `width`.
pub fn push_dec_bytes_padded(out: &mut Vec<u8>, n: u64, width: usize)
    ensures
        final(out)@ == old(out)@ + dec_bytes_padded(n as nat, width as nat),
{
    let mut digits: Vec<u8> = Vec::new();
    push_dec_bytes(&mut digits, n);
    assert(digits@ =~= dec_bytes(n as nat));
    let len = digits.len();
    let ghost start = out@;
    if len < width {
        let count = width - len;
        let mut pad: usize = 0;
        while pad < count
            invariant
                pad <= count,
                out@ == start + Seq::new(pad as nat, |i: int| 48u8),
            decreases count - pad,
        {
            out.push(48u8);
            pad = pad + 1;
            assert(out@ =~= start + Seq::new(pad as nat, |i: int| 48u8));
        }
    }
    let ghost mid = out@;
    push_bytes(out, digits.as_slice());
    assert(out@ =~= start + dec_bytes_padded(n as nat, width as nat));
}

/// The hex digit for `d`.
fn hex_digit(d: u8, upper: bool) -> (b: u8)
    requires
        d < 16,
    ensures
        b == hex_digit_byte(d as nat, upper),
{
    if d < 10 {
        d + 48
    } else if upper {
        d + 55
    } else {
        d + 87
    }
}

/// Appends the low `k` hex digits of `n`, most significant first.
pub fn push_hex(out: &mut Vec<u8>, n: u64, k: u32, upper: bool)
    ensures
        final(out)@ == old(out)@ + hex_bytes(n as nat, k as nat, upper),
    decreases k,
{
    if k > 0 {
        push_hex(out, n / 16, k - 1, upper);
        let d = (n % 16) as u8;
        let b = hex_digit(d, upper);
        out.push(b);
    }
}

/// The compact text of the fixed-point number `m / 1000`: at most three
/// decimals, trailing zeros and a bare decimal point dropped, `-` for
/// negatives, `0` for zero.
pub open spec fn milli_chars(m: int) -> Seq<char> {
    let a: nat = if m < 0 { (-m) as nat } else { m as nat };
    let f = a % 1000;
    let sign = if m < 0 { seq!['-'] } else { Seq::empty() };
    let frac = if f == 0 {
        Seq::empty()
    } else if f % 100 == 0 {
        seq!['.', digit_char(f / 100)]
    } else if f % 10 == 0 {
        seq!['.', digit_char(f / 100), digit_char((f / 10) % 10)]
    } else {
        seq!['.', digit_char(f / 100), digit_char((f / 10) % 10), digit_char(f % 10)]
    };
    sign + dec_chars(a / 1000) + frac
}

/// Formats the fixed-point number `m / 1000` compactly for content
/// streams: `12000` is `12`, `12500` is `12.5`, `-3141` is `-3.141`.
pub fn fmt_milli(m: i64) -> (s: String)
    ensures
        s@ == milli_chars(m as int),
{
    let mut out: Vec<char> = Vec::new();
    let a: u64 = if m < 0 {
        (-(m as i128)) as u64
    } else {
        m as u64
    };
    if m < 0 {
        out.push('-');
    }
    push_dec(&mut out, a / 1000);
    let f = (a % 1000) as u32;
    if f != 0 {
        out.push('.');
        out.push(digit(f / 100));
        if f % 100 != 0 {
            out.push(digit((f / 10) % 10));
            if f % 10 != 0 {
                out.push(digit(f % 10));
            }
        }
    }
    assert(out@ =~= milli_chars(m as int));
    string_from_chars(out)
}

/// `milli_chars` as ASCII bytes.
pub open spec fn milli_bytes(m: int) -> Seq<u8> {
    let a: nat = if m < 0 { (-m) as nat } else { m as nat };
    let f = a % 1000;
    let sign = if m < 0 { seq![45u8] } else { Seq::empty() };
    let frac = if f == 0 {
        Seq::empty()
    } else if f % 100 == 0 {
        seq![46u8, digit_byte(f / 100)]
    } else if f % 10 == 0 {
        seq![46u8, digit_byte(f / 100), digit_byte((f / 10) % 10)]
    } else {
        seq![46u8, digit_byte(f / 100), digit_byte((f / 10) % 10), digit_byte(f % 10)]
    };
    sign + dec_bytes(a / 1000) + frac
}

/// Appends the compact text of the fixed-point number `m / 1000`.
pub fn push_milli(out: &mut Vec<u8>, m: i64)
    ensures
        final(out)@ == old(out)@ + milli_bytes(m as int),
{
    let ghost start = out@;
    let a: u64 = if m < 0 {
        (-(m as i128)) as u64
    } else {
        m as u64
    };
    if m < 0 {
        out.push(45u8);
    }
    push_dec_bytes(out, a / 1000);
    let f = (a % 1000) as u32;
    if f != 0 {
        out.push(46u8);
        out.push((f / 100) as u8 + 48);
        if f % 100 != 0 {
            out.push(((f / 10) % 10) as u8 + 48);
            if f % 10 != 0 {
                out.push((f % 10) as u8 + 48);
            }
        }
    }
    assert(out@ =~= start + milli_bytes(m as int));
}

} // verus!
