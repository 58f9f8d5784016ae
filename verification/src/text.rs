//! Character and decimal-digit building blocks shared by every module that
//! formats numbers or assembles strings.

use vstd::prelude::*;

verus! {

/// The ASCII digit character for `d` (0..=9).
pub open spec fn digit_char(d: nat) -> char {
    ((d + 48) as u32) as char
}

/// The ASCII digit byte for `d` (0..=9).
pub open spec fn digit_byte(d: nat) -> u8 {
    (d + 48) as u8
}

/// Decimal representation of `n` without leading zeros ("0" for zero).
pub open spec fn dec_chars(n: nat) -> Seq<char>
    decreases n,
{
    if n < 10 {
        seq![digit_char(n)]
    } else {
        dec_chars(n / 10).push(digit_char(n % 10))
    }
}

/// `s` left-padded with `'0'` to at least `width` characters.
pub open spec fn zero_pad(s: Seq<char>, width: nat) -> Seq<char> {
    if s.len() >= width {
        s
    } else {
        Seq::new((width - s.len()) as nat, |i: int| '0') + s
    }
}

/// Decimal representation of `n`, zero-padded to `width` digits.
pub open spec fn dec_padded(n: nat, width: nat) -> Seq<char> {
    zero_pad(dec_chars(n), width)
}

/// Characters viewed as the byte string of their (ASCII) code points.
pub open spec fn ascii_bytes(s: Seq<char>) -> Seq<u8> {
    s.map_values(|c: char| c as u8)
}

pub open spec fn is_ascii_seq(s: Seq<char>) -> bool {
    forall|i: int| 0 <= i < s.len() ==> (#[trigger] s[i] as u32) < 128
}

pub proof fn lemma_dec_chars_len(n: nat)
    ensures
        dec_chars(n).len() >= 1,
        n < 10 ==> dec_chars(n).len() == 1,
        n >= 10 ==> dec_chars(n).len() == dec_chars(n / 10).len() + 1,
    decreases n,
{
    if n >= 10 {
        lemma_dec_chars_len(n / 10);
    }
}

pub proof fn lemma_dec_chars_ascii(n: nat)
    ensures
        is_ascii_seq(dec_chars(n)),
        forall|i: int| 0 <= i < dec_chars(n).len() ==> '0' <= #[trigger] dec_chars(n)[i] <= '9',
    decreases n,
{
    if n >= 10 {
        lemma_dec_chars_ascii(n / 10);
    }
}

/// Appends the decimal digits of `n` to `out`.
pub fn push_dec(out: &mut Vec<char>, n: u64)
    ensures
        final(out)@ == old(out)@ + dec_chars(n as nat),
    decreases n,
{
    if n >= 10 {
        push_dec(out, n / 10);
    }
    let d = (n % 10) as u32;
    let c = digit(d);
    out.push(c);
}

/// The ASCII digit for `d`.
pub fn digit(d: u32) -> (c: char)
    requires
        d < 10,
    ensures
        c == digit_char(d as nat),
{
    if d == 0 { '0' }
    else if d == 1 { '1' }
    else if d == 2 { '2' }
    else if d == 3 { '3' }
    else if d == 4 { '4' }
    else if d == 5 { '5' }
    else if d == 6 { '6' }
    else if d == 7 { '7' }
    else if d == 8 { '8' }
    else { '9' }
}

/// Appends the decimal digits of `n`, zero-padded to `width`.
pub fn push_dec_padded(out: &mut Vec<char>, n: u64, width: usize)
    ensures
        final(out)@ == old(out)@ + dec_padded(n as nat, width as nat),
{
    let mut digits: Vec<char> = Vec::new();
    push_dec(&mut digits, n);
    assert(digits@ == dec_chars(n as nat));
    let mut pad: usize = 0;
    let len = digits.len();
    let ghost start = out@;
    if len < width {
        let count = width - len;
        while pad < count
            invariant
                pad <= count,
                out@ == start + Seq::new(pad as nat, |i: int| '0'),
            decreases count - pad,
        {
            out.push('0');
            pad = pad + 1;
            assert(out@ =~= start + Seq::new(pad as nat, |i: int| '0'));
        }
    }
    let ghost mid = out@;
    let mut i: usize = 0;
    while i < len
        invariant
            i <= len,
            len == digits@.len(),
            out@ == mid + digits@.take(i as int),
        decreases len - i,
    {
        out.push(digits[i]);
        i = i + 1;
        assert(out@ =~= mid + digits@.take(i as int));
    }
    assert(digits@.take(len as int) =~= digits@);
    assert(out@ =~= old(out)@ + dec_padded(n as nat, width as nat));
}

/// Appends every character of `s`.
pub fn push_all(out: &mut Vec<char>, s: &Vec<char>)
    ensures
        final(out)@ == old(out)@ + s@,
{
    let ghost start = out@;
    let mut i: usize = 0;
    while i < s.len()
        invariant
            i <= s.len(),
            out@ == start + s@.take(i as int),
        decreases s.len() - i,
    {
        out.push(s[i]);
        i = i + 1;
        assert(out@ =~= start + s@.take(i as int));
    }
    assert(s@.take(s.len() as int) =~= s@);
}

/// `String::from_iter` over a vector of characters.
#[verifier::external_body]
pub fn string_from_chars(chars: Vec<char>) -> (s: String)
    ensures
        s@ == chars@,
{
    String::from_iter(chars)
}

/// `str::chars` collected into a vector.
#[verifier::external_body]
pub fn chars_of(s: &str) -> (v: Vec<char>)
    ensures
        v@ == s@,
{
    s.chars().collect()
}

} // verus!
