//! German currency formatting for invoice amounts.

use vstd::prelude::*;
use crate::text::{dec_chars, dec_padded, lemma_dec_chars_len, push_all, push_dec, push_dec_padded, string_from_chars};

verus! {

/// Groups a digit string in threes from the right with `.` separators.
pub open spec fn group_thousands(d: Seq<char>) -> Seq<char>
    decreases d.len(),
{
    if d.len() <= 3 {
        d
    } else {
        group_thousands(d.take(d.len() - 3)) + seq!['.'] + d.skip(d.len() - 3)
    }
}

/// `cents` as German currency text: optional `-`, thousands grouped with
/// `.`, decimal comma, two cent digits, a space and the euro sign.
pub open spec fn currency_de(cents: int) -> Seq<char> {
    let abs = if cents < 0 { -cents } else { cents };
    let sign: Seq<char> = if cents < 0 { seq!['-'] } else { seq![] };
    sign + group_thousands(dec_chars((abs / 100) as nat)) + seq![','] + dec_padded((abs % 100) as nat, 2)
        + seq![' ', '\u{20ac}']
}

/// Formats a cent amount as German currency, e.g. `123456` becomes
/// `"1.234,56 €"`.
pub fn format_currency_de(cents: i64) -> (s: String)
    ensures
        s@ == currency_de(cents as int),
{
    let negative = cents < 0;
    let abs: u64 = if negative {
        if cents == i64::MIN { 9223372036854775808u64 } else { (-cents) as u64 }
    } else {
        cents as u64
    };
    let euros = abs / 100;
    let rest = abs % 100;
    let mut out: Vec<char> = Vec::new();
    if negative {
        out.push('-');
    }
    let grouped = group_thousands_de(euros);
    push_all(&mut out, &grouped);
    out.push(',');
    push_dec_padded(&mut out, rest, 2);
    out.push(' ');
    out.push('\u{20ac}');
    let ghost sign: Seq<char> = if cents < 0 { seq!['-'] } else { seq![] };
    assert(out@ =~= sign + group_thousands(dec_chars((abs / 100) as nat)) + seq![','] + dec_padded(
        (abs % 100) as nat,
        2,
    ) + seq![' ', '\u{20ac}']);
    string_from_chars(out)
}

/// The decimal digits of `n`, grouped in threes from the right with `.`.
pub fn group_thousands_de(n: u64) -> (out: Vec<char>)
    ensures
        out@ == group_thousands(dec_chars(n as nat)),
{
    let mut digits: Vec<char> = Vec::new();
    push_dec(&mut digits, n);
    let ghost d = digits@;
    let len = digits.len();
    proof {
        lemma_dec_chars_len(n as nat);
    }
    let first: usize = if len % 3 == 0 { 3 } else { len % 3 };
    let mut out: Vec<char> = Vec::new();
    let mut i: usize = 0;
    while i < first
        invariant
            i <= first <= len,
            len == d.len(),
            d == digits@,
            out@ == d.take(i as int),
        decreases first - i,
    {
        out.push(digits[i]);
        i = i + 1;
        assert(out@ =~= d.take(i as int));
    }
    assert(d.take(first as int).len() <= 3);
    let mut pos: usize = first;
    while pos < len
        invariant
            1 <= first <= pos <= len,
            len == d.len(),
            d == digits@,
            (len - pos) % 3 == 0,
            out@ == group_thousands(d.take(pos as int)),
        decreases len - pos,
    {
        let ghost before = out@;
        out.push('.');
        out.push(digits[pos]);
        out.push(digits[pos + 1]);
        out.push(digits[pos + 2]);
        let ghost t = d.take(pos + 3);
        assert(t.take(t.len() - 3) =~= d.take(pos as int));
        assert(t.skip(t.len() - 3) =~= seq![d[pos as int], d[pos + 1], d[pos + 2]]);
        assert(out@ =~= before + seq!['.'] + t.skip(t.len() - 3));
        pos = pos + 3;
    }
    assert(d.take(len as int) =~= d);
    out
}

} // verus!
