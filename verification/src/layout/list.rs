//! List markers.

use vstd::prelude::*;
use crate::style::Marker;
use crate::text::{dec_chars, push_dec, string_from_chars};

verus! {

/// A marker's text: a bullet, or the number and a period.
pub open spec fn marker_chars(marker: Marker) -> Seq<char> {
    match marker {
        Marker::Bullet => seq!['\u{2022}'],
        Marker::Number(n) => dec_chars(n as nat) + seq!['.'],
    }
}

/// The text shown in a list item's marker column.
pub fn marker_text(marker: &Marker) -> (s: String)
    ensures
        s@ == marker_chars(*marker),
{
    let mut v: Vec<char> = Vec::new();
    match marker {
        Marker::Bullet => {
            v.push('\u{2022}');
        },
        Marker::Number(n) => {
            push_dec(&mut v, *n as u64);
            v.push('.');
        },
    }
    assert(v@ =~= marker_chars(*marker));
    string_from_chars(v)
}

} // verus!
