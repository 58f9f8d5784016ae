//! Automatic hyphenation: a soft hyphen goes in at each break point the
//! `hyphenation` crate's embedded dictionary finds in a word, before the
//! text is wrapped.

use hyphenation::{Hyphenator, Load};
use vstd::prelude::*;
use crate::layout::text::{soft_hyphen, without_soft_hyphens};
use crate::style::HyphenationLanguage;
use crate::text::{chars_of, push_all, string_from_chars};

verus! {

/// Whether `c` has the Unicode `White_Space` property, which is what
/// `char::is_whitespace` tests: tab to carriage return, space, next line,
/// no-break space, ogham space mark, the spaces U+2000 to U+200A, line and
/// paragraph separator, narrow no-break space, medium mathematical space
/// and ideographic space.
pub open spec fn unicode_whitespace(c: char) -> bool {
    let u = c as u32;
    ||| 0x9 <= u <= 0xD
    ||| u == 0x20
    ||| u == 0x85
    ||| u == 0xA0
    ||| u == 0x1680
    ||| 0x2000 <= u <= 0x200A
    ||| u == 0x2028
    ||| u == 0x2029
    ||| u == 0x202F
    ||| u == 0x205F
    ||| u == 0x3000
}

/// The segments the embedded dictionary (German 1996 when `german`, else
/// US English) splits `word` into.
pub uninterp spec fn dictionary_segments(german: bool, word: Seq<char>) -> Seq<Seq<char>>;

/// The segments back to back.
pub open spec fn concat_all(segs: Seq<Seq<char>>) -> Seq<char>
    decreases segs.len(),
{
    if segs.len() == 0 {
        Seq::empty()
    } else {
        concat_all(segs.drop_last()) + segs.last()
    }
}

/// The segments joined with soft hyphens.
pub open spec fn join_soft(segs: Seq<Seq<char>>) -> Seq<char>
    decreases segs.len(),
{
    if segs.len() == 0 {
        Seq::empty()
    } else if segs.len() == 1 {
        segs[0]
    } else {
        join_soft(segs.drop_last()) + seq![soft_hyphen()] + segs.last()
    }
}

/// The character sequences of `v`.
pub open spec fn string_views(v: Seq<String>) -> Seq<Seq<char>> {
    v.map_values(|s: String| s@)
}

/// Whether `c` is white space (see `unicode_whitespace`).
pub(crate) fn is_whitespace(c: char) -> (b: bool)
    ensures
        b == unicode_whitespace(c),
{
    let u = c as u32;
    (0x9 <= u && u <= 0xD) || u == 0x20 || u == 0x85 || u == 0xA0 || u == 0x1680 || (0x2000 <= u && u <= 0x200A) || u
        == 0x2028 || u == 0x2029 || u == 0x202F || u == 0x205F || u == 0x3000
}

/// `hyphenation::Standard::from_embedded` for the language, then
/// `hyphenate(word).into_iter().segments()`. The segments are consecutive
/// slices of `word` between the dictionary's break points, so they
/// concatenate back to it. The dictionaries are compiled in; one that does
/// not load is a broken build and panics, as `expect` does.
#[verifier::external_body]
fn word_segments(german: bool, word: &str) -> (r: Vec<String>)
    ensures
        string_views(r@) == dictionary_segments(german, word@),
        concat_all(string_views(r@)) == word@,
{
    let lang = if german {
        hyphenation::Language::German1996
    } else {
        hyphenation::Language::EnglishUS
    };
    let dict = hyphenation::Standard::from_embedded(lang).expect("embedded hyphenation dictionary must load");
    dict.hyphenate(word).into_iter().segments().map(|s| s.to_string()).collect()
}

/// One word after hyphenation: unchanged when it already holds a soft
/// hyphen (the author's choice wins), else its dictionary segments joined
/// with soft hyphens. (The segments always put the word back together;
/// were they not to, the word would stay as it is.)
pub open spec fn hyphenated_word(german: bool, w: Seq<char>) -> Seq<char> {
    if w.contains(soft_hyphen()) || concat_all(dictionary_segments(german, w)) != w {
        w
    } else {
        join_soft(dictionary_segments(german, w))
    }
}

/// The word in progress, hyphenated, if there is one.
pub open spec fn flush(german: bool, word: Seq<char>) -> Seq<char> {
    if word.len() > 0 {
        hyphenated_word(german, word)
    } else {
        Seq::empty()
    }
}

/// The rest of the text from index `i`, with `word` the word in progress:
/// whitespace is copied, every maximal run of other characters is
/// hyphenated.
pub open spec fn hyphenate_from(german: bool, t: Seq<char>, i: nat, word: Seq<char>) -> Seq<char>
    decreases t.len() - i,
{
    if i >= t.len() {
        flush(german, word)
    } else if unicode_whitespace(t[i as int]) {
        flush(german, word) + seq![t[i as int]] + hyphenate_from(german, t, i + 1, Seq::empty())
    } else {
        hyphenate_from(german, t, i + 1, word.push(t[i as int]))
    }
}

/// Whether `lang` is German.
pub open spec fn is_german(lang: HyphenationLanguage) -> bool {
    lang == HyphenationLanguage::German
}

/// The whole text after automatic hyphenation.
pub open spec fn auto_hyphenated(t: Seq<char>, lang: HyphenationLanguage) -> Seq<char> {
    hyphenate_from(is_german(lang), t, 0, Seq::empty())
}

/// Hyphenates one word.
fn hyphenate_word(german: bool, word: &Vec<char>) -> (r: Vec<char>)
    ensures
        r@ == hyphenated_word(german, word@),
        without_soft_hyphens(r@) == without_soft_hyphens(word@),
{
    let mut k: usize = 0;
    while k < word.len()
        invariant
            k <= word@.len(),
            forall|j: int| 0 <= j < k ==> word@[j] != soft_hyphen(),
        decreases word@.len() - k,
    {
        if word[k] == '\u{AD}' {
            assert(word@.contains(soft_hyphen()));
            return word.clone();
        }
        k = k + 1;
    }
    let s = string_from_chars(word.clone());
    let segs = word_segments(german, s.as_str());
    let ghost names = dictionary_segments(german, word@);
    let mut out: Vec<char> = Vec::new();
    let mut i: usize = 0;
    while i < segs.len()
        invariant
            i <= segs@.len() == names.len(),
            string_views(segs@) == names,
            concat_all(names) == word@,
            out@ == join_soft(names.take(i as int)),
        decreases segs@.len() - i,
    {
        assert(names.take(i + 1).drop_last() =~= names.take(i as int));
        if i > 0 {
            out.push('\u{AD}');
        }
        assert(segs@[i as int]@ == names[i as int]);
        let piece = chars_of(segs[i].as_str());
        push_all(&mut out, &piece);
        i = i + 1;
        proof {
            if i == 1 {
                assert(out@ =~= join_soft(names.take(i as int)));
            } else {
                assert(out@ =~= join_soft(names.take(i as int)));
            }
        }
    }
    assert(names.take(names.len() as int) =~= names);
    assert(!word@.contains(soft_hyphen()));
    proof {
        lemma_without_join(names);
    }
    out
}

/// Inserts soft hyphens at the dictionary's break points in every
/// whitespace-separated word of `text`; whitespace is copied unchanged.
pub fn auto_hyphenate(text: &str, lang: HyphenationLanguage) -> (r: String)
    ensures
        r@ == auto_hyphenated(text@, lang),
        without_soft_hyphens(r@) == without_soft_hyphens(text@),
{
    let german = match lang {
        HyphenationLanguage::German => true,
        HyphenationLanguage::EnglishUs => false,
    };
    let t = chars_of(text);
    let mut out: Vec<char> = Vec::new();
    let mut word: Vec<char> = Vec::new();
    let mut i: usize = 0;
    while i < t.len()
        invariant
            i <= t@.len(),
            german == is_german(lang),
            t@ == text@,
            out@ + hyphenate_from(german, t@, i as nat, word@) == auto_hyphenated(text@, lang),
            without_soft_hyphens(out@ + word@) == without_soft_hyphens(t@.take(i as int)),
        decreases t@.len() - i,
    {
        let ch = t[i];
        let ghost before = out@;
        let ghost w = word@;
        proof {
            lemma_without_concat(t@.take(i as int), seq![ch]);
            assert(t@.take(i + 1) =~= t@.take(i as int) + seq![ch]);
        }
        if is_whitespace(ch) {
            if word.len() > 0 {
                let h = hyphenate_word(german, &word);
                push_all(&mut out, &h);
                proof {
                    lemma_without_concat(before, h@);
                    lemma_without_concat(before, w);
                }
            } else {
                assert(before + w =~= before);
            }
            let ghost mid = out@;
            out.push(ch);
            word = Vec::new();
            proof {
                assert(out@ + hyphenate_from(german, t@, (i + 1) as nat, word@) =~= auto_hyphenated(text@, lang));
                assert(out@ + word@ =~= mid + seq![ch]);
                lemma_without_concat(mid, seq![ch]);
                lemma_without_concat(before + w, seq![ch]);
            }
        } else {
            word.push(ch);
            assert(out@ + word@ =~= (before + w) + seq![ch]);
            proof {
                lemma_without_concat(before + w, seq![ch]);
            }
        }
        i = i + 1;
    }
    let ghost before = out@;
    let ghost w = word@;
    if word.len() > 0 {
        let h = hyphenate_word(german, &word);
        push_all(&mut out, &h);
        proof {
            lemma_without_concat(before, h@);
            lemma_without_concat(before, w);
        }
    } else {
        assert(before + w =~= before);
    }
    assert(t@.take(t@.len() as int) =~= t@);
    assert(out@ =~= auto_hyphenated(text@, lang));
    string_from_chars(out)
}

// ---------------------------------------------------------------------
// Law: hyphenation only ever adds soft hyphens.
// ---------------------------------------------------------------------

proof fn lemma_without_concat(a: Seq<char>, b: Seq<char>)
    ensures
        without_soft_hyphens(a + b) == without_soft_hyphens(a) + without_soft_hyphens(b),
    decreases b.len(),
{
    if b.len() == 0 {
        assert(a + b =~= a);
        assert(without_soft_hyphens(b) =~= Seq::<char>::empty());
        assert(without_soft_hyphens(a) + without_soft_hyphens(b) =~= without_soft_hyphens(a));
    } else {
        lemma_without_concat(a, b.drop_last());
        assert((a + b).drop_last() =~= a + b.drop_last());
        assert((a + b).last() == b.last());
        if b.last() == soft_hyphen() {
        } else {
            assert(without_soft_hyphens(a) + without_soft_hyphens(b.drop_last()).push(b.last()) =~= (without_soft_hyphens(a)
                + without_soft_hyphens(b.drop_last())).push(b.last()));
        }
    }
}

proof fn lemma_without_join(segs: Seq<Seq<char>>)
    ensures
        without_soft_hyphens(join_soft(segs)) == without_soft_hyphens(concat_all(segs)),
    decreases segs.len(),
{
    if segs.len() == 1 {
        assert(concat_all(segs.drop_last()) =~= Seq::<char>::empty());
        assert(concat_all(segs) =~= segs[0]);
    } else if segs.len() > 1 {
        let d = segs.drop_last();
        lemma_without_join(d);
        let sh = seq![soft_hyphen()];
        lemma_without_concat(join_soft(d) + sh, segs.last());
        lemma_without_concat(join_soft(d), sh);
        assert(without_soft_hyphens(sh) =~= Seq::<char>::empty()) by {
            assert(sh.drop_last() =~= Seq::<char>::empty());
            assert(sh.last() == soft_hyphen());
            assert(without_soft_hyphens(Seq::<char>::empty()) =~= Seq::<char>::empty());
        }
        lemma_without_concat(concat_all(d), segs.last());
        assert(without_soft_hyphens(join_soft(d)) + Seq::<char>::empty() =~= without_soft_hyphens(join_soft(d)));
    }
}

// ---------------------------------------------------------------------
// Law: hyphenating twice changes nothing.
// ---------------------------------------------------------------------

/// Whether `s` holds no white space.
pub open spec fn no_space(s: Seq<char>) -> bool {
    forall|i: int| 0 <= i < s.len() ==> !unicode_whitespace(#[trigger] s[i])
}

proof fn lemma_join_soft_chars(segs: Seq<Seq<char>>, j: int)
    requires
        0 <= j < join_soft(segs).len(),
    ensures
        join_soft(segs)[j] == soft_hyphen() || concat_all(segs).contains(join_soft(segs)[j]),
    decreases segs.len(),
{
    if segs.len() == 1 {
        assert(concat_all(segs.drop_last()) =~= Seq::<char>::empty());
        assert(concat_all(segs) =~= segs[0]);
        assert(concat_all(segs)[j] == join_soft(segs)[j]);
    } else if segs.len() > 1 {
        let d = segs.drop_last();
        let a = join_soft(d);
        let sh = seq![soft_hyphen()];
        assert(join_soft(segs) == a + sh + segs.last());
        if j < a.len() {
            lemma_join_soft_chars(d, j);
            let c = a[j];
            if c != soft_hyphen() {
                let k = choose|k: int| 0 <= k < concat_all(d).len() && concat_all(d)[k] == c;
                assert(concat_all(segs)[k] == c);
            }
        } else if j > a.len() {
            let k = j - a.len() - 1;
            assert(join_soft(segs)[j] == segs.last()[k]);
            assert(concat_all(segs)[concat_all(d).len() + k] == segs.last()[k]);
        }
    }
}

proof fn lemma_join_soft_has_hyphen(segs: Seq<Seq<char>>)
    requires
        segs.len() >= 2,
    ensures
        join_soft(segs).contains(soft_hyphen()),
{
    let a = join_soft(segs.drop_last());
    assert(join_soft(segs)[a.len() as int] == soft_hyphen());
}

proof fn lemma_concat_one(segs: Seq<Seq<char>>)
    requires
        segs.len() == 1,
    ensures
        concat_all(segs) == segs[0],
        join_soft(segs) == segs[0],
{
    assert(concat_all(segs.drop_last()) =~= Seq::<char>::empty());
    assert(concat_all(segs) =~= segs[0]);
}

/// A hyphenated word has no white space when the word had none, and is
/// not empty when the word is not.
proof fn lemma_hyphenated_word_shape(g: bool, w: Seq<char>)
    requires
        no_space(w),
    ensures
        no_space(hyphenated_word(g, w)),
        w.len() > 0 ==> hyphenated_word(g, w).len() > 0,
{
    let segs = dictionary_segments(g, w);
    if !(w.contains(soft_hyphen()) || concat_all(segs) != w) {
        let h = join_soft(segs);
        assert forall|j: int| 0 <= j < h.len() implies !unicode_whitespace(#[trigger] h[j]) by {
            lemma_join_soft_chars(segs, j);
        }
        if segs.len() == 0 {
            assert(concat_all(segs) =~= Seq::<char>::empty());
        } else if segs.len() == 1 {
            lemma_concat_one(segs);
        } else {
            lemma_join_soft_has_hyphen(segs);
        }
    }
}

/// Hyphenating a hyphenated word again leaves it.
proof fn lemma_hyphenated_word_twice(g: bool, w: Seq<char>)
    ensures
        hyphenated_word(g, hyphenated_word(g, w)) == hyphenated_word(g, w),
{
    let segs = dictionary_segments(g, w);
    if !(w.contains(soft_hyphen()) || concat_all(segs) != w) {
        if segs.len() >= 2 {
            lemma_join_soft_has_hyphen(segs);
        } else if segs.len() == 1 {
            lemma_concat_one(segs);
        } else {
            assert(concat_all(segs) =~= Seq::<char>::empty());
        }
    }
}

proof fn lemma_flush_shape(g: bool, w: Seq<char>)
    requires
        no_space(w),
    ensures
        no_space(flush(g, w)),
        flush(g, flush(g, w)) == flush(g, w),
{
    if w.len() > 0 {
        lemma_hyphenated_word_shape(g, w);
        lemma_hyphenated_word_twice(g, w);
    }
}

proof fn lemma_hyphenate_shift(g: bool, t: Seq<char>, i: nat, w: Seq<char>)
    requires
        i <= t.len(),
    ensures
        hyphenate_from(g, t, i, w) == hyphenate_from(g, t.skip(i as int), 0, w),
    decreases t.len() - i,
{
    let u = t.skip(i as int);
    if i < t.len() {
        assert(u[0] == t[i as int]);
        assert(u.skip(1) =~= t.skip(i + 1int));
        lemma_hyphenate_shift(g, t, i + 1, Seq::empty());
        lemma_hyphenate_shift(g, t, i + 1, w.push(t[i as int]));
        lemma_hyphenate_shift(g, u, 1, Seq::empty());
        lemma_hyphenate_shift(g, u, 1, w.push(t[i as int]));
    }
}

/// A run without white space joins the word in progress.
proof fn lemma_hyphenate_absorb(g: bool, x: Seq<char>, r: Seq<char>, w: Seq<char>)
    requires
        no_space(x),
    ensures
        hyphenate_from(g, x + r, 0, w) == hyphenate_from(g, r, 0, w + x),
    decreases x.len(),
{
    if x.len() == 0 {
        assert(x + r =~= r);
        assert(w + x =~= w);
    } else {
        let t = x + r;
        assert(t[0] == x[0]);
        lemma_hyphenate_shift(g, t, 1, w.push(x[0]));
        assert(t.skip(1) =~= x.skip(1) + r);
        lemma_hyphenate_absorb(g, x.skip(1), r, w.push(x[0]));
        assert(w.push(x[0]) + x.skip(1) =~= w + x);
    }
}

proof fn lemma_hyphenate_twice_from(g: bool, t: Seq<char>, w: Seq<char>)
    requires
        no_space(w),
    ensures
        hyphenate_from(g, hyphenate_from(g, t, 0, w), 0, Seq::empty()) == hyphenate_from(g, t, 0, w),
    decreases t.len(),
{
    let out = hyphenate_from(g, t, 0, w);
    lemma_flush_shape(g, w);
    let f = flush(g, w);
    if t.len() == 0 {
        lemma_hyphenate_absorb(g, f, Seq::empty(), Seq::empty());
        assert(f + Seq::<char>::empty() =~= f);
        assert(Seq::<char>::empty() + f =~= f);
    } else {
        let c = t[0];
        let rest = t.skip(1);
        if unicode_whitespace(c) {
            lemma_hyphenate_shift(g, t, 1, Seq::empty());
            lemma_hyphenate_twice_from(g, rest, Seq::empty());
            let tail = hyphenate_from(g, rest, 0, Seq::empty());
            assert(out == f + seq![c] + tail);
            assert(f + seq![c] + tail =~= f + (seq![c] + tail));
            lemma_hyphenate_absorb(g, f, seq![c] + tail, Seq::empty());
            assert(Seq::<char>::empty() + f =~= f);
            let u = seq![c] + tail;
            assert(u[0] == c);
            lemma_hyphenate_shift(g, u, 1, Seq::empty());
            assert(u.skip(1) =~= tail);
        } else {
            lemma_hyphenate_shift(g, t, 1, w.push(c));
            assert(no_space(w.push(c)));
            lemma_hyphenate_twice_from(g, rest, w.push(c));
        }
    }
}

/// Hyphenating an already hyphenated text changes nothing: every word now
/// either holds a soft hyphen, which is left alone, or is a single
/// dictionary segment, which hyphenates to itself.
pub proof fn lemma_hyphenating_twice_changes_nothing(text: Seq<char>, lang: HyphenationLanguage)
    ensures
        auto_hyphenated(auto_hyphenated(text, lang), lang) == auto_hyphenated(text, lang),
{
    lemma_hyphenate_twice_from(is_german(lang), text, Seq::empty());
}


/// A single word, with no soft hyphen of its own, comes back with a soft
/// hyphen at each break point of its language's dictionary: the German
/// 1996 dictionary for German text, the US English one for English text.
pub proof fn lemma_each_language_uses_its_own_dictionary(w: Seq<char>, lang: HyphenationLanguage)
    requires
        w.len() > 0,
        no_space(w),
        !w.contains(soft_hyphen()),
        lang == HyphenationLanguage::German ==> concat_all(dictionary_segments(true, w)) == w,
        lang == HyphenationLanguage::EnglishUs ==> concat_all(dictionary_segments(false, w)) == w,
    ensures
        lang == HyphenationLanguage::German ==> auto_hyphenated(w, lang) == join_soft(dictionary_segments(true, w)),
        lang == HyphenationLanguage::EnglishUs ==> auto_hyphenated(w, lang) == join_soft(dictionary_segments(false, w)),
{
    let g = is_german(lang);
    lemma_hyphenate_absorb(g, w, Seq::empty(), Seq::empty());
    assert(w + Seq::<char>::empty() =~= w);
    assert(Seq::<char>::empty() + w =~= w);
}


/// Words are hyphenated one by one: a white-space character is copied as
/// it is, and what comes before it and what comes after it are hyphenated
/// on their own.
pub proof fn lemma_words_are_hyphenated_independently(
    x: Seq<char>,
    c: char,
    rest: Seq<char>,
    lang: HyphenationLanguage,
)
    requires
        no_space(x),
        unicode_whitespace(c),
    ensures
        auto_hyphenated(x + seq![c] + rest, lang) == auto_hyphenated(x, lang) + seq![c] + auto_hyphenated(rest, lang),
{
    let g = is_german(lang);
    let t = seq![c] + rest;
    assert(x + seq![c] + rest =~= x + t);
    lemma_hyphenate_absorb(g, x, t, Seq::empty());
    assert(Seq::<char>::empty() + x =~= x);
    assert(t[0] == c);
    lemma_hyphenate_shift(g, t, 1, Seq::empty());
    assert(t.skip(1) =~= rest);
    lemma_hyphenate_absorb(g, x, Seq::empty(), Seq::empty());
    assert(x + Seq::<char>::empty() =~= x);
}

} // verus!
