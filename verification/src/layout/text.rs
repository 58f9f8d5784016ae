//! Greedy word wrapping with soft hyphens and a character-level fallback
//! for words wider than the line. Widths are exact integers: advances in
//! thousandths of an em, sizes and widths in thousandths of a point.

use vstd::prelude::*;
use crate::text::{chars_of, push_all, string_from_chars};
use crate::style::{FontKey, TextStyle};
use crate::element::{Span, TextMeasurement};

verus! {

/// U+00AD SOFT HYPHEN, a break opportunity that shows only when used.
pub open spec fn soft_hyphen() -> char {
    '\u{AD}'
}

/// `s` without its soft hyphens.
pub open spec fn without_soft_hyphens(s: Seq<char>) -> Seq<char>
    decreases s.len(),
{
    if s.len() == 0 {
        Seq::empty()
    } else {
        let rest = without_soft_hyphens(s.drop_last());
        if s.last() == soft_hyphen() {
            rest
        } else {
            rest.push(s.last())
        }
    }
}

/// `word` with every soft hyphen removed; an unused soft hyphen must never
/// show in rendered or extracted text.
pub fn strip_soft_hyphens(word: &str) -> (s: String)
    ensures
        s@ == without_soft_hyphens(word@),
{
    let cs = chars_of(word);
    let mut out: Vec<char> = Vec::new();
    let mut i: usize = 0;
    while i < cs.len()
        invariant
            i <= cs@.len(),
            out@ == without_soft_hyphens(cs@.take(i as int)),
        decreases cs@.len() - i,
    {
        assert(cs@.take(i + 1).drop_last() =~= cs@.take(i as int));
        if cs[i] != '\u{AD}' {
            out.push(cs[i]);
        }
        i = i + 1;
    }
    assert(cs@.take(cs@.len() as int) =~= cs@);
    string_from_chars(out)
}

/// Per-font metrics, normalised to 1000 units per em. Implemented by the
/// caller, who maps a font to its metrics.
pub trait FontMetrics {
    /// The advance of `ch` in thousandths of an em: what `advance` gives.
    /// Outside verified code it is an ordinary method, which an
    /// implementation defines as `advance`.
    spec fn advance_of(&self, ch: char) -> u32;

    /// Advance width of one character, in thousandths of an em; some usable
    /// width even for a character the font cannot show.
    fn advance(&self, ch: char) -> (a: u32)
        ensures
            a == self.advance_of(ch),
    ;

    /// The ascent in thousandths of an em: what `ascent` gives. Outside
    /// verified code an ordinary method, defined as `ascent`.
    spec fn ascent_of(&self) -> i32;

    /// Ascent in thousandths of an em.
    fn ascent(&self) -> (a: i32)
        ensures
            a == self.ascent_of(),
    ;

    /// Descent in thousandths of an em (negative below the baseline).
    fn descent(&self) -> i32;

    /// Whether the font has a glyph of its own for `ch`: what `has_glyph`
    /// gives. Outside verified code an ordinary method, defined as
    /// `has_glyph`.
    spec fn has_glyph_of(&self, ch: char) -> bool;

    /// Whether the font has a glyph of its own for `ch`, as opposed to the
    /// fallback width `advance` gives for it; an implementation that does
    /// not track coverage answers `true`.
    fn has_glyph(&self, ch: char) -> (b: bool)
        ensures
            b == self.has_glyph_of(ch),
    ;
}

/// Gives the metrics of each font. Implemented by the caller.
pub trait FontResolver {
    type Metrics: FontMetrics;

    /// The metrics of `key`: what `metrics` gives. Outside verified code an
    /// ordinary method, defined as `metrics`.
    spec fn metrics_of(&self, key: FontKey) -> Self::Metrics;

    /// The metrics of the font `key`.
    fn metrics(&self, key: FontKey) -> (m: &Self::Metrics)
        ensures
            *m == self.metrics_of(key),
    ;
}

/// The sum of the advances of `s`, in thousandths of an em.
pub open spec fn advance_sum<M: FontMetrics>(m: &M, s: Seq<char>) -> nat
    decreases s.len(),
{
    if s.len() == 0 {
        0
    } else {
        advance_sum(m, s.drop_last()) + (m.advance_of(s.last()) as nat)
    }
}

/// The width of `s` at font size `size` (thousandths of a point), in
/// millionths of a point: the advance sum times the size.
pub open spec fn width_of<M: FontMetrics>(m: &M, size: u32, s: Seq<char>) -> nat {
    advance_sum(m, s) * (size as nat)
}

proof fn lemma_advance_sum_bound<M: FontMetrics>(m: &M, s: Seq<char>)
    ensures
        advance_sum(m, s) <= s.len() * 0xffff_ffff,
    decreases s.len(),
{
    if s.len() > 0 {
        lemma_advance_sum_bound(m, s.drop_last());
    }
}

proof fn lemma_advance_sum_concat<M: FontMetrics>(m: &M, a: Seq<char>, b: Seq<char>)
    ensures
        advance_sum(m, a + b) == advance_sum(m, a) + advance_sum(m, b),
    decreases b.len(),
{
    if b.len() > 0 {
        lemma_advance_sum_concat(m, a, b.drop_last());
        assert((a + b).drop_last() =~= a + b.drop_last());
    } else {
        assert(a + b =~= a);
    }
}

/// The width of `s` (see `width_of`); exact, as `s` is a vector.
pub fn measure<M: FontMetrics>(m: &M, size: u32, s: &Vec<char>) -> (w: u128)
    ensures
        w == width_of(m, size, s@),
{
    let mut sum: u128 = 0;
    let mut i: usize = 0;
    while i < s.len()
        invariant
            i <= s@.len(),
            sum == advance_sum(m, s@.take(i as int)),
            sum <= i * 0xffff_ffff,
        decreases s@.len() - i,
    {
        assert(s@.take(i + 1).drop_last() =~= s@.take(i as int));
        let a = m.advance(s[i]);
        sum = sum + a as u128;
        i = i + 1;
    }
    assert(s@.take(s@.len() as int) =~= s@);
    assert(sum * (size as int) <= 0xffff_ffff_ffff_ffff * 0xffff_ffff * 0xffff_ffff) by (nonlinear_arith)
        requires
            sum <= s@.len() * 0xffff_ffff,
            s@.len() <= 0xffff_ffff_ffff_ffff,
            size <= 0xffff_ffff,
    ;
    sum * (size as u128)
}

/// The views of vectors of characters.
pub open spec fn char_views(v: Seq<Vec<char>>) -> Seq<Seq<char>> {
    Seq::new(v.len(), |i: int| v[i]@)
}

/// The width of `text` in `font` at size `size` (thousandths of a point),
/// in millionths of a point: the sum of its advances times the size.
pub fn text_width_pt<R: FontResolver>(r: &R, font: FontKey, size: u32, text: &str) -> (w: u128)
    ensures
        w == width_of(&r.metrics_of(font), size, text@),
{
    let m = r.metrics(font);
    let cs = chars_of(text);
    measure(m, size, &cs)
}

/// Breaking a word character by character after its first `k`
/// characters: the finished pieces and the piece in progress. A piece is
/// closed when the next character would take it past `limit`.
pub open spec fn hard_break_state<M: FontMetrics>(m: &M, size: u32, word: Seq<char>, limit: nat, k: nat) -> (
    Seq<Seq<char>>,
    Seq<char>,
)
    decreases k,
{
    if k == 0 {
        (Seq::empty(), Seq::empty())
    } else {
        let prev = hard_break_state(m, size, word, limit, (k - 1) as nat);
        let ch = word[k - 1];
        if width_of(m, size, prev.1.push(ch)) > limit && prev.1.len() > 0 {
            (prev.0.push(prev.1), seq![ch])
        } else {
            (prev.0, prev.1.push(ch))
        }
    }
}

/// `word` in pieces that each fit `limit`, except a single character
/// that is wider by itself; at least one piece.
pub open spec fn hard_break_pieces<M: FontMetrics>(m: &M, size: u32, word: Seq<char>, limit: nat) -> Seq<
    Seq<char>,
> {
    let st = hard_break_state(m, size, word, limit, word.len());
    if st.1.len() > 0 || st.0.len() == 0 {
        st.0.push(st.1)
    } else {
        st.0
    }
}

/// Splits a word into pieces that each fit the line, breaking between
/// characters as a last resort: never truncated, never past the edge.
fn hard_break_word<M: FontMetrics>(m: &M, size: u32, word: &Vec<char>, limit: u128) -> (pieces: Vec<Vec<char>>)
    ensures
        char_views(pieces@) == hard_break_pieces(m, size, word@, limit as nat),
{
    let mut pieces: Vec<Vec<char>> = Vec::new();
    let mut current: Vec<char> = Vec::new();
    let mut i: usize = 0;
    while i < word.len()
        invariant
            i <= word@.len(),
            (char_views(pieces@), current@) == hard_break_state(m, size, word@, limit as nat, i as nat),
        decreases word@.len() - i,
    {
        let ch = word[i];
        let mut candidate = current.clone();
        candidate.push(ch);
        assert(candidate@ == current@.push(ch));
        let w = measure(m, size, &candidate);
        if w > limit && current.len() > 0 {
            let done = current;
            pieces.push(done);
            current = Vec::new();
            current.push(ch);
            assert(char_views(pieces@) =~= hard_break_state(m, size, word@, limit as nat, i as nat).0.push(done@));
            assert(current@ =~= seq![ch]);
        } else {
            current.push(ch);
        }
        i = i + 1;
    }
    if current.len() > 0 || pieces.len() == 0 {
        let ghost before = char_views(pieces@);
        pieces.push(current);
        assert(char_views(pieces@) =~= before.push(current@));
    }
    pieces
}

/// Breaking `word` at its last soft hyphen among the first `i`
/// characters such that the part before it, soft hyphens dropped and a
/// visible `-` added, fits `limit`: that part and the rest of the word
/// (which keeps its own soft hyphens).
pub open spec fn soft_break_below<M: FontMetrics>(m: &M, size: u32, word: Seq<char>, limit: nat, i: nat) -> Option<
    (Seq<char>, Seq<char>),
>
    decreases i,
{
    if i == 0 {
        None
    } else {
        let p = (i - 1) as nat;
        let head = without_soft_hyphens(word.take(p as int)).push('-');
        if word[p as int] == soft_hyphen() && width_of(m, size, head) <= limit {
            Some((head, word.skip(p + 1int)))
        } else {
            soft_break_below(m, size, word, limit, p)
        }
    }
}

/// The break of `word` at the soft hyphen that leaves the longest part
/// that fits `limit`, if any (see `soft_break_below`).
pub open spec fn soft_break<M: FontMetrics>(m: &M, size: u32, word: Seq<char>, limit: nat) -> Option<
    (Seq<char>, Seq<char>),
> {
    soft_break_below(m, size, word, limit, word.len())
}

/// The rest after a soft-hyphen break is shorter than the word.
pub proof fn lemma_soft_break_rest_shorter<M: FontMetrics>(m: &M, size: u32, word: Seq<char>, limit: nat, i: nat)
    requires
        i <= word.len(),
    ensures
        soft_break_below(m, size, word, limit, i) matches Some(r) ==> r.1.len() < word.len(),
    decreases i,
{
    if i > 0 {
        lemma_soft_break_rest_shorter(m, size, word, limit, (i - 1) as nat);
    }
}

/// `without_soft_hyphens` of the first `end` characters of `word`.
fn stripped_prefix(word: &Vec<char>, end: usize) -> (out: Vec<char>)
    requires
        end <= word@.len(),
    ensures
        out@ == without_soft_hyphens(word@.take(end as int)),
{
    let mut out: Vec<char> = Vec::new();
    let mut i: usize = 0;
    while i < end
        invariant
            i <= end <= word@.len(),
            out@ == without_soft_hyphens(word@.take(i as int)),
        decreases end - i,
    {
        assert(word@.take(i + 1).drop_last() =~= word@.take(i as int));
        if word[i] != '\u{AD}' {
            out.push(word[i]);
        }
        i = i + 1;
    }
    out
}

/// The characters of `word` from `start` on.
fn suffix(word: &Vec<char>, start: usize) -> (out: Vec<char>)
    requires
        start <= word@.len(),
    ensures
        out@ == word@.skip(start as int),
{
    let mut out: Vec<char> = Vec::new();
    let mut i: usize = start;
    while i < word.len()
        invariant
            start <= i <= word@.len(),
            out@ == word@.subrange(start as int, i as int),
        decreases word@.len() - i,
    {
        out.push(word[i]);
        i = i + 1;
    }
    assert(word@.subrange(start as int, word@.len() as int) =~= word@.skip(start as int));
    out
}

/// Finds the soft hyphen that lets the longest part of `word`, with a
/// visible `-`, fit `limit`; gives that part and the rest of the word.
fn break_at_soft_hyphen<M: FontMetrics>(m: &M, size: u32, word: &Vec<char>, limit: u128) -> (r: Option<
    (Vec<char>, Vec<char>),
>)
    ensures
        match soft_break(m, size, word@, limit as nat) {
            None => r is None,
            Some(b) => r matches Some(x) && x.0@ == b.0 && x.1@ == b.1,
        },
{
    let mut i: usize = word.len();
    while i > 0
        invariant
            i <= word@.len(),
            soft_break(m, size, word@, limit as nat) == soft_break_below(m, size, word@, limit as nat, i as nat),
        decreases i,
    {
        let p = i - 1;
        if word[p] == '\u{AD}' {
            let mut head = stripped_prefix(word, p);
            head.push('-');
            let w = measure(m, size, &head);
            if w <= limit {
                let rest = suffix(word, p + 1);
                return Some((head, rest));
            }
        }
        i = p;
    }
    None
}

/// Starting a line with `word`: the lines it completes, a rest of the
/// word to handle next, and the line in progress. The whole word (soft
/// hyphens dropped) if it fits; else the part before a soft hyphen on a
/// line of its own; else its character pieces, the last one in progress.
pub open spec fn start_line_parts<M: FontMetrics>(m: &M, size: u32, word: Seq<char>, limit: nat) -> (
    Seq<Seq<char>>,
    Option<Seq<char>>,
    Seq<char>,
) {
    let stripped = without_soft_hyphens(word);
    if width_of(m, size, stripped) <= limit {
        (Seq::empty(), None, stripped)
    } else {
        match soft_break(m, size, word, limit) {
            Some(b) => (seq![b.0], Some(b.1), Seq::empty()),
            None => {
                let pieces = hard_break_pieces(m, size, stripped, limit);
                (pieces.drop_last(), None, pieces.last())
            },
        }
    }
}

/// The number of characters and words in a stack of words.
pub open spec fn stack_size(stack: Seq<Seq<char>>) -> nat
    decreases stack.len(),
{
    if stack.len() == 0 {
        0
    } else {
        stack_size(stack.drop_last()) + stack.last().len() + 1
    }
}

/// What is left of a paragraph's wrapping: twice the words and
/// characters to place, plus one while a line is in progress.
pub open spec fn wrap_measure(stack: Seq<Seq<char>>, current: Seq<char>) -> nat {
    2 * stack_size(stack) + if current.len() > 0 {
        1nat
    } else {
        0nat
    }
}

/// The space left on a line holding `current` after one more space.
pub open spec fn room_after<M: FontMetrics>(m: &M, size: u32, current: Seq<char>, limit: nat) -> nat {
    let used = width_of(m, size, current) + width_of(m, size, seq![' ']);
    if used <= limit {
        (limit - used) as nat
    } else {
        0
    }
}

/// The lines a paragraph's greedy wrapping gives from this point: the
/// words still to place (the next one last) and the line in progress.
/// A word that fits after a space joins the line; otherwise a soft-hyphen
/// break may fill the line; otherwise the line is done and the word
/// starts the next one.
pub open spec fn wrap_lines<M: FontMetrics>(
    m: &M,
    size: u32,
    limit: nat,
    stack: Seq<Seq<char>>,
    current: Seq<char>,
) -> Seq<Seq<char>>
    decreases wrap_measure(stack, current),
{
    if stack.len() == 0 {
        seq![current]
    } else {
        let word = stack.last();
        let below = stack.drop_last();
        if current.len() == 0 {
            let st = start_line_parts(m, size, word, limit);
            proof {
                lemma_soft_break_rest_shorter(m, size, word, limit, word.len());
            }
            match st.1 {
                Some(rest) => {
                    proof {
                        assert(below.push(rest).drop_last() =~= below);
                    }
                    st.0 + wrap_lines(m, size, limit, below.push(rest), st.2)
                },
                None => st.0 + wrap_lines(m, size, limit, below, st.2),
            }
        } else {
            let joined = current + seq![' '] + without_soft_hyphens(word);
            if width_of(m, size, joined) <= limit {
                wrap_lines(m, size, limit, below, joined)
            } else {
                proof {
                    lemma_soft_break_rest_shorter(m, size, word, room_after(m, size, current, limit), word.len());
                }
                match soft_break(m, size, word, room_after(m, size, current, limit)) {
                    Some(b) => {
                        proof {
                            assert(below.push(b.1).drop_last() =~= below);
                        }
                        seq![current + seq![' '] + b.0] + wrap_lines(m, size, limit, below.push(b.1), Seq::empty())
                    },
                    None => seq![current] + wrap_lines(m, size, limit, stack, Seq::empty()),
                }
            }
        }
    }
}

/// Starts a line with `word`: the whole word if it fits (soft hyphens
/// dropped); else the part before a soft hyphen as a line of its own, the
/// rest of the word put back to handle next; else the word's character
/// pieces, all but the last completing lines. Gives the line in progress.
fn start_line<M: FontMetrics>(
    m: &M,
    size: u32,
    word: Vec<char>,
    limit: u128,
    lines: &mut Vec<Vec<char>>,
    stack: &mut Vec<Vec<char>>,
) -> (current: Vec<char>)
    ensures
        ({
            let st = start_line_parts(m, size, word@, limit as nat);
            &&& char_views(final(lines)@) == char_views(old(lines)@) + st.0
            &&& char_views(final(stack)@) == match st.1 {
                Some(rest) => char_views(old(stack)@).push(rest),
                None => char_views(old(stack)@),
            }
            &&& current@ == st.2
        }),
{
    let stripped = stripped_prefix(&word, word.len());
    assert(word@.take(word@.len() as int) =~= word@);
    if measure(m, size, &stripped) <= limit {
        assert(char_views(lines@) =~= char_views(lines@) + Seq::<Seq<char>>::empty());
        return stripped;
    }
    match break_at_soft_hyphen(m, size, &word, limit) {
        Some(parts) => {
            let (head, rest) = parts;
            let ghost lines0 = char_views(lines@);
            let ghost stack0 = char_views(stack@);
            lines.push(head);
            stack.push(rest);
            assert(char_views(lines@) =~= lines0 + seq![head@]);
            assert(char_views(stack@) =~= stack0.push(rest@));
            Vec::new()
        },
        None => {
            let mut pieces = hard_break_word(m, size, &stripped, limit);
            let ghost all = char_views(pieces@);
            let last = pieces.pop().unwrap();
            assert(char_views(pieces@) =~= all.drop_last());
            let ghost lines0 = char_views(lines@);
            lines.append(&mut pieces);
            assert(char_views(lines@) =~= lines0 + all.drop_last());
            last
        },
    }
}

/// Wraps one paragraph's words (the next one last) greedily, appending
/// its lines.
fn wrap_words<M: FontMetrics>(m: &M, size: u32, limit: u128, words: Vec<Vec<char>>, lines: &mut Vec<Vec<char>>)
    ensures
        char_views(final(lines)@) == char_views(old(lines)@) + wrap_lines(
            m,
            size,
            limit as nat,
            char_views(words@),
            Seq::empty(),
        ),
{
    let ghost total = char_views(old(lines)@) + wrap_lines(m, size, limit as nat, char_views(words@), Seq::empty());
    let mut stack = words;
    let mut current: Vec<char> = Vec::new();
    assert(current@ =~= Seq::<char>::empty());
    while stack.len() > 0
        invariant
            char_views(lines@) + wrap_lines(m, size, limit as nat, char_views(stack@), current@) == total,
        decreases wrap_measure(char_views(stack@), current@),
    {
        let ghost before = char_views(stack@);
        let ghost cur0 = current@;
        let word = stack.pop().unwrap();
        assert(char_views(stack@) =~= before.drop_last());
        assert(word@ == before.last());
        assert(stack_size(before) == stack_size(before.drop_last()) + word@.len() + 1);
        let ghost w = word@;
        if current.len() == 0 {
            let ghost lines0 = char_views(lines@);
            current = start_line(m, size, word, limit, lines, &mut stack);
            assert(lines0 + wrap_lines(m, size, limit as nat, before, cur0) == total);
            proof {
                lemma_soft_break_rest_shorter(m, size, w, limit as nat, w.len());
                if let Some(r) = start_line_parts(m, size, w, limit as nat).1 {
                    assert(before.drop_last().push(r).drop_last() =~= before.drop_last());
                }
            }
        } else {
            let stripped = stripped_prefix(&word, word.len());
            assert(word@.take(word@.len() as int) =~= word@);
            let mut joined = current.clone();
            joined.push(' ');
            push_all(&mut joined, &stripped);
            assert(joined@ =~= cur0 + seq![' '] + without_soft_hyphens(word@));
            if measure(m, size, &joined) <= limit {
                current = joined;
            } else {
                let mut space: Vec<char> = Vec::new();
                space.push(' ');
                assert(space@ =~= seq![' ']);
                let wc = measure(m, size, &current);
                let ws = measure(m, size, &space);
                let room: u128 = if wc <= limit && ws <= limit - wc {
                    limit - wc - ws
                } else {
                    0
                };
                assert(room as nat == room_after(m, size, cur0, limit as nat));
                let ghost lines0 = char_views(lines@);
                match break_at_soft_hyphen(m, size, &word, room) {
                    Some(parts) => {
                        let (head, rest) = parts;
                        let mut line = current;
                        line.push(' ');
                        push_all(&mut line, &head);
                        assert(line@ =~= cur0 + seq![' '] + head@);
                        lines.push(line);
                        assert(char_views(lines@) =~= lines0 + seq![cur0 + seq![' '] + head@]);
                        let ghost below = char_views(stack@);
                        stack.push(rest);
                        assert(char_views(stack@) =~= below.push(rest@));
                        proof {
                            lemma_soft_break_rest_shorter(m, size, w, room as nat, w.len());
                            assert(below.push(rest@).drop_last() =~= below);
                        }
                        current = Vec::new();
                    },
                    None => {
                        lines.push(current);
                        assert(char_views(lines@) =~= lines0 + seq![cur0]);
                        let ghost below = char_views(stack@);
                        stack.push(word);
                        assert(char_views(stack@) =~= below.push(word@));
                        assert(below.push(word@) =~= before);
                        current = Vec::new();
                    },
                }
                assert(current@ =~= Seq::<char>::empty());
            }
        }
    }
    assert(char_views(stack@) =~= Seq::<Seq<char>>::empty());
    let ghost lines0 = char_views(lines@);
    lines.push(current);
    assert(char_views(lines@) =~= lines0 + seq![current@]);
}

/// `s` cut at every `sep`, as `str::split` cuts: one part more than
/// there are separators.
pub open spec fn split_on(s: Seq<char>, sep: char) -> Seq<Seq<char>>
    decreases s.len(),
{
    if s.len() == 0 {
        seq![Seq::empty()]
    } else {
        let r = split_on(s.drop_last(), sep);
        if s.last() == sep {
            r.push(Seq::empty())
        } else {
            r.update(r.len() - 1, r.last().push(s.last()))
        }
    }
}

pub proof fn lemma_split_on_nonempty(s: Seq<char>, sep: char)
    ensures
        split_on(s, sep).len() >= 1,
    decreases s.len(),
{
    if s.len() > 0 {
        lemma_split_on_nonempty(s.drop_last(), sep);
    }
}

/// The non-empty parts, in order.
pub open spec fn non_empty(parts: Seq<Seq<char>>) -> Seq<Seq<char>>
    decreases parts.len(),
{
    if parts.len() == 0 {
        Seq::empty()
    } else {
        let r = non_empty(parts.drop_last());
        if parts.last().len() > 0 {
            r.push(parts.last())
        } else {
            r
        }
    }
}

/// The words of a paragraph: its non-empty runs between spaces.
pub open spec fn words_of(p: Seq<char>) -> Seq<Seq<char>> {
    non_empty(split_on(p, ' '))
}

/// The lines of one paragraph; a paragraph without words is one empty line.
pub open spec fn paragraph_lines<M: FontMetrics>(m: &M, size: u32, limit: nat, p: Seq<char>) -> Seq<Seq<char>> {
    if words_of(p).len() == 0 {
        seq![Seq::empty()]
    } else {
        wrap_lines(m, size, limit, words_of(p).reverse(), Seq::empty())
    }
}

/// The lines of the paragraphs, one after the other.
pub open spec fn text_lines<M: FontMetrics>(m: &M, size: u32, limit: nat, paras: Seq<Seq<char>>) -> Seq<Seq<char>>
    decreases paras.len(),
{
    if paras.len() == 0 {
        Seq::empty()
    } else {
        text_lines(m, size, limit, paras.drop_last()) + paragraph_lines(m, size, limit, paras.last())
    }
}

/// One flag per line: `true` for the last line of its paragraph.
pub open spec fn paragraph_ends<M: FontMetrics>(m: &M, size: u32, limit: nat, paras: Seq<Seq<char>>) -> Seq<bool>
    decreases paras.len(),
{
    if paras.len() == 0 {
        Seq::empty()
    } else {
        let n = paragraph_lines(m, size, limit, paras.last()).len();
        paragraph_ends(m, size, limit, paras.drop_last()) + Seq::new((n - 1) as nat, |i: int| false).push(true)
    }
}

/// The width limit in millionths of a point for a maximum width in
/// thousandths of a point; a negative width counts as zero.
pub open spec fn width_limit(max_width: i64) -> nat {
    if max_width > 0 {
        (max_width * 1000) as nat
    } else {
        0
    }
}

/// The views of strings.
pub open spec fn string_views(v: Seq<String>) -> Seq<Seq<char>> {
    Seq::new(v.len(), |i: int| v[i]@)
}

/// A greedy wrap always gives at least one line.
pub proof fn lemma_wrap_lines_nonempty<M: FontMetrics>(
    m: &M,
    size: u32,
    limit: nat,
    stack: Seq<Seq<char>>,
    current: Seq<char>,
)
    ensures
        wrap_lines(m, size, limit, stack, current).len() >= 1,
    decreases wrap_measure(stack, current),
{
    if stack.len() > 0 {
        let word = stack.last();
        let below = stack.drop_last();
        assert(stack_size(stack) == stack_size(below) + word.len() + 1);
        if current.len() == 0 {
            let st = start_line_parts(m, size, word, limit);
            lemma_soft_break_rest_shorter(m, size, word, limit, word.len());
            match st.1 {
                Some(rest) => {
                    assert(below.push(rest).drop_last() =~= below);
                    lemma_wrap_lines_nonempty(m, size, limit, below.push(rest), st.2);
                },
                None => {
                    lemma_wrap_lines_nonempty(m, size, limit, below, st.2);
                },
            }
        } else {
            let joined = current + seq![' '] + without_soft_hyphens(word);
            if width_of(m, size, joined) > limit {
                let room = room_after(m, size, current, limit);
                lemma_soft_break_rest_shorter(m, size, word, room, word.len());
                if let Some(b) = soft_break(m, size, word, room) {
                    assert(below.push(b.1).drop_last() =~= below);
                }
            } else {
                lemma_wrap_lines_nonempty(m, size, limit, below, joined);
            }
        }
    }
}

/// The words of `p`, in order.
fn split_words(p: &Vec<char>) -> (words: Vec<Vec<char>>)
    ensures
        char_views(words@) == words_of(p@),
{
    let mut words: Vec<Vec<char>> = Vec::new();
    let mut cur: Vec<char> = Vec::new();
    let mut i: usize = 0;
    proof {
        assert(p@.take(0) =~= Seq::<char>::empty());
        assert(cur@ =~= Seq::<char>::empty());
        assert(split_on(p@.take(0), ' ').drop_last() =~= Seq::<Seq<char>>::empty());
    }
    while i < p.len()
        invariant
            i <= p@.len(),
            split_on(p@.take(i as int), ' ').len() >= 1,
            char_views(words@) == non_empty(split_on(p@.take(i as int), ' ').drop_last()),
            cur@ == split_on(p@.take(i as int), ' ').last(),
        decreases p@.len() - i,
    {
        let ghost r = split_on(p@.take(i as int), ' ');
        assert(p@.take(i + 1).drop_last() =~= p@.take(i as int));
        if p[i] == ' ' {
            let ghost w0 = char_views(words@);
            if cur.len() > 0 {
                words.push(cur);
                assert(char_views(words@) =~= w0.push(r.last()));
            }
            cur = Vec::new();
            assert(split_on(p@.take(i + 1), ' ') == r.push(Seq::empty()));
            assert(r.push(Seq::<char>::empty()).drop_last() =~= r);
            assert(r =~= r.drop_last().push(r.last()));
            assert(cur@ =~= Seq::<char>::empty());
        } else {
            let c = p[i];
            cur.push(c);
            assert(split_on(p@.take(i + 1), ' ') == r.update(r.len() - 1, r.last().push(c)));
            assert(r.update(r.len() - 1, r.last().push(c)).drop_last() =~= r.drop_last());
        }
        i = i + 1;
    }
    assert(p@.take(p@.len() as int) =~= p@);
    let ghost r = split_on(p@, ' ');
    assert(r =~= r.drop_last().push(r.last()));
    if cur.len() > 0 {
        let ghost w0 = char_views(words@);
        words.push(cur);
        assert(char_views(words@) =~= w0.push(r.last()));
    }
    words
}

/// The vector in reverse order.
fn reverse_words(words: Vec<Vec<char>>) -> (r: Vec<Vec<char>>)
    ensures
        char_views(r@) == char_views(words@).reverse(),
{
    let ghost all = char_views(words@);
    let mut words = words;
    let mut r: Vec<Vec<char>> = Vec::new();
    while words.len() > 0
        invariant
            char_views(r@) + char_views(words@).reverse() == all.reverse(),
        decreases words@.len(),
    {
        let ghost before = char_views(words@);
        let ghost r0 = char_views(r@);
        let w = words.pop().unwrap();
        assert(char_views(words@) =~= before.drop_last());
        assert(before.reverse() =~= seq![before.last()] + before.drop_last().reverse());
        r.push(w);
        assert(char_views(r@) =~= r0.push(w@));
        assert(char_views(r@) + char_views(words@).reverse() =~= r0 + before.reverse());
    }
    assert(char_views(words@).reverse() =~= Seq::<Seq<char>>::empty());
    assert(char_views(r@) + Seq::<Seq<char>>::empty() =~= char_views(r@));
    r
}

/// Wraps one paragraph, appending its lines and one flag per line, `true`
/// only for the paragraph's last line.
fn wrap_paragraph<M: FontMetrics>(
    m: &M,
    size: u32,
    limit: u128,
    p: &Vec<char>,
    lines: &mut Vec<Vec<char>>,
    ends: &mut Vec<bool>,
)
    requires
        old(ends)@.len() == old(lines)@.len(),
    ensures
        char_views(final(lines)@) == char_views(old(lines)@) + paragraph_lines(m, size, limit as nat, p@),
        final(ends)@ == old(ends)@ + Seq::new(
            (paragraph_lines(m, size, limit as nat, p@).len() - 1) as nat,
            |i: int| false,
        ).push(true),
        final(ends)@.len() == final(lines)@.len(),
{
    let words = split_words(p);
    if words.len() == 0 {
        let ghost l0 = char_views(lines@);
        lines.push(Vec::new());
        assert(char_views(lines@) =~= l0 + seq![Seq::<char>::empty()]);
    } else {
        let stack = reverse_words(words);
        wrap_words(m, size, limit, stack, lines);
        proof {
            lemma_wrap_lines_nonempty(m, size, limit as nat, words_of(p@).reverse(), Seq::empty());
        }
    }
    let ghost n = paragraph_lines(m, size, limit as nat, p@).len();
    let ghost e0 = ends@;
    assert(n >= 1);
    assert(lines@.len() == char_views(lines@).len());
    assert(old(lines)@.len() == char_views(old(lines)@).len());
    while ends.len() < lines.len()
        invariant
            e0.len() <= ends@.len() <= lines@.len(),
            lines@.len() == e0.len() + n,
            ends@ == e0 + Seq::new((ends@.len() - e0.len()) as nat, |i: int| false),
        decreases lines@.len() - ends@.len(),
    {
        let ghost before = ends@;
        ends.push(false);
        assert(ends@ =~= e0 + Seq::new((ends@.len() - e0.len()) as nat, |i: int| false));
    }
    let k = ends.len() - 1;
    ends.set(k, true);
    assert(ends@ =~= e0 + Seq::new((n - 1) as nat, |i: int| false).push(true));
}

/// The lines of `text` wrapped to `max_width` in `style`.
pub open spec fn wrapped_lines<R: FontResolver>(r: &R, style: TextStyle, text: Seq<char>, max_width: i64) -> Seq<
    Seq<char>,
> {
    text_lines(&r.metrics_of(style.font), style.size, width_limit(max_width), split_on(text, '\n'))
}

/// The paragraph-end flags of the lines of `wrapped_lines`.
pub open spec fn wrapped_ends<R: FontResolver>(r: &R, style: TextStyle, text: Seq<char>, max_width: i64) -> Seq<bool> {
    paragraph_ends(&r.metrics_of(style.font), style.size, width_limit(max_width), split_on(text, '\n'))
}

/// Wraps `text` to `max_width` (thousandths of a point) in `style`, and
/// flags each line: `true` for the last line of its paragraph, the line a
/// justified paragraph leaves ragged. A `\n` always starts a new
/// paragraph; words are the non-empty runs between spaces. A negative
/// width counts as zero.
pub fn wrap_text_marking_paragraph_ends<R: FontResolver>(r: &R, style: &TextStyle, text: &str, max_width: i64) -> (res: (
    Vec<String>,
    Vec<bool>,
))
    ensures
        string_views(res.0@) == wrapped_lines(r, *style, text@, max_width),
        res.1@ == wrapped_ends(r, *style, text@, max_width),
{
    let m = r.metrics(style.font);
    let size = style.size;
    let limit: u128 = if max_width > 0 {
        max_width as u128 * 1000
    } else {
        0
    };
    let ghost lim = width_limit(max_width);
    assert(limit as nat == lim);
    let cs = chars_of(text);
    let mut lines: Vec<Vec<char>> = Vec::new();
    let mut ends: Vec<bool> = Vec::new();
    let mut cur: Vec<char> = Vec::new();
    let mut i: usize = 0;
    proof {
        assert(cs@.take(0) =~= Seq::<char>::empty());
        assert(cur@ =~= Seq::<char>::empty());
        assert(split_on(cs@.take(0), '\n').drop_last() =~= Seq::<Seq<char>>::empty());
        assert(char_views(lines@) =~= Seq::<Seq<char>>::empty());
        assert(ends@ =~= Seq::<bool>::empty());
    }
    while i < cs.len()
        invariant
            i <= cs@.len(),
            limit as nat == lim,
            split_on(cs@.take(i as int), '\n').len() >= 1,
            char_views(lines@) == text_lines(m, size, lim, split_on(cs@.take(i as int), '\n').drop_last()),
            ends@ == paragraph_ends(m, size, lim, split_on(cs@.take(i as int), '\n').drop_last()),
            ends@.len() == lines@.len(),
            cur@ == split_on(cs@.take(i as int), '\n').last(),
        decreases cs@.len() - i,
    {
        let ghost r = split_on(cs@.take(i as int), '\n');
        assert(cs@.take(i + 1).drop_last() =~= cs@.take(i as int));
        if cs[i] == '\n' {
            wrap_paragraph(m, size, limit, &cur, &mut lines, &mut ends);
            cur = Vec::new();
            assert(split_on(cs@.take(i + 1), '\n') == r.push(Seq::empty()));
            assert(r.push(Seq::<char>::empty()).drop_last() =~= r);
            assert(r.drop_last() =~= r.drop_last());
            assert(r.last() == r[r.len() - 1]);
            assert(r.drop_last() =~= r.subrange(0, r.len() - 1));
            assert(r =~= r.drop_last().push(r.last()));
            assert(cur@ =~= Seq::<char>::empty());
        } else {
            let c = cs[i];
            cur.push(c);
            assert(split_on(cs@.take(i + 1), '\n') == r.update(r.len() - 1, r.last().push(c)));
            assert(r.update(r.len() - 1, r.last().push(c)).drop_last() =~= r.drop_last());
        }
        i = i + 1;
    }
    assert(cs@.take(cs@.len() as int) =~= cs@);
    let ghost r = split_on(cs@, '\n');
    assert(r =~= r.drop_last().push(r.last()));
    wrap_paragraph(m, size, limit, &cur, &mut lines, &mut ends);
    let mut out: Vec<String> = Vec::new();
    let mut j: usize = 0;
    while j < lines.len()
        invariant
            j <= lines@.len(),
            string_views(out@) == char_views(lines@).take(j as int),
        decreases lines@.len() - j,
    {
        let line = lines[j].clone();
        assert(line@ == char_views(lines@)[j as int]);
        let s = string_from_chars(line);
        let ghost o0 = string_views(out@);
        let ghost sv = s@;
        out.push(s);
        assert(string_views(out@) =~= o0.push(sv));
        j = j + 1;
        assert(string_views(out@) =~= char_views(lines@).take(j as int));
    }
    assert(char_views(lines@).take(lines@.len() as int) =~= char_views(lines@));
    (out, ends)
}

/// Wraps `text` to `max_width`: see `wrap_text_marking_paragraph_ends`.
pub fn wrap_text<R: FontResolver>(r: &R, style: &TextStyle, text: &str, max_width: i64) -> (lines: Vec<String>)
    ensures
        string_views(lines@) == wrapped_lines(r, *style, text@, max_width),
{
    wrap_text_marking_paragraph_ends(r, style, text, max_width).0
}

/// A line that fits `limit`, or a single character wider than the line
/// by itself.
pub open spec fn fits_or_single<M: FontMetrics>(m: &M, size: u32, limit: nat, line: Seq<char>) -> bool {
    width_of(m, size, line) <= limit || line.len() <= 1
}

/// Widths add up over concatenation.
pub proof fn lemma_width_concat<M: FontMetrics>(m: &M, size: u32, a: Seq<char>, b: Seq<char>)
    ensures
        width_of(m, size, a + b) == width_of(m, size, a) + width_of(m, size, b),
{
    lemma_advance_sum_concat(m, a, b);
    vstd::arithmetic::mul::lemma_mul_is_distributive_add(size as int, advance_sum(m, a) as int, advance_sum(m, b) as int);
    vstd::arithmetic::mul::lemma_mul_is_commutative(size as int, advance_sum(m, a) as int);
    vstd::arithmetic::mul::lemma_mul_is_commutative(size as int, advance_sum(m, b) as int);
    vstd::arithmetic::mul::lemma_mul_is_commutative(size as int, advance_sum(m, a + b) as int);
}

/// A soft-hyphen break gives a part that fits and ends in a hyphen.
proof fn lemma_soft_break_head<M: FontMetrics>(m: &M, size: u32, word: Seq<char>, limit: nat, i: nat)
    ensures
        soft_break_below(m, size, word, limit, i) matches Some(b) ==> width_of(m, size, b.0) <= limit && b.0.len() >= 1
            && b.0.last() == '-',
    decreases i,
{
    if i > 0 {
        lemma_soft_break_head(m, size, word, limit, (i - 1) as nat);
    }
}

/// The hyphen's width is at least its advance times the size.
proof fn lemma_hyphen_width<M: FontMetrics>(m: &M, size: u32, s: Seq<char>)
    requires
        s.len() >= 1,
        s.last() == '-',
    ensures
        width_of(m, size, s) >= m.advance_of('-') * size,
{
    assert(advance_sum(m, s) >= m.advance_of('-'));
    vstd::arithmetic::mul::lemma_mul_inequality(m.advance_of('-') as int, advance_sum(m, s) as int, size as int);
}

/// Every piece of a character-level break fits, or is one character.
proof fn lemma_hard_break_state_fits<M: FontMetrics>(m: &M, size: u32, word: Seq<char>, limit: nat, k: nat)
    ensures
        fits_or_single(m, size, limit, hard_break_state(m, size, word, limit, k).1),
        forall|j: int|
            0 <= j < hard_break_state(m, size, word, limit, k).0.len() ==> fits_or_single(
                m,
                size,
                limit,
                #[trigger] hard_break_state(m, size, word, limit, k).0[j],
            ),
    decreases k,
{
    if k > 0 {
        lemma_hard_break_state_fits(m, size, word, limit, (k - 1) as nat);
    } else {
        assert(advance_sum(m, Seq::<char>::empty()) == 0);
    }
}

proof fn lemma_hard_break_pieces_fit<M: FontMetrics>(m: &M, size: u32, word: Seq<char>, limit: nat)
    ensures
        hard_break_pieces(m, size, word, limit).len() >= 1,
        forall|j: int|
            0 <= j < hard_break_pieces(m, size, word, limit).len() ==> fits_or_single(
                m,
                size,
                limit,
                #[trigger] hard_break_pieces(m, size, word, limit)[j],
            ),
{
    lemma_hard_break_state_fits(m, size, word, limit, word.len());
}

/// All lines of `a` and of `b` fit: so do those of `a + b`.
proof fn lemma_concat_fit<M: FontMetrics>(m: &M, size: u32, limit: nat, a: Seq<Seq<char>>, b: Seq<Seq<char>>)
    requires
        forall|j: int| 0 <= j < a.len() ==> fits_or_single(m, size, limit, #[trigger] a[j]),
        forall|j: int| 0 <= j < b.len() ==> fits_or_single(m, size, limit, #[trigger] b[j]),
    ensures
        forall|j: int| 0 <= j < (a + b).len() ==> fits_or_single(m, size, limit, #[trigger] (a + b)[j]),
{
    assert forall|j: int| 0 <= j < (a + b).len() implies fits_or_single(m, size, limit, #[trigger] (a + b)[j]) by {
        if j < a.len() {
            assert((a + b)[j] == a[j]);
        } else {
            assert((a + b)[j] == b[j - a.len()]);
        }
    }
}

/// Greedy wrapping keeps every line within the limit, but for a single
/// character wider than the line, as long as the hyphen has a width.
#[verifier::spinoff_prover]
proof fn lemma_wrap_lines_fit<M: FontMetrics>(m: &M, size: u32, limit: nat, stack: Seq<Seq<char>>, current: Seq<char>)
    requires
        m.advance_of('-') > 0,
        fits_or_single(m, size, limit, current),
    ensures
        forall|j: int|
            0 <= j < wrap_lines(m, size, limit, stack, current).len() ==> fits_or_single(
                m,
                size,
                limit,
                #[trigger] wrap_lines(m, size, limit, stack, current)[j],
            ),
    decreases wrap_measure(stack, current),
{
    let lines = wrap_lines(m, size, limit, stack, current);
    if stack.len() > 0 {
        let word = stack.last();
        let below = stack.drop_last();
        assert(stack_size(stack) == stack_size(below) + word.len() + 1);
        if current.len() == 0 {
            let st = start_line_parts(m, size, word, limit);
            lemma_soft_break_rest_shorter(m, size, word, limit, word.len());
            lemma_soft_break_head(m, size, word, limit, word.len());
            let stripped = without_soft_hyphens(word);
            lemma_hard_break_pieces_fit(m, size, stripped, limit);
            assert(fits_or_single(m, size, limit, st.2));
            assert forall|j: int| 0 <= j < st.0.len() implies fits_or_single(m, size, limit, #[trigger] st.0[j]) by {
                if width_of(m, size, stripped) > limit && soft_break(m, size, word, limit) is None {
                    let pieces = hard_break_pieces(m, size, stripped, limit);
                    assert(st.0[j] == pieces[j]);
                }
            }
            let next = match st.1 {
                Some(rest) => below.push(rest),
                None => below,
            };
            if let Some(rest) = st.1 {
                assert(below.push(rest).drop_last() =~= below);
            }
            lemma_wrap_lines_fit(m, size, limit, next, st.2);
            lemma_concat_fit(m, size, limit, st.0, wrap_lines(m, size, limit, next, st.2));
            assert(lines == st.0 + wrap_lines(m, size, limit, next, st.2));
            assert(forall|j: int| 0 <= j < lines.len() ==> fits_or_single(m, size, limit, #[trigger] lines[j]));
        } else {
            let joined = current + seq![' '] + without_soft_hyphens(word);
            if width_of(m, size, joined) <= limit {
                lemma_wrap_lines_fit(m, size, limit, below, joined);
                assert(lines == wrap_lines(m, size, limit, below, joined));
                assert(forall|j: int| 0 <= j < lines.len() ==> fits_or_single(m, size, limit, #[trigger] lines[j]));
            } else {
                let room = room_after(m, size, current, limit);
                lemma_soft_break_rest_shorter(m, size, word, room, word.len());
                lemma_soft_break_head(m, size, word, room, word.len());
                match soft_break(m, size, word, room) {
                    Some(b) => {
                        assert(below.push(b.1).drop_last() =~= below);
                        lemma_wrap_lines_fit(m, size, limit, below.push(b.1), Seq::empty());
                        let line = current + seq![' '] + b.0;
                        lemma_width_concat(m, size, current, seq![' ']);
                        lemma_width_concat(m, size, current + seq![' '], b.0);
                        lemma_hyphen_width(m, size, b.0);
                        let used = width_of(m, size, current) + width_of(m, size, seq![' ']);
                        if used > limit {
                            assert(size > 0) by {
                                if size == 0 {
                                    vstd::arithmetic::mul::lemma_mul_basics(advance_sum(m, current) as int);
                                    vstd::arithmetic::mul::lemma_mul_basics(advance_sum(m, seq![' ']) as int);
                                    assert(width_of(m, size, current) == 0);
                                    assert(width_of(m, size, seq![' ']) == 0);
                                }
                            }
                            assert(m.advance_of('-') * size > 0) by (nonlinear_arith)
                                requires
                                    m.advance_of('-') > 0,
                                    size > 0,
                            ;
                        }
                        assert(fits_or_single(m, size, limit, line));
                        lemma_concat_fit(m, size, limit, seq![line], wrap_lines(m, size, limit, below.push(b.1), Seq::empty()));
                        assert(lines == seq![line] + wrap_lines(m, size, limit, below.push(b.1), Seq::empty()));
                        assert(forall|j: int| 0 <= j < lines.len() ==> fits_or_single(m, size, limit, #[trigger] lines[j]));
                    },
                    None => {
                        lemma_wrap_lines_fit(m, size, limit, stack, Seq::empty());
                        lemma_concat_fit(m, size, limit, seq![current], wrap_lines(m, size, limit, stack, Seq::empty()));
                        assert(lines == seq![current] + wrap_lines(m, size, limit, stack, Seq::empty()));
                        assert(forall|j: int| 0 <= j < lines.len() ==> fits_or_single(m, size, limit, #[trigger] lines[j]));
                    },
                }
            }
        }
    }
}

proof fn lemma_text_lines_fit<M: FontMetrics>(m: &M, size: u32, limit: nat, paras: Seq<Seq<char>>)
    requires
        m.advance_of('-') > 0,
    ensures
        forall|j: int|
            0 <= j < text_lines(m, size, limit, paras).len() ==> fits_or_single(
                m,
                size,
                limit,
                #[trigger] text_lines(m, size, limit, paras)[j],
            ),
    decreases paras.len(),
{
    if paras.len() > 0 {
        lemma_text_lines_fit(m, size, limit, paras.drop_last());
        let p = paras.last();
        if words_of(p).len() == 0 {
            assert(advance_sum(m, Seq::<char>::empty()) == 0);
            assert(fits_or_single(m, size, limit, Seq::<char>::empty()));
        } else {
            assert(advance_sum(m, Seq::<char>::empty()) == 0);
            lemma_wrap_lines_fit(m, size, limit, words_of(p).reverse(), Seq::empty());
        }
        lemma_concat_fit(
            m,
            size,
            limit,
            text_lines(m, size, limit, paras.drop_last()),
            paragraph_lines(m, size, limit, p),
        );
    }
}

/// Wrapped text never runs past the edge: every line fits the width,
/// but for a single character wider than the line by itself. This needs
/// the hyphen that a soft-hyphen break adds to have a width.
proof fn lemma_lines_fit<M: FontMetrics>(m: &M, size: u32, text: Seq<char>, max_width: i64)
    requires
        m.advance_of('-') > 0,
    ensures
        forall|j: int|
            0 <= j < text_lines(m, size, width_limit(max_width), split_on(text, '\n')).len() ==> fits_or_single(
                m,
                size,
                width_limit(max_width),
                #[trigger] text_lines(m, size, width_limit(max_width), split_on(text, '\n'))[j],
            ),
{
    lemma_text_lines_fit(m, size, width_limit(max_width), split_on(text, '\n'));
}

/// Whether wrapping may add or drop `c`: spaces, hyphens, soft hyphens
/// and line feeds.
pub open spec fn is_break_char(c: char) -> bool {
    c == ' ' || c == '-' || c == soft_hyphen() || c == '\n'
}

/// The characters of `s` that wrapping must keep: all but break characters.
pub open spec fn kept(s: Seq<char>) -> Seq<char>
    decreases s.len(),
{
    if s.len() == 0 {
        Seq::empty()
    } else if is_break_char(s.last()) {
        kept(s.drop_last())
    } else {
        kept(s.drop_last()).push(s.last())
    }
}

/// The kept characters of the lines, one line after the other.
pub open spec fn kept_lines(lines: Seq<Seq<char>>) -> Seq<char>
    decreases lines.len(),
{
    if lines.len() == 0 {
        Seq::empty()
    } else {
        kept_lines(lines.drop_last()) + kept(lines.last())
    }
}

/// The kept characters of a stack of words, the next word (the last) first.
pub open spec fn kept_stack(stack: Seq<Seq<char>>) -> Seq<char>
    decreases stack.len(),
{
    if stack.len() == 0 {
        Seq::empty()
    } else {
        kept(stack.last()) + kept_stack(stack.drop_last())
    }
}

proof fn lemma_kept_concat(a: Seq<char>, b: Seq<char>)
    ensures
        kept(a + b) == kept(a) + kept(b),
    decreases b.len(),
{
    if b.len() == 0 {
        assert(a + b =~= a);
        assert(kept(a) + kept(b) =~= kept(a));
    } else {
        lemma_kept_concat(a, b.drop_last());
        assert((a + b).drop_last() =~= a + b.drop_last());
        assert((a + b).last() == b.last());
        if !is_break_char(b.last()) {
            assert(kept(a) + kept(b.drop_last()).push(b.last()) =~= (kept(a) + kept(b.drop_last())).push(b.last()));
        }
    }
}

proof fn lemma_kept_lines_concat(a: Seq<Seq<char>>, b: Seq<Seq<char>>)
    ensures
        kept_lines(a + b) == kept_lines(a) + kept_lines(b),
    decreases b.len(),
{
    if b.len() == 0 {
        assert(a + b =~= a);
        assert(kept_lines(a) + kept_lines(b) =~= kept_lines(a));
    } else {
        lemma_kept_lines_concat(a, b.drop_last());
        assert((a + b).drop_last() =~= a + b.drop_last());
        assert((a + b).last() == b.last());
        assert(kept_lines(a) + (kept_lines(b.drop_last()) + kept(b.last())) =~= (kept_lines(a) + kept_lines(
            b.drop_last(),
        )) + kept(b.last()));
    }
}

proof fn lemma_kept_without_soft_hyphens(s: Seq<char>)
    ensures
        kept(without_soft_hyphens(s)) == kept(s),
    decreases s.len(),
{
    if s.len() > 0 {
        lemma_kept_without_soft_hyphens(s.drop_last());
        let r = without_soft_hyphens(s.drop_last());
        if s.last() != soft_hyphen() {
            assert(r.push(s.last()).drop_last() =~= r);
        }
    }
}

proof fn lemma_kept_one(c: char)
    ensures
        kept(seq![c]) == if is_break_char(c) {
            Seq::<char>::empty()
        } else {
            seq![c]
        },
{
    assert(seq![c].drop_last() =~= Seq::<char>::empty());
    assert(seq![c].last() == c);
    assert(kept(Seq::<char>::empty()) =~= Seq::<char>::empty());
    assert(Seq::<char>::empty().push(c) =~= seq![c]);
}

proof fn lemma_kept_hard_break_state<M: FontMetrics>(m: &M, size: u32, word: Seq<char>, limit: nat, k: nat)
    requires
        k <= word.len(),
    ensures
        kept_lines(hard_break_state(m, size, word, limit, k).0) + kept(hard_break_state(m, size, word, limit, k).1)
            == kept(word.take(k as int)),
    decreases k,
{
    if k == 0 {
        assert(word.take(0) =~= Seq::<char>::empty());
        assert(Seq::<char>::empty() + Seq::<char>::empty() =~= Seq::<char>::empty());
    } else {
        lemma_kept_hard_break_state(m, size, word, limit, (k - 1) as nat);
        let prev = hard_break_state(m, size, word, limit, (k - 1) as nat);
        let ch = word[k - 1];
        assert(word.take(k as int) =~= word.take(k - 1) + seq![ch]);
        lemma_kept_concat(word.take(k - 1), seq![ch]);
        lemma_kept_concat(prev.1, seq![ch]);
        lemma_kept_one(ch);
        assert(prev.1.push(ch) =~= prev.1 + seq![ch]);
        if width_of(m, size, prev.1.push(ch)) > limit && prev.1.len() > 0 {
            assert(prev.0.push(prev.1).drop_last() =~= prev.0);
        }
    }
}

proof fn lemma_kept_hard_break_pieces<M: FontMetrics>(m: &M, size: u32, word: Seq<char>, limit: nat)
    ensures
        kept_lines(hard_break_pieces(m, size, word, limit)) == kept(word),
{
    lemma_kept_hard_break_state(m, size, word, limit, word.len());
    assert(word.take(word.len() as int) =~= word);
    let st = hard_break_state(m, size, word, limit, word.len());
    if st.1.len() > 0 || st.0.len() == 0 {
        assert(st.0.push(st.1).drop_last() =~= st.0);
    } else {
        assert(kept(st.1) =~= Seq::<char>::empty());
        assert(kept_lines(st.0) + Seq::<char>::empty() =~= kept_lines(st.0));
    }
}

proof fn lemma_kept_soft_break<M: FontMetrics>(m: &M, size: u32, word: Seq<char>, limit: nat, i: nat)
    requires
        i <= word.len(),
    ensures
        soft_break_below(m, size, word, limit, i) matches Some(b) ==> kept(b.0) + kept(b.1) == kept(word),
    decreases i,
{
    if i > 0 {
        lemma_kept_soft_break(m, size, word, limit, (i - 1) as nat);
        let p = (i - 1) as int;
        let head = without_soft_hyphens(word.take(p)).push('-');
        if word[p] == soft_hyphen() && width_of(m, size, head) <= limit {
            lemma_kept_without_soft_hyphens(word.take(p));
            assert(head =~= without_soft_hyphens(word.take(p)) + seq!['-']);
            lemma_kept_concat(without_soft_hyphens(word.take(p)), seq!['-']);
            lemma_kept_one('-');
            lemma_kept_one(soft_hyphen());
            assert(word =~= word.take(p) + seq![word[p]] + word.skip(p + 1));
            lemma_kept_concat(word.take(p) + seq![word[p]], word.skip(p + 1));
            lemma_kept_concat(word.take(p), seq![word[p]]);
            assert(kept(without_soft_hyphens(word.take(p))) + Seq::<char>::empty() =~= kept(word.take(p)));
            assert(kept(word.take(p)) + Seq::<char>::empty() =~= kept(word.take(p)));
        }
    }
}

proof fn lemma_kept_wrap_lines<M: FontMetrics>(m: &M, size: u32, limit: nat, stack: Seq<Seq<char>>, current: Seq<char>)
    ensures
        kept_lines(wrap_lines(m, size, limit, stack, current)) == kept(current) + kept_stack(stack),
    decreases wrap_measure(stack, current),
{
    let lines = wrap_lines(m, size, limit, stack, current);
    if stack.len() == 0 {
        assert(seq![current].drop_last() =~= Seq::<Seq<char>>::empty());
        assert(kept_lines(Seq::<Seq<char>>::empty()) =~= Seq::<char>::empty());
        assert(kept_stack(stack) =~= Seq::<char>::empty());
        assert(Seq::<char>::empty() + kept(current) =~= kept(current) + Seq::<char>::empty());
    } else {
        let word = stack.last();
        let below = stack.drop_last();
        assert(stack_size(stack) == stack_size(below) + word.len() + 1);
        lemma_kept_without_soft_hyphens(word);
        if current.len() == 0 {
            assert(kept(current) =~= Seq::<char>::empty());
            let st = start_line_parts(m, size, word, limit);
            lemma_soft_break_rest_shorter(m, size, word, limit, word.len());
            lemma_kept_soft_break(m, size, word, limit, word.len());
            let stripped = without_soft_hyphens(word);
            lemma_kept_hard_break_pieces(m, size, stripped, limit);
            lemma_hard_break_pieces_fit(m, size, stripped, limit);
            let next = match st.1 {
                Some(rest) => below.push(rest),
                None => below,
            };
            if let Some(rest) = st.1 {
                assert(below.push(rest).drop_last() =~= below);
            }
            lemma_kept_wrap_lines(m, size, limit, next, st.2);
            lemma_kept_lines_concat(st.0, wrap_lines(m, size, limit, next, st.2));
            assert(lines == st.0 + wrap_lines(m, size, limit, next, st.2));
            if width_of(m, size, stripped) <= limit {
                assert(st.0 =~= Seq::<Seq<char>>::empty());
                assert(kept_lines(st.0) =~= Seq::<char>::empty());
                assert(kept_lines(lines) =~= kept(word) + kept_stack(below));
            } else {
                match soft_break(m, size, word, limit) {
                    Some(b) => {
                        assert(below.push(b.1).drop_last() =~= below);
                        assert(seq![b.0].drop_last() =~= Seq::<Seq<char>>::empty());
                        assert(kept_lines(Seq::<Seq<char>>::empty()) =~= Seq::<char>::empty());
                        assert(Seq::<char>::empty() + kept(b.0) =~= kept(b.0));
                        assert(kept_lines(st.0) =~= kept(b.0));
                        assert(kept(Seq::<char>::empty()) =~= Seq::<char>::empty());
                        assert(kept_lines(lines) =~= kept(word) + kept_stack(below));
                    },
                    None => {
                        let pieces = hard_break_pieces(m, size, stripped, limit);
                        assert(pieces =~= pieces.drop_last().push(pieces.last()));
                        assert(kept_lines(lines) =~= kept(word) + kept_stack(below));
                    },
                }
            }
            assert(Seq::<char>::empty() + kept_stack(stack) =~= kept_stack(stack));
        } else {
            let joined = current + seq![' '] + without_soft_hyphens(word);
            lemma_kept_concat(current + seq![' '], without_soft_hyphens(word));
            lemma_kept_concat(current, seq![' ']);
            lemma_kept_one(' ');
            assert(kept(current) + Seq::<char>::empty() =~= kept(current));
            if width_of(m, size, joined) <= limit {
                lemma_kept_wrap_lines(m, size, limit, below, joined);
                assert(lines == wrap_lines(m, size, limit, below, joined));
                assert(kept(joined) + kept_stack(below) =~= kept(current) + kept_stack(stack));
            } else {
                let room = room_after(m, size, current, limit);
                lemma_soft_break_rest_shorter(m, size, word, room, word.len());
                lemma_kept_soft_break(m, size, word, room, word.len());
                match soft_break(m, size, word, room) {
                    Some(b) => {
                        assert(below.push(b.1).drop_last() =~= below);
                        let line = current + seq![' '] + b.0;
                        lemma_kept_concat(current + seq![' '], b.0);
                        lemma_kept_wrap_lines(m, size, limit, below.push(b.1), Seq::empty());
                        lemma_kept_lines_concat(seq![line], wrap_lines(m, size, limit, below.push(b.1), Seq::empty()));
                        assert(seq![line].drop_last() =~= Seq::<Seq<char>>::empty());
                        assert(kept(Seq::<char>::empty()) =~= Seq::<char>::empty());
                        assert(kept_lines(Seq::<Seq<char>>::empty()) =~= Seq::<char>::empty());
                        assert(kept_lines(seq![line]) =~= kept(line));
                        assert(kept(line) =~= kept(current) + kept(b.0));
                        assert(lines == seq![line] + wrap_lines(m, size, limit, below.push(b.1), Seq::empty()));
                        assert(kept_stack(below.push(b.1)) == kept(b.1) + kept_stack(below));
                        assert(kept_lines(lines) =~= kept(current) + kept_stack(stack));
                    },
                    None => {
                        lemma_kept_wrap_lines(m, size, limit, stack, Seq::empty());
                        lemma_kept_lines_concat(seq![current], wrap_lines(m, size, limit, stack, Seq::empty()));
                        assert(seq![current].drop_last() =~= Seq::<Seq<char>>::empty());
                        assert(kept(Seq::<char>::empty()) =~= Seq::<char>::empty());
                        assert(kept_lines(Seq::<Seq<char>>::empty()) =~= Seq::<char>::empty());
                        assert(kept_lines(seq![current]) =~= kept(current));
                        assert(lines == seq![current] + wrap_lines(m, size, limit, stack, Seq::empty()));
                        assert(kept_lines(lines) =~= kept(current) + kept_stack(stack));
                    },
                }
            }
        }
    }
}

proof fn lemma_kept_stack_reverse(ws: Seq<Seq<char>>)
    ensures
        kept_stack(ws.reverse()) == kept_lines(ws),
    decreases ws.len(),
{
    if ws.len() == 0 {
        assert(ws.reverse() =~= Seq::<Seq<char>>::empty());
    } else {
        let tail = ws.skip(1);
        lemma_kept_stack_reverse(tail);
        assert(ws.reverse().last() == ws[0]);
        assert(ws.reverse().drop_last() =~= tail.reverse());
        assert(ws =~= seq![ws[0]] + tail);
        lemma_kept_lines_concat(seq![ws[0]], tail);
        assert(seq![ws[0]].drop_last() =~= Seq::<Seq<char>>::empty());
        assert(kept_lines(Seq::<Seq<char>>::empty()) =~= Seq::<char>::empty());
        assert(kept_lines(seq![ws[0]]) =~= kept(ws[0]));
    }
}

proof fn lemma_kept_non_empty(parts: Seq<Seq<char>>)
    ensures
        kept_lines(non_empty(parts)) == kept_lines(parts),
    decreases parts.len(),
{
    if parts.len() > 0 {
        lemma_kept_non_empty(parts.drop_last());
        let r = non_empty(parts.drop_last());
        if parts.last().len() > 0 {
            assert(r.push(parts.last()).drop_last() =~= r);
        } else {
            assert(kept(parts.last()) =~= Seq::<char>::empty());
            assert(kept_lines(parts.drop_last()) + Seq::<char>::empty() =~= kept_lines(parts.drop_last()));
        }
    }
}

proof fn lemma_kept_split_on(s: Seq<char>, sep: char)
    requires
        is_break_char(sep),
    ensures
        kept_lines(split_on(s, sep)) == kept(s),
    decreases s.len(),
{
    if s.len() == 0 {
        assert(seq![Seq::<char>::empty()].drop_last() =~= Seq::<Seq<char>>::empty());
        assert(kept(Seq::<char>::empty()) =~= Seq::<char>::empty());
        assert(kept_lines(Seq::<Seq<char>>::empty()) =~= Seq::<char>::empty());
        assert(Seq::<char>::empty() + Seq::<char>::empty() =~= Seq::<char>::empty());
    } else {
        lemma_kept_split_on(s.drop_last(), sep);
        lemma_split_on_nonempty(s.drop_last(), sep);
        let r = split_on(s.drop_last(), sep);
        let c = s.last();
        if c == sep {
            assert(r.push(Seq::<char>::empty()).drop_last() =~= r);
            assert(kept(Seq::<char>::empty()) =~= Seq::<char>::empty());
            assert(kept_lines(r) + Seq::<char>::empty() =~= kept_lines(r));
        } else {
            let r2 = r.update(r.len() - 1, r.last().push(c));
            assert(r2.drop_last() =~= r.drop_last());
            assert(r2.last() == r.last().push(c));
            assert(r =~= r.drop_last().push(r.last()));
            assert(r.last().push(c) =~= r.last() + seq![c]);
            lemma_kept_concat(r.last(), seq![c]);
            lemma_kept_one(c);
            assert(s =~= s.drop_last() + seq![c]);
            lemma_kept_concat(s.drop_last(), seq![c]);
            assert(kept_lines(r) == kept_lines(r.drop_last()) + kept(r.last()));
            assert(kept_lines(r2) =~= kept_lines(r) + kept(seq![c]));
        }
    }
}

proof fn lemma_kept_paragraph_lines<M: FontMetrics>(m: &M, size: u32, limit: nat, p: Seq<char>)
    ensures
        kept_lines(paragraph_lines(m, size, limit, p)) == kept(p),
{
    lemma_kept_split_on(p, ' ');
    lemma_kept_non_empty(split_on(p, ' '));
    if words_of(p).len() == 0 {
        assert(seq![Seq::<char>::empty()].drop_last() =~= Seq::<Seq<char>>::empty());
        assert(kept(Seq::<char>::empty()) =~= Seq::<char>::empty());
        assert(kept_lines(Seq::<Seq<char>>::empty()) =~= Seq::<char>::empty());
        assert(Seq::<char>::empty() + Seq::<char>::empty() =~= Seq::<char>::empty());
    } else {
        lemma_kept_wrap_lines(m, size, limit, words_of(p).reverse(), Seq::empty());
        lemma_kept_stack_reverse(words_of(p));
        assert(kept(Seq::<char>::empty()) =~= Seq::<char>::empty());
        assert(Seq::<char>::empty() + kept_stack(words_of(p).reverse()) =~= kept_stack(words_of(p).reverse()));
    }
}

proof fn lemma_kept_text_lines<M: FontMetrics>(m: &M, size: u32, limit: nat, paras: Seq<Seq<char>>)
    ensures
        kept_lines(text_lines(m, size, limit, paras)) == kept_lines(paras),
    decreases paras.len(),
{
    if paras.len() > 0 {
        lemma_kept_text_lines(m, size, limit, paras.drop_last());
        lemma_kept_paragraph_lines(m, size, limit, paras.last());
        lemma_kept_lines_concat(text_lines(m, size, limit, paras.drop_last()), paragraph_lines(m, size, limit, paras.last()));
    }
}

/// Wrapping never loses or invents text: leaving out spaces, hyphens,
/// soft hyphens and line feeds, the lines hold exactly the characters of
/// the text, in order.
proof fn lemma_lines_keep_the_text<M: FontMetrics>(m: &M, size: u32, text: Seq<char>, max_width: i64)
    ensures
        kept_lines(text_lines(m, size, width_limit(max_width), split_on(text, '\n'))) == kept(text),
{
    lemma_kept_text_lines(m, size, width_limit(max_width), split_on(text, '\n'));
    lemma_kept_split_on(text, '\n');
}

proof fn lemma_paragraph_lines_nonempty<M: FontMetrics>(m: &M, size: u32, limit: nat, p: Seq<char>)
    ensures
        paragraph_lines(m, size, limit, p).len() >= 1,
{
    if words_of(p).len() > 0 {
        lemma_wrap_lines_nonempty(m, size, limit, words_of(p).reverse(), Seq::empty());
    }
}

proof fn lemma_paragraph_ends_len<M: FontMetrics>(m: &M, size: u32, limit: nat, paras: Seq<Seq<char>>)
    ensures
        paragraph_ends(m, size, limit, paras).len() == text_lines(m, size, limit, paras).len(),
        paras.len() > 0 ==> paragraph_ends(m, size, limit, paras).last(),
    decreases paras.len(),
{
    if paras.len() > 0 {
        lemma_paragraph_ends_len(m, size, limit, paras.drop_last());
        lemma_paragraph_lines_nonempty(m, size, limit, paras.last());
    }
}

/// The number of `true` flags.
pub open spec fn count_true(flags: Seq<bool>) -> nat
    decreases flags.len(),
{
    if flags.len() == 0 {
        0
    } else {
        count_true(flags.drop_last()) + if flags.last() {
            1nat
        } else {
            0nat
        }
    }
}

proof fn lemma_count_true_concat(a: Seq<bool>, b: Seq<bool>)
    ensures
        count_true(a + b) == count_true(a) + count_true(b),
    decreases b.len(),
{
    if b.len() == 0 {
        assert(a + b =~= a);
    } else {
        lemma_count_true_concat(a, b.drop_last());
        assert((a + b).drop_last() =~= a + b.drop_last());
    }
}

proof fn lemma_count_false_run(n: nat)
    ensures
        count_true(Seq::new(n, |i: int| false)) == 0,
    decreases n,
{
    if n > 0 {
        lemma_count_false_run((n - 1) as nat);
        assert(Seq::new(n, |i: int| false).drop_last() =~= Seq::new((n - 1) as nat, |i: int| false));
    }
}

proof fn lemma_paragraph_ends_count<M: FontMetrics>(m: &M, size: u32, limit: nat, paras: Seq<Seq<char>>)
    ensures
        count_true(paragraph_ends(m, size, limit, paras)) == paras.len(),
    decreases paras.len(),
{
    if paras.len() > 0 {
        lemma_paragraph_ends_count(m, size, limit, paras.drop_last());
        let n = paragraph_lines(m, size, limit, paras.last()).len();
        let run = Seq::new((n - 1) as nat, |i: int| false);
        lemma_count_false_run((n - 1) as nat);
        assert(run.push(true).drop_last() =~= run);
        lemma_count_true_concat(paragraph_ends(m, size, limit, paras.drop_last()), run.push(true));
    }
}

/// Exactly the last line of each paragraph is flagged: there are as many
/// `true` flags as paragraphs, one more than the text's line feeds.
pub proof fn lemma_flags_count_the_paragraphs<R: FontResolver>(r: &R, style: TextStyle, text: Seq<char>, max_width: i64)
    ensures
        count_true(wrapped_ends(r, style, text, max_width)) == split_on(text, '\n').len(),
{
    lemma_paragraph_ends_count(&r.metrics_of(style.font), style.size, width_limit(max_width), split_on(text, '\n'));
}

/// The paragraph-end flags come one per line, and the text's last line
/// always ends its paragraph.
proof fn lemma_flags_match_lines<M: FontMetrics>(m: &M, size: u32, text: Seq<char>, max_width: i64)
    ensures
        paragraph_ends(m, size, width_limit(max_width), split_on(text, '\n')).len() == text_lines(
            m,
            size,
            width_limit(max_width),
            split_on(text, '\n'),
        ).len(),
        paragraph_ends(m, size, width_limit(max_width), split_on(text, '\n')).last(),
{
    lemma_split_on_nonempty(text, '\n');
    lemma_paragraph_ends_len(m, size, width_limit(max_width), split_on(text, '\n'));
}

/// One word of a rich-text paragraph and the style it is drawn in.
#[derive(Clone, Debug)]
pub struct StyledWord {
    pub text: String,
    pub style: TextStyle,
}

/// One wrapped line of rich text. `height` is the size times the line
/// height of its tallest word, `ascent_pt` that of its highest ascent, in
/// millionths of a point; all words of the line share that baseline.
#[derive(Clone, Debug)]
pub struct RichLine {
    pub words: Vec<StyledWord>,
    pub height: u64,
    pub ascent_pt: i64,
}

/// A word and its style.
pub type Token = (Seq<char>, TextStyle);

/// The words of the spans, each with its span's style, in order.
pub open spec fn span_tokens(spans: Seq<Span>) -> Seq<Token>
    decreases spans.len(),
{
    if spans.len() == 0 {
        Seq::empty()
    } else {
        let last = spans.last();
        span_tokens(spans.drop_last()) + words_of(last.text@).map_values(|w: Seq<char>| (w, last.style))
    }
}

/// The width of `word` in style `st`, in millionths of a point.
pub open spec fn styled_width<R: FontResolver>(r: &R, word: Seq<char>, st: TextStyle) -> nat {
    width_of(&r.metrics_of(st.font), st.size, word)
}

/// Greedy wrapping of rich text after its first `k` words: the finished
/// lines, the line in progress and its width. A word goes on the line if
/// it fits after a space of its own style; otherwise it starts the next
/// line; a word wider than a whole line is broken between characters.
pub open spec fn rich_state<R: FontResolver>(r: &R, tokens: Seq<Token>, limit: nat, k: nat) -> (
    Seq<Seq<Token>>,
    Seq<Token>,
    nat,
)
    decreases k,
{
    if k == 0 {
        (Seq::empty(), Seq::empty(), 0)
    } else {
        let prev = rich_state(r, tokens, limit, (k - 1) as nat);
        let word = tokens[k - 1].0;
        let st = tokens[k - 1].1;
        let ww = styled_width(r, word, st);
        let gap = if prev.1.len() > 0 {
            styled_width(r, seq![' '], st)
        } else {
            0
        };
        let broke = prev.1.len() > 0 && prev.2 + gap + ww > limit;
        let lines = if broke {
            prev.0.push(prev.1)
        } else {
            prev.0
        };
        let cur = if broke {
            Seq::empty()
        } else {
            prev.1
        };
        let w = if broke {
            0
        } else {
            prev.2
        };
        if ww > limit && cur.len() == 0 {
            let pieces = hard_break_pieces(&r.metrics_of(st.font), st.size, word, limit);
            (
                lines + pieces.drop_last().map_values(|p: Seq<char>| seq![(p, st)]),
                seq![(pieces.last(), st)],
                styled_width(r, pieces.last(), st),
            )
        } else {
            let gap2 = if cur.len() > 0 {
                styled_width(r, seq![' '], st)
            } else {
                0
            };
            (lines, cur.push((word, st)), (w + gap2 + ww) as nat)
        }
    }
}

/// The words of each line of a rich-text paragraph: at least one line.
pub open spec fn rich_line_words<R: FontResolver>(r: &R, spans: Seq<Span>, limit: nat) -> Seq<Seq<Token>> {
    let tokens = span_tokens(spans);
    let st = rich_state(r, tokens, limit, tokens.len());
    if st.1.len() > 0 || st.0.len() == 0 {
        st.0.push(st.1)
    } else {
        st.0
    }
}

/// A word's line height: size times line height, in millionths of a point.
pub open spec fn style_height(st: TextStyle) -> int {
    st.size * st.line_height
}

/// A word's ascent in millionths of a point.
pub open spec fn style_ascent<R: FontResolver>(r: &R, st: TextStyle) -> int {
    r.metrics_of(st.font).ascent_of() * st.size
}

/// The tallest line height among the words of a line.
pub open spec fn max_height(words: Seq<Token>) -> int
    decreases words.len(),
{
    if words.len() <= 1 {
        style_height(words[0].1)
    } else {
        let h = max_height(words.drop_last());
        let last = style_height(words.last().1);
        if last > h {
            last
        } else {
            h
        }
    }
}

/// The highest ascent among the words of a line.
pub open spec fn max_ascent<R: FontResolver>(r: &R, words: Seq<Token>) -> int
    decreases words.len(),
{
    if words.len() <= 1 {
        style_ascent(r, words[0].1)
    } else {
        let a = max_ascent(r, words.drop_last());
        let last = style_ascent(r, words.last().1);
        if last > a {
            last
        } else {
            a
        }
    }
}

/// The view of a styled word.
pub open spec fn styled_word_view(w: StyledWord) -> Token {
    (w.text@, w.style)
}

/// The words of a line, viewed.
pub open spec fn line_tokens(words: Seq<StyledWord>) -> Seq<Token> {
    words.map_values(|w: StyledWord| styled_word_view(w))
}

/// The words of `spans`, each with its style, in order.
fn collect_tokens(spans: &Vec<Span>) -> (tokens: Vec<(Vec<char>, TextStyle)>)
    ensures
        tokens@.map_values(|t: (Vec<char>, TextStyle)| (t.0@, t.1)) == span_tokens(spans@),
{
    let mut tokens: Vec<(Vec<char>, TextStyle)> = Vec::new();
    let mut i: usize = 0;
    while i < spans.len()
        invariant
            i <= spans@.len(),
            tokens@.map_values(|t: (Vec<char>, TextStyle)| (t.0@, t.1)) == span_tokens(spans@.take(i as int)),
        decreases spans@.len() - i,
    {
        let ghost t0 = tokens@.map_values(|t: (Vec<char>, TextStyle)| (t.0@, t.1));
        let cs = chars_of(&spans[i].text);
        let style = spans[i].style;
        let words = split_words(&cs);
        let mut j: usize = 0;
        while j < words.len()
            invariant
                j <= words@.len(),
                char_views(words@) == words_of(cs@),
                tokens@.map_values(|t: (Vec<char>, TextStyle)| (t.0@, t.1)) == t0 + words_of(cs@).take(
                    j as int,
                ).map_values(|w: Seq<char>| (w, style)),
            decreases words@.len() - j,
        {
            let w = words[j].clone();
            assert(w@ == char_views(words@)[j as int]);
            let ghost before = tokens@.map_values(|t: (Vec<char>, TextStyle)| (t.0@, t.1));
            let ghost wv = w@;
            tokens.push((w, style));
            assert(tokens@.map_values(|t: (Vec<char>, TextStyle)| (t.0@, t.1)) =~= before.push((wv, style)));
            assert(words_of(cs@).take(j + 1).map_values(|w: Seq<char>| (w, style)) =~= words_of(cs@).take(
                j as int,
            ).map_values(|w: Seq<char>| (w, style)).push((wv, style)));
            j = j + 1;
            assert(tokens@.map_values(|t: (Vec<char>, TextStyle)| (t.0@, t.1)) =~= t0 + words_of(cs@).take(
                j as int,
            ).map_values(|w: Seq<char>| (w, style)));
        }
        assert(words_of(cs@).take(words@.len() as int) =~= words_of(cs@));
        assert(spans@.take(i + 1).drop_last() =~= spans@.take(i as int));
        i = i + 1;
    }
    assert(spans@.take(spans@.len() as int) =~= spans@);
    tokens
}

/// The views of words with their styles.
pub open spec fn token_views(v: Seq<(Vec<char>, TextStyle)>) -> Seq<Token> {
    v.map_values(|t: (Vec<char>, TextStyle)| (t.0@, t.1))
}

/// The views of lines of words with their styles.
pub open spec fn token_lines(v: Seq<Vec<(Vec<char>, TextStyle)>>) -> Seq<Seq<Token>> {
    v.map_values(|l: Vec<(Vec<char>, TextStyle)>| token_views(l@))
}

/// One character is at most the widest advance times the largest size.
proof fn lemma_fits_or_single_bound<M: FontMetrics>(m: &M, size: u32, limit: nat, s: Seq<char>)
    requires
        fits_or_single(m, size, limit, s),
    ensures
        width_of(m, size, s) <= limit + 0xffff_ffff_ffff_ffff,
{
    if s.len() <= 1 {
        lemma_advance_sum_bound(m, s);
        let a = advance_sum(m, s);
        assert(a * (size as nat) <= 0xffff_ffff * 0xffff_ffff) by (nonlinear_arith)
            requires
                a <= 0xffff_ffff,
                size <= 0xffff_ffff,
        ;
    }
}

/// The lines of a rich-text paragraph, as words with styles.
fn wrap_tokens<R: FontResolver>(r: &R, tokens: &Vec<(Vec<char>, TextStyle)>, limit: u128) -> (lines: Vec<
    Vec<(Vec<char>, TextStyle)>,
>)
    requires
        limit <= 0xffff_ffff_ffff_ffff * 1000,
    ensures
        token_lines(lines@) == ({
            let st = rich_state(r, token_views(tokens@), limit as nat, tokens@.len());
            if st.1.len() > 0 || st.0.len() == 0 {
                st.0.push(st.1)
            } else {
                st.0
            }
        }),
{
    let ghost toks = token_views(tokens@);
    let mut lines: Vec<Vec<(Vec<char>, TextStyle)>> = Vec::new();
    let mut current: Vec<(Vec<char>, TextStyle)> = Vec::new();
    let mut cw: u128 = 0;
    let mut space: Vec<char> = Vec::new();
    space.push(' ');
    assert(space@ =~= seq![' ']);
    let mut k: usize = 0;
    proof {
        assert(token_lines(lines@) =~= Seq::<Seq<Token>>::empty());
        assert(token_views(current@) =~= Seq::<Token>::empty());
    }
    while k < tokens.len()
        invariant
            k <= tokens@.len(),
            toks == token_views(tokens@),
            space@ == seq![' '],
            limit <= 0xffff_ffff_ffff_ffff * 1000,
            (token_lines(lines@), token_views(current@), cw as nat) == rich_state(r, toks, limit as nat, k as nat),
            cw <= limit + 0xffff_ffff_ffff_ffff,
            current@.len() == 0 ==> cw == 0,
        decreases tokens@.len() - k,
    {
        let ghost prev = rich_state(r, toks, limit as nat, k as nat);
        let word = tokens[k].0.clone();
        let st = tokens[k].1;
        assert(word@ == toks[k as int].0);
        assert(st == toks[k as int].1);
        let m = r.metrics(st.font);
        let ww = measure(m, st.size, &word);
        let sw = measure(m, st.size, &space);
        proof {
            lemma_advance_sum_bound(m, seq![' ']);
            let a = advance_sum(m, seq![' ']);
            assert(a * (st.size as nat) <= 0xffff_ffff * 0xffff_ffff) by (nonlinear_arith)
                requires
                    a <= 0xffff_ffff,
                    st.size <= 0xffff_ffff,
            ;
        }
        let gap: u128 = if current.len() > 0 {
            sw
        } else {
            0
        };
        let over = current.len() > 0 && (cw + gap > limit || ww > limit - (cw + gap));
        let ghost lines_v0 = token_lines(lines@);
        if over {
            lines.push(current);
            assert(token_lines(lines@) =~= lines_v0.push(prev.1));
            current = Vec::new();
            cw = 0;
            assert(token_views(current@) =~= Seq::<Token>::empty());
        }
        let ghost lines_v1 = token_lines(lines@);
        let ghost cur_v1 = token_views(current@);
        if ww > limit && current.len() == 0 {
            let mut pieces = hard_break_word(m, st.size, &word, limit);
            let ghost all = char_views(pieces@);
            proof {
                lemma_hard_break_pieces_fit(m, st.size, word@, limit as nat);
            }
            let last = pieces.pop().unwrap();
            assert(char_views(pieces@) =~= all.drop_last());
            let mut j: usize = 0;
            while j < pieces.len()
                invariant
                    j <= pieces@.len(),
                    char_views(pieces@) == all.drop_last(),
                    token_lines(lines@) == lines_v1 + all.drop_last().take(j as int).map_values(
                        |p: Seq<char>| seq![(p, st)],
                    ),
                decreases pieces@.len() - j,
            {
                let p = pieces[j].clone();
                assert(p@ == char_views(pieces@)[j as int]);
                let mut one: Vec<(Vec<char>, TextStyle)> = Vec::new();
                let ghost pv = p@;
                one.push((p, st));
                assert(token_views(one@) =~= seq![(pv, st)]);
                let ghost before = token_lines(lines@);
                lines.push(one);
                assert(token_lines(lines@) =~= before.push(seq![(pv, st)]));
                j = j + 1;
                assert(all.drop_last().take(j as int).map_values(|p: Seq<char>| seq![(p, st)]) =~= all.drop_last().take(
                    j - 1,
                ).map_values(|p: Seq<char>| seq![(p, st)]).push(seq![(pv, st)]));
            }
            assert(all.drop_last().take(pieces@.len() as int) =~= all.drop_last());
            cw = measure(m, st.size, &last);
            proof {
                assert(last@ == all[all.len() - 1]);
                assert(fits_or_single(m, st.size, limit as nat, hard_break_pieces(m, st.size, word@, limit as nat)[all.len() - 1]));
                lemma_fits_or_single_bound(m, st.size, limit as nat, last@);
            }
            let ghost lv = last@;
            current = Vec::new();
            current.push((last, st));
            assert(token_views(current@) =~= seq![(lv, st)]);
        } else {
            let gap2: u128 = if current.len() > 0 {
                sw
            } else {
                0
            };
            cw = cw + gap2 + ww;
            let ghost wv = word@;
            let ghost c0 = token_views(current@);
            current.push((word, st));
            assert(token_views(current@) =~= c0.push((wv, st)));
        }
        k = k + 1;
    }
    let ghost fin = rich_state(r, toks, limit as nat, tokens@.len());
    if current.len() > 0 || lines.len() == 0 {
        let ghost lv = token_lines(lines@);
        let ghost cv = token_views(current@);
        lines.push(current);
        assert(token_lines(lines@) =~= lv.push(cv));
    }
    lines
}

fn height_of(st: TextStyle) -> (h: u64)
    ensures
        h == style_height(st),
{
    assert(st.size * st.line_height <= 0xffff_ffff * 0xffff_ffff) by (nonlinear_arith)
        requires
            st.size <= 0xffff_ffff,
            st.line_height <= 0xffff_ffff,
    ;
    st.size as u64 * st.line_height as u64
}

fn scaled_ascent(a: i32, size: u32) -> (s: i64)
    ensures
        s == a * size,
{
    assert(-0x8000_0000 * 0xffff_ffff <= a * size <= 0x7fff_ffff * 0xffff_ffff) by (nonlinear_arith)
        requires
            -0x8000_0000 <= a <= 0x7fff_ffff,
            0 <= size <= 0xffff_ffff,
    ;
    a as i64 * size as i64
}

/// A line of words with styles as a `RichLine`: each word as a string,
/// the tallest line height and the highest ascent; a line without words
/// takes both from `fallback`.
fn rich_line<R: FontResolver>(r: &R, words: &Vec<(Vec<char>, TextStyle)>, fallback: TextStyle) -> (line: RichLine)
    ensures
        line_tokens(line.words@) == token_views(words@),
        words@.len() > 0 ==> line.height == max_height(token_views(words@)) && line.ascent_pt == max_ascent(
            r,
            token_views(words@),
        ),
        words@.len() == 0 ==> line.height == style_height(fallback) && line.ascent_pt == style_ascent(r, fallback),
{
    let ghost tv = token_views(words@);
    let mut out: Vec<StyledWord> = Vec::new();
    let fm = r.metrics(fallback.font);
    let mut height: u64 = height_of(fallback);
    let mut ascent: i64 = scaled_ascent(fm.ascent(), fallback.size);
    let mut i: usize = 0;
    while i < words.len()
        invariant
            i <= words@.len(),
            tv == token_views(words@),
            line_tokens(out@) == tv.take(i as int),
            i == 0 ==> height == style_height(fallback) && ascent == style_ascent(r, fallback),
            i > 0 ==> height == max_height(tv.take(i as int)) && ascent == max_ascent(r, tv.take(i as int)),
        decreases words@.len() - i,
    {
        let text = words[i].0.clone();
        let st = words[i].1;
        assert(text@ == tv[i as int].0 && st == tv[i as int].1);
        let h: u64 = height_of(st);
        let m = r.metrics(st.font);
        let a: i64 = scaled_ascent(m.ascent(), st.size);
        assert(tv.take(i + 1).drop_last() =~= tv.take(i as int));
        assert(tv.take(i + 1).last() == tv[i as int]);
        if i == 0 {
            height = h;
            ascent = a;
        } else {
            if h > height {
                height = h;
            }
            if a > ascent {
                ascent = a;
            }
        }
        let ghost o0 = line_tokens(out@);
        let sw = StyledWord { text: string_from_chars(text), style: st };
        let ghost swv = styled_word_view(sw);
        out.push(sw);
        assert(line_tokens(out@) =~= o0.push(swv));
        i = i + 1;
        assert(line_tokens(out@) =~= tv.take(i as int));
    }
    assert(tv.take(words@.len() as int) =~= tv);
    RichLine { words: out, height, ascent_pt: ascent }
}

/// The style a line without words takes its height from: the first
/// span's, or the default style.
pub open spec fn fallback_style(spans: Seq<Span>, default: TextStyle) -> TextStyle {
    if spans.len() > 0 {
        spans[0].style
    } else {
        default
    }
}

/// The default style, as `TextStyle::default` gives it.
pub open spec fn is_default_style(st: TextStyle) -> bool {
    &&& st.font.0@ == "sans-regular"@
    &&& st.size == 12_000
    &&& st.line_height == 1200
}

/// Wraps a rich-text paragraph to `max_width` (thousandths of a point):
/// the same greedy rule as `wrap_text`, over words that each keep their
/// span's style, a space measured in the style of the word after it. No
/// paragraph breaks. Each line's height and ascent come from its tallest
/// word; a paragraph without words gives one empty line measured in the
/// first span's style, or the default style.
pub fn wrap_spans<R: FontResolver>(r: &R, spans: &Vec<Span>, max_width: i64) -> (lines: Vec<RichLine>)
    ensures
        lines@.len() == rich_line_words(r, spans@, width_limit(max_width)).len(),
        forall|i: int|
            0 <= i < lines@.len() ==> line_tokens(#[trigger] lines@[i].words@) == rich_line_words(
                r,
                spans@,
                width_limit(max_width),
            )[i],
        forall|i: int|
            0 <= i < lines@.len() && lines@[i].words@.len() > 0 ==> (#[trigger] lines@[i]).height == max_height(
                rich_line_words(r, spans@, width_limit(max_width))[i],
            ) && lines@[i].ascent_pt == max_ascent(r, rich_line_words(r, spans@, width_limit(max_width))[i]),
        exists|d: TextStyle|
            is_default_style(d) && forall|i: int|
                0 <= i < lines@.len() && lines@[i].words@.len() == 0 ==> (#[trigger] lines@[i]).height
                    == style_height(fallback_style(spans@, d)) && lines@[i].ascent_pt == style_ascent(
                    r,
                    fallback_style(spans@, d),
                ),
{
    let limit: u128 = if max_width > 0 {
        max_width as u128 * 1000
    } else {
        0
    };
    assert(limit as nat == width_limit(max_width));
    let tokens = collect_tokens(spans);
    assert(token_views(tokens@) == span_tokens(spans@));
    let rows = wrap_tokens(r, &tokens, limit);
    let ghost want = rich_line_words(r, spans@, width_limit(max_width));
    assert(token_lines(rows@) == want);
    let dflt = TextStyle::default();
    let ghost d = dflt;
    let fallback = if spans.len() > 0 {
        spans[0].style
    } else {
        dflt
    };
    let mut lines: Vec<RichLine> = Vec::new();
    let mut i: usize = 0;
    while i < rows.len()
        invariant
            i <= rows@.len(),
            token_lines(rows@) == want,
            fallback == fallback_style(spans@, d),
            lines@.len() == i,
            forall|j: int| 0 <= j < i ==> line_tokens(#[trigger] lines@[j].words@) == want[j],
            forall|j: int|
                0 <= j < i && lines@[j].words@.len() > 0 ==> (#[trigger] lines@[j]).height == max_height(want[j])
                    && lines@[j].ascent_pt == max_ascent(r, want[j]),
            forall|j: int|
                0 <= j < i && lines@[j].words@.len() == 0 ==> (#[trigger] lines@[j]).height == style_height(
                    fallback,
                ) && lines@[j].ascent_pt == style_ascent(r, fallback),
        decreases rows@.len() - i,
    {
        let line = rich_line(r, &rows[i], fallback);
        assert(token_views(rows@[i as int]@) == want[i as int]);
        lines.push(line);
        i = i + 1;
    }
    assert(is_default_style(d));
    lines
}

/// Wrapped text never runs past the edge: every line fits the width,
/// but for a single character wider than the line by itself. This needs
/// the hyphen that a soft-hyphen break adds to have a width.
pub proof fn lemma_wrapped_lines_fit<R: FontResolver>(r: &R, style: TextStyle, text: Seq<char>, max_width: i64)
    requires
        r.metrics_of(style.font).advance_of('-') > 0,
    ensures
        forall|j: int|
            0 <= j < wrapped_lines(r, style, text, max_width).len() ==> fits_or_single(
                &r.metrics_of(style.font),
                style.size,
                width_limit(max_width),
                #[trigger] wrapped_lines(r, style, text, max_width)[j],
            ),
{
    lemma_lines_fit(&r.metrics_of(style.font), style.size, text, max_width);
}

/// Wrapping never loses or invents text: leaving out spaces, hyphens,
/// soft hyphens and line feeds, the lines hold exactly the characters of
/// the text, in order.
pub proof fn lemma_wrapping_keeps_the_text<R: FontResolver>(r: &R, style: TextStyle, text: Seq<char>, max_width: i64)
    ensures
        kept_lines(wrapped_lines(r, style, text, max_width)) == kept(text),
{
    lemma_lines_keep_the_text(&r.metrics_of(style.font), style.size, text, max_width);
}

/// The paragraph-end flags come one per line, and the text's last line
/// always ends its paragraph.
pub proof fn lemma_one_flag_per_line<R: FontResolver>(r: &R, style: TextStyle, text: Seq<char>, max_width: i64)
    ensures
        wrapped_ends(r, style, text, max_width).len() == wrapped_lines(r, style, text, max_width).len(),
        wrapped_ends(r, style, text, max_width).last(),
{
    lemma_flags_match_lines(&r.metrics_of(style.font), style.size, text, max_width);
}

/// The width of the widest of `lines`.
pub open spec fn widest<M: FontMetrics>(m: &M, size: u32, lines: Seq<Seq<char>>) -> nat
    decreases lines.len(),
{
    if lines.len() == 0 {
        0
    } else {
        let w = widest(m, size, lines.drop_last());
        let last = width_of(m, size, lines.last());
        if last > w {
            last
        } else {
            w
        }
    }
}

/// Measures `text` wrapped to `max_width` in `style`: the widest line,
/// the number of lines times the style's line height, and the number of
/// lines.
pub fn measure_text<R: FontResolver>(r: &R, text: &str, style: &TextStyle, max_width: i64) -> (t: TextMeasurement)
    ensures
        t.lines == wrapped_lines(r, *style, text@, max_width).len(),
        t.width == widest(&r.metrics_of(style.font), style.size, wrapped_lines(r, *style, text@, max_width)),
        t.height == wrapped_lines(r, *style, text@, max_width).len() * style_height(*style),
{
    let lines = wrap_text(r, style, text, max_width);
    let ghost lv = wrapped_lines(r, *style, text@, max_width);
    let ghost m = r.metrics_of(style.font);
    let mut width: u128 = 0;
    let mut i: usize = 0;
    while i < lines.len()
        invariant
            i <= lines@.len(),
            string_views(lines@) == lv,
            m == r.metrics_of(style.font),
            width == widest(&m, style.size, lv.take(i as int)),
        decreases lines@.len() - i,
    {
        let w = text_width_pt(r, style.font, style.size, &lines[i]);
        assert(lines@[i as int]@ == lv[i as int]);
        assert(lv.take(i + 1).drop_last() =~= lv.take(i as int));
        if w > width {
            width = w;
        }
        i = i + 1;
    }
    assert(lv.take(lines@.len() as int) =~= lv);
    let h = height_of(*style);
    let n = lines.len();
    assert(n * h <= 0xffff_ffff_ffff_ffff * 0xffff_ffff_ffff_ffff) by (nonlinear_arith)
        requires
            n <= 0xffff_ffff_ffff_ffff,
            h <= 0xffff_ffff_ffff_ffff,
    ;
    TextMeasurement { width, height: n as u128 * h as u128, lines: n }
}

/// The first `n` characters of `line` and an ellipsis, for the largest
/// `n` up to `k` at which that fits `limit`; just the ellipsis if none.
pub open spec fn ellipsis_fit<M: FontMetrics>(m: &M, size: u32, line: Seq<char>, limit: nat, k: nat) -> Seq<char>
    decreases k,
{
    let candidate = line.take(k as int).push('\u{2026}');
    if width_of(m, size, candidate) <= limit || k == 0 {
        candidate
    } else {
        ellipsis_fit(m, size, line, limit, (k - 1) as nat)
    }
}

/// Cuts `line` from the end, a character at a time, until it fits
/// `max_width` (thousandths of a point) with an ellipsis after it; gives
/// it with the ellipsis.
pub fn fit_with_ellipsis<R: FontResolver>(r: &R, style: &TextStyle, line: &str, max_width: i64) -> (s: String)
    ensures
        s@ == ellipsis_fit(&r.metrics_of(style.font), style.size, line@, width_limit(max_width), line@.len()),
{
    let m = r.metrics(style.font);
    let limit: u128 = if max_width > 0 {
        max_width as u128 * 1000
    } else {
        0
    };
    assert(limit as nat == width_limit(max_width));
    let mut chars = chars_of(line);
    let ghost full = chars@;
    loop
        invariant
            chars@ == full.take(chars@.len() as int),
            chars@.len() <= full.len(),
            full == line@,
            *m == r.metrics_of(style.font),
            limit as nat == width_limit(max_width),
            ellipsis_fit(m, style.size, full, limit as nat, full.len()) == ellipsis_fit(
                m,
                style.size,
                full,
                limit as nat,
                chars@.len() as nat,
            ),
        decreases chars@.len(),
    {
        let mut candidate = chars.clone();
        candidate.push('\u{2026}');
        assert(candidate@ == full.take(chars@.len() as int).push('\u{2026}'));
        if measure(m, style.size, &candidate) <= limit || chars.len() == 0 {
            assert(ellipsis_fit(m, style.size, full, limit as nat, chars@.len() as nat) == candidate@);
            return string_from_chars(candidate);
        }
        let ghost before = chars@;
        chars.pop();
        assert(chars@ =~= full.take(chars@.len() as int));
    }
}

/// An ellipsis cut fits the width, unless even the ellipsis alone does not.
pub proof fn lemma_ellipsis_fits<M: FontMetrics>(m: &M, size: u32, line: Seq<char>, limit: nat, k: nat)
    ensures
        width_of(m, size, ellipsis_fit(m, size, line, limit, k)) <= limit || ellipsis_fit(m, size, line, limit, k)
            == line.take(0).push('\u{2026}'),
    decreases k,
{
    if k > 0 {
        lemma_ellipsis_fits(m, size, line, limit, (k - 1) as nat);
    }
}

/// The width of a line of rich text: its words, each with the space
/// before it measured in that word's style.
pub open spec fn rich_width<R: FontResolver>(r: &R, line: Seq<Token>) -> nat
    decreases line.len(),
{
    if line.len() == 0 {
        0
    } else if line.len() == 1 {
        styled_width(r, line[0].0, line[0].1)
    } else {
        rich_width(r, line.drop_last()) + styled_width(r, seq![' '], line.last().1) + styled_width(
            r,
            line.last().0,
            line.last().1,
        )
    }
}

/// A line of rich text that fits `limit`, or a single one-character
/// piece of a word wider than the line.
pub open spec fn rich_fits<R: FontResolver>(r: &R, limit: nat, line: Seq<Token>) -> bool {
    rich_width(r, line) <= limit || (line.len() == 1 && line[0].0.len() <= 1)
}

proof fn lemma_rich_state_fits<R: FontResolver>(r: &R, tokens: Seq<Token>, limit: nat, k: nat)
    requires
        k <= tokens.len(),
    ensures
        rich_state(r, tokens, limit, k).2 == rich_width(r, rich_state(r, tokens, limit, k).1),
        rich_fits(r, limit, rich_state(r, tokens, limit, k).1),
        forall|j: int|
            0 <= j < rich_state(r, tokens, limit, k).0.len() ==> rich_fits(
                r,
                limit,
                #[trigger] rich_state(r, tokens, limit, k).0[j],
            ),
    decreases k,
{
    if k > 0 {
        lemma_rich_state_fits(r, tokens, limit, (k - 1) as nat);
        let prev = rich_state(r, tokens, limit, (k - 1) as nat);
        let word = tokens[k - 1].0;
        let st = tokens[k - 1].1;
        let ww = styled_width(r, word, st);
        let gap = if prev.1.len() > 0 {
            styled_width(r, seq![' '], st)
        } else {
            0
        };
        let broke = prev.1.len() > 0 && prev.2 + gap + ww > limit;
        let lines = if broke {
            prev.0.push(prev.1)
        } else {
            prev.0
        };
        let cur = if broke {
            Seq::<Token>::empty()
        } else {
            prev.1
        };
        let cur_state = rich_state(r, tokens, limit, k);
        assert forall|j: int| 0 <= j < lines.len() implies rich_fits(r, limit, #[trigger] lines[j]) by {
            if broke && j == prev.0.len() {
                assert(lines[j] == prev.1);
            } else {
                assert(lines[j] == prev.0[j]);
            }
        }
        if ww > limit && cur.len() == 0 {
            let m = r.metrics_of(st.font);
            let pieces = hard_break_pieces(&m, st.size, word, limit);
            lemma_hard_break_pieces_fit(&m, st.size, word, limit);
            let singles = pieces.drop_last().map_values(|p: Seq<char>| seq![(p, st)]);
            assert forall|j: int| 0 <= j < cur_state.0.len() implies rich_fits(r, limit, #[trigger] cur_state.0[j]) by {
                assert(cur_state.0 == lines + singles);
                if j < lines.len() {
                    assert(cur_state.0[j] == lines[j]);
                } else {
                    let i = j - lines.len();
                    assert(cur_state.0[j] == singles[i]);
                    assert(singles[i] == seq![(pieces[i], st)]);
                    assert(fits_or_single(&m, st.size, limit, pieces[i]));
                }
            }
            assert(fits_or_single(&m, st.size, limit, pieces[pieces.len() - 1]));
        } else {
            let line = cur.push((word, st));
            assert(line.drop_last() =~= cur);
            if cur.len() == 0 {
                assert(rich_width(r, cur) == 0);
            }
        }
    }
}

/// Rich text never runs past the edge either: every line, its words and
/// the spaces between them measured in their own styles, fits the width,
/// but for a single character wider than the line by itself.
pub proof fn lemma_rich_lines_fit<R: FontResolver>(r: &R, spans: Seq<Span>, max_width: i64)
    ensures
        forall|j: int|
            0 <= j < rich_line_words(r, spans, width_limit(max_width)).len() ==> rich_fits(
                r,
                width_limit(max_width),
                #[trigger] rich_line_words(r, spans, width_limit(max_width))[j],
            ),
{
    let tokens = span_tokens(spans);
    let limit = width_limit(max_width);
    lemma_rich_state_fits(r, tokens, limit, tokens.len());
    let st = rich_state(r, tokens, limit, tokens.len());
    let lines = rich_line_words(r, spans, limit);
    assert forall|j: int| 0 <= j < lines.len() implies rich_fits(r, limit, #[trigger] lines[j]) by {
        if j < st.0.len() {
            assert(lines[j] == st.0[j]);
        } else {
            assert(lines[j] == st.1);
        }
    }
}

/// Pieces put back together.
pub open spec fn concat_all(ps: Seq<Seq<char>>) -> Seq<char>
    decreases ps.len(),
{
    if ps.len() == 0 {
        Seq::empty()
    } else {
        concat_all(ps.drop_last()) + ps.last()
    }
}

/// The characters of words, one word after the other.
pub open spec fn token_chars(toks: Seq<Token>) -> Seq<char>
    decreases toks.len(),
{
    if toks.len() == 0 {
        Seq::empty()
    } else {
        token_chars(toks.drop_last()) + toks.last().0
    }
}

/// The characters of the words of lines of rich text, in order.
pub open spec fn rich_chars(lines: Seq<Seq<Token>>) -> Seq<char>
    decreases lines.len(),
{
    if lines.len() == 0 {
        Seq::empty()
    } else {
        rich_chars(lines.drop_last()) + token_chars(lines.last())
    }
}

proof fn lemma_hard_break_state_chars<M: FontMetrics>(m: &M, size: u32, word: Seq<char>, limit: nat, k: nat)
    requires
        k <= word.len(),
    ensures
        concat_all(hard_break_state(m, size, word, limit, k).0) + hard_break_state(m, size, word, limit, k).1
            == word.take(k as int),
    decreases k,
{
    if k == 0 {
        assert(word.take(0) =~= Seq::<char>::empty());
        assert(Seq::<char>::empty() + Seq::<char>::empty() =~= Seq::<char>::empty());
    } else {
        lemma_hard_break_state_chars(m, size, word, limit, (k - 1) as nat);
        let prev = hard_break_state(m, size, word, limit, (k - 1) as nat);
        let ch = word[k - 1];
        assert(word.take(k as int) =~= word.take(k - 1).push(ch));
        if width_of(m, size, prev.1.push(ch)) > limit && prev.1.len() > 0 {
            assert(prev.0.push(prev.1).drop_last() =~= prev.0);
            assert(concat_all(prev.0.push(prev.1)) + seq![ch] =~= (concat_all(prev.0) + prev.1).push(ch));
        } else {
            assert(concat_all(prev.0) + prev.1.push(ch) =~= (concat_all(prev.0) + prev.1).push(ch));
        }
    }
}

proof fn lemma_hard_break_pieces_chars<M: FontMetrics>(m: &M, size: u32, word: Seq<char>, limit: nat)
    ensures
        concat_all(hard_break_pieces(m, size, word, limit)) == word,
{
    lemma_hard_break_state_chars(m, size, word, limit, word.len());
    assert(word.take(word.len() as int) =~= word);
    let st = hard_break_state(m, size, word, limit, word.len());
    if st.1.len() > 0 || st.0.len() == 0 {
        assert(st.0.push(st.1).drop_last() =~= st.0);
    } else {
        assert(concat_all(st.0) + st.1 =~= concat_all(st.0));
    }
}

proof fn lemma_rich_chars_concat(a: Seq<Seq<Token>>, b: Seq<Seq<Token>>)
    ensures
        rich_chars(a + b) == rich_chars(a) + rich_chars(b),
    decreases b.len(),
{
    if b.len() == 0 {
        assert(a + b =~= a);
        assert(rich_chars(a) + rich_chars(b) =~= rich_chars(a));
    } else {
        lemma_rich_chars_concat(a, b.drop_last());
        assert((a + b).drop_last() =~= a + b.drop_last());
        assert(rich_chars(a) + (rich_chars(b.drop_last()) + token_chars(b.last())) =~= (rich_chars(a) + rich_chars(
            b.drop_last(),
        )) + token_chars(b.last()));
    }
}

proof fn lemma_rich_chars_singles(ps: Seq<Seq<char>>, st: TextStyle)
    ensures
        rich_chars(ps.map_values(|p: Seq<char>| seq![(p, st)])) == concat_all(ps),
    decreases ps.len(),
{
    if ps.len() > 0 {
        lemma_rich_chars_singles(ps.drop_last(), st);
        assert(ps.map_values(|p: Seq<char>| seq![(p, st)]).drop_last() =~= ps.drop_last().map_values(
            |p: Seq<char>| seq![(p, st)],
        ));
        let one: Seq<Token> = seq![(ps.last(), st)];
        assert(one.drop_last() =~= Seq::<Token>::empty());
        assert(token_chars(Seq::<Token>::empty()) =~= Seq::<char>::empty());
        assert(token_chars(one) =~= ps.last());
    } else {
        assert(ps.map_values(|p: Seq<char>| seq![(p, st)]) =~= Seq::<Seq<Token>>::empty());
    }
}

proof fn lemma_rich_state_chars<R: FontResolver>(r: &R, tokens: Seq<Token>, limit: nat, k: nat)
    requires
        k <= tokens.len(),
    ensures
        rich_chars(rich_state(r, tokens, limit, k).0) + token_chars(rich_state(r, tokens, limit, k).1) == token_chars(
            tokens.take(k as int),
        ),
    decreases k,
{
    if k == 0 {
        assert(tokens.take(0) =~= Seq::<Token>::empty());
        assert(Seq::<char>::empty() + Seq::<char>::empty() =~= Seq::<char>::empty());
    } else {
        lemma_rich_state_chars(r, tokens, limit, (k - 1) as nat);
        let prev = rich_state(r, tokens, limit, (k - 1) as nat);
        let word = tokens[k - 1].0;
        let st = tokens[k - 1].1;
        assert(tokens.take(k as int).drop_last() =~= tokens.take(k - 1));
        assert(tokens.take(k as int).last() == tokens[k - 1]);
        let ww = styled_width(r, word, st);
        let gap = if prev.1.len() > 0 {
            styled_width(r, seq![' '], st)
        } else {
            0
        };
        let broke = prev.1.len() > 0 && prev.2 + gap + ww > limit;
        let lines = if broke {
            prev.0.push(prev.1)
        } else {
            prev.0
        };
        let cur = if broke {
            Seq::<Token>::empty()
        } else {
            prev.1
        };
        if broke {
            assert(prev.0.push(prev.1).drop_last() =~= prev.0);
            assert(token_chars(Seq::<Token>::empty()) =~= Seq::<char>::empty());
        }
        assert(rich_chars(lines) + token_chars(cur) =~= rich_chars(prev.0) + token_chars(prev.1));
        if ww > limit && cur.len() == 0 {
            let m = r.metrics_of(st.font);
            let pieces = hard_break_pieces(&m, st.size, word, limit);
            lemma_hard_break_pieces_fit(&m, st.size, word, limit);
            lemma_hard_break_pieces_chars(&m, st.size, word, limit);
            let singles = pieces.drop_last().map_values(|p: Seq<char>| seq![(p, st)]);
            lemma_rich_chars_concat(lines, singles);
            lemma_rich_chars_singles(pieces.drop_last(), st);
            let one: Seq<Token> = seq![(pieces.last(), st)];
            assert(one.drop_last() =~= Seq::<Token>::empty());
            assert(token_chars(Seq::<Token>::empty()) =~= Seq::<char>::empty());
            assert(token_chars(one) =~= pieces.last());
            assert(token_chars(cur) =~= Seq::<char>::empty());
            assert(rich_chars(lines) + concat_all(pieces.drop_last()) + pieces.last() =~= rich_chars(lines) + concat_all(
                pieces,
            ));
        } else {
            let line = cur.push((word, st));
            assert(line.drop_last() =~= cur);
            assert(rich_chars(lines) + (token_chars(cur) + word) =~= (rich_chars(lines) + token_chars(cur)) + word);
        }
    }
}

/// Rich-text wrapping keeps every word, whole or as pieces of a word
/// wider than the line: the lines' words, one after the other, spell out
/// the spans' words.
pub proof fn lemma_rich_wrapping_keeps_the_words<R: FontResolver>(r: &R, spans: Seq<Span>, max_width: i64)
    ensures
        rich_chars(rich_line_words(r, spans, width_limit(max_width))) == token_chars(span_tokens(spans)),
{
    let tokens = span_tokens(spans);
    let limit = width_limit(max_width);
    lemma_rich_state_chars(r, tokens, limit, tokens.len());
    assert(tokens.take(tokens.len() as int) =~= tokens);
    let st = rich_state(r, tokens, limit, tokens.len());
    if st.1.len() > 0 || st.0.len() == 0 {
        assert(st.0.push(st.1).drop_last() =~= st.0);
    } else {
        assert(token_chars(st.1) =~= Seq::<char>::empty());
        assert(rich_chars(st.0) + Seq::<char>::empty() =~= rich_chars(st.0));
    }
}

} // verus!
