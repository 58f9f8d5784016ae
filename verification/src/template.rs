//! Template + data → document JSON, resolved on the parsed JSON trees.
//!
//! - `"{{path.to.value}}"` inside a string is replaced by looking `path`
//!   up in the data. A string that is exactly one placeholder (nothing but
//!   whitespace around it) becomes the data value itself, type and all; a
//!   placeholder embedded in more text always produces a string.
//! - `{"$each": "path.to.array", "template": <value>}` as an array element
//!   expands to one copy of `template` per element of the array at `path`,
//!   each resolved with its element as the innermost scope (its own fields
//!   first, then the enclosing scopes). `{{.}}` is the innermost scope
//!   itself.
//!
//! Parsing and printing JSON text happen outside this module; here a
//! template is a `JsonValue` and the data a `DataValue`, which also
//! carries, for each array and object, its compact JSON text (what a
//! placeholder embedded in text prints for it).

use vstd::prelude::*;
use crate::layout::hyphenate::{is_whitespace, unicode_whitespace};
use crate::style::MissingPlaceholder;
use crate::text::{chars_of, push_all, string_from_chars};

verus! {

/// A JSON value of a template, or the result of resolving one.
#[derive(Debug)]
pub enum JsonValue {
    Null,
    Bool(bool),
    /// A number, as its JSON text.
    Number(String),
    String(String),
    Array(Vec<JsonValue>),
    /// The entries in order; keys are distinct.
    Object(Vec<(String, JsonValue)>),
}

/// A JSON value of the data a template is resolved against.
#[derive(Debug)]
pub enum DataValue {
    Null,
    Bool(bool),
    /// A number, as its JSON text.
    Number(String),
    String(String),
    /// The items, and the array's compact JSON text.
    Array(Vec<DataValue>, String),
    /// The entries in order (keys distinct), and the object's compact JSON
    /// text.
    Object(Vec<(String, DataValue)>, String),
}

/// A JSON value as a mathematical tree.
pub enum JsonView {
    Null,
    Bool(bool),
    Number(Seq<char>),
    Str(Seq<char>),
    Array(Seq<JsonView>),
    Object(Seq<(Seq<char>, JsonView)>),
}

/// The tree a `JsonValue` stands for.
pub open spec fn json_view(v: JsonValue) -> JsonView
    decreases v, 0nat,
{
    match v {
        JsonValue::Null => JsonView::Null,
        JsonValue::Bool(b) => JsonView::Bool(b),
        JsonValue::Number(t) => JsonView::Number(t@),
        JsonValue::String(s) => JsonView::Str(s@),
        JsonValue::Array(items) => JsonView::Array(json_views(items@, items@.len())),
        JsonValue::Object(entries) => JsonView::Object(json_entry_views(entries@, entries@.len())),
    }
}

/// The trees of the first `k` items.
pub open spec fn json_views(items: Seq<JsonValue>, k: nat) -> Seq<JsonView>
    decreases items, k,
{
    if k == 0 || k > items.len() {
        Seq::empty()
    } else {
        json_views(items, (k - 1) as nat).push(json_view(items[k - 1]))
    }
}

/// The first `k` entries, as keys and trees.
pub open spec fn json_entry_views(entries: Seq<(String, JsonValue)>, k: nat) -> Seq<(Seq<char>, JsonView)>
    decreases entries, k,
{
    if k == 0 || k > entries.len() {
        Seq::empty()
    } else {
        json_entry_views(entries, (k - 1) as nat).push((entries[k - 1].0@, json_view(entries[k - 1].1)))
    }
}

impl View for JsonValue {
    type V = JsonView;

    open spec fn view(&self) -> JsonView {
        json_view(*self)
    }
}

/// The tree a data value stands for (its JSON texts dropped).
pub open spec fn data_json(v: DataValue) -> JsonView
    decreases v, 0nat,
{
    match v {
        DataValue::Null => JsonView::Null,
        DataValue::Bool(b) => JsonView::Bool(b),
        DataValue::Number(t) => JsonView::Number(t@),
        DataValue::String(s) => JsonView::Str(s@),
        DataValue::Array(items, _) => JsonView::Array(data_views(items@, items@.len())),
        DataValue::Object(entries, _) => JsonView::Object(data_entry_views(entries@, entries@.len())),
    }
}

/// The trees of the first `k` data items.
pub open spec fn data_views(items: Seq<DataValue>, k: nat) -> Seq<JsonView>
    decreases items, k,
{
    if k == 0 || k > items.len() {
        Seq::empty()
    } else {
        data_views(items, (k - 1) as nat).push(data_json(items[k - 1]))
    }
}

/// The first `k` data entries, as keys and trees.
pub open spec fn data_entry_views(entries: Seq<(String, DataValue)>, k: nat) -> Seq<(Seq<char>, JsonView)>
    decreases entries, k,
{
    if k == 0 || k > entries.len() {
        Seq::empty()
    } else {
        data_entry_views(entries, (k - 1) as nat).push((entries[k - 1].0@, data_json(entries[k - 1].1)))
    }
}

/// Why a template could not be resolved.
#[derive(Debug)]
pub enum TemplateError {
    /// `{{path}}` resolved in no scope.
    MissingPlaceholder(String),
    /// `$each`'s path did not resolve to an array.
    InvalidEachTarget(String),
}

/// A resolution failure, with the path it names.
pub enum TemplateFault {
    Missing(Seq<char>),
    NotAnArray(Seq<char>),
}

/// The failure a `TemplateError` reports.
pub open spec fn fault(e: TemplateError) -> TemplateFault {
    match e {
        TemplateError::MissingPlaceholder(p) => TemplateFault::Missing(p@),
        TemplateError::InvalidEachTarget(p) => TemplateFault::NotAnArray(p@),
    }
}

/// What `format!("{:?}", s)` gives for a string slice: the text in double
/// quotes, with quotes, backslashes and unprintable characters escaped.
pub uninterp spec fn debug_quoted(s: Seq<char>) -> Seq<char>;

/// `<str as Debug>::fmt` through `format!("{:?}", s)`; only its result is
/// named.
#[verifier::external_body]
fn debug_str(s: &str) -> (r: String)
    ensures
        r@ == debug_quoted(s@),
{
    format!("{:?}", s)
}

impl TemplateError {
    /// The error's message.
    pub fn message(&self) -> (s: String)
        ensures
            s@ == match fault(*self) {
                TemplateFault::Missing(p) => "missing template placeholder: {{"@ + p + "}}"@,
                TemplateFault::NotAnArray(p) => "$each target "@ + debug_quoted(p) + " is not an array"@,
            },
    {
        let mut v: Vec<char> = Vec::new();
        match self {
            TemplateError::MissingPlaceholder(p) => {
                push_all(&mut v, &chars_of("missing template placeholder: {{"));
                push_all(&mut v, &chars_of(p.as_str()));
                push_all(&mut v, &chars_of("}}"));
            },
            TemplateError::InvalidEachTarget(p) => {
                push_all(&mut v, &chars_of("$each target "));
                let q = debug_str(p.as_str());
                push_all(&mut v, &chars_of(q.as_str()));
                push_all(&mut v, &chars_of(" is not an array"));
            },
        }
        string_from_chars(v)
    }
}

// ---------------------------------------------------------------------------
// Text helpers

/// The first index at or after `from` where `c` stands.
pub open spec fn find_char(s: Seq<char>, c: char, from: int) -> Option<int>
    decreases s.len() - from,
{
    if from < 0 || from >= s.len() {
        None
    } else if s[from] == c {
        Some(from)
    } else {
        find_char(s, c, from + 1)
    }
}

/// The first index at or after `from` where the two characters `a b`
/// stand.
pub open spec fn find_pair(s: Seq<char>, a: char, b: char, from: int) -> Option<int>
    decreases s.len() - from,
{
    if from < 0 || from + 1 >= s.len() {
        None
    } else if s[from] == a && s[from + 1] == b {
        Some(from)
    } else {
        find_pair(s, a, b, from + 1)
    }
}

/// `s` without its leading whitespace.
pub open spec fn trim_start(s: Seq<char>) -> Seq<char>
    decreases s.len(),
{
    if s.len() > 0 && unicode_whitespace(s[0]) {
        trim_start(s.drop_first())
    } else {
        s
    }
}

/// `s` without its trailing whitespace.
pub open spec fn trim_end(s: Seq<char>) -> Seq<char>
    decreases s.len(),
{
    if s.len() > 0 && unicode_whitespace(s.last()) {
        trim_end(s.drop_last())
    } else {
        s
    }
}

/// `s` without leading and trailing whitespace (`str::trim`).
pub open spec fn trim(s: Seq<char>) -> Seq<char> {
    trim_end(trim_start(s))
}

proof fn lemma_find_char_bounds(s: Seq<char>, c: char, from: int)
    ensures
        find_char(s, c, from) matches Some(i) ==> from <= i < s.len() && s[i] == c,
    decreases s.len() - from,
{
    if 0 <= from < s.len() && s[from] != c {
        lemma_find_char_bounds(s, c, from + 1);
    }
}

proof fn lemma_find_pair_bounds(s: Seq<char>, a: char, b: char, from: int)
    ensures
        find_pair(s, a, b, from) matches Some(i) ==> from <= i && i + 1 < s.len() && s[i] == a && s[i + 1] == b,
    decreases s.len() - from,
{
    if 0 <= from && from + 1 < s.len() && !(s[from] == a && s[from + 1] == b) {
        lemma_find_pair_bounds(s, a, b, from + 1);
    }
}

/// The first index at or after `from` where `c` stands.
fn find_char_exec(s: &Vec<char>, c: char, from: usize) -> (r: Option<usize>)
    ensures
        match r {
            Some(i) => find_char(s@, c, from as int) == Some(i as int),
            None => find_char(s@, c, from as int) is None,
        },
{
    let mut i = from;
    while i < s.len()
        invariant
            from <= i,
            find_char(s@, c, from as int) == find_char(s@, c, i as int),
        decreases s@.len() - i,
    {
        if s[i] == c {
            return Some(i);
        }
        i = i + 1;
    }
    None
}

/// The first index at or after `from` where `a b` stand.
fn find_pair_exec(s: &Vec<char>, a: char, b: char, from: usize) -> (r: Option<usize>)
    ensures
        match r {
            Some(i) => find_pair(s@, a, b, from as int) == Some(i as int),
            None => find_pair(s@, a, b, from as int) is None,
        },
{
    let mut i = from;
    while i < s.len() && i + 1 < s.len()
        invariant
            from <= i,
            find_pair(s@, a, b, from as int) == find_pair(s@, a, b, i as int),
        decreases s@.len() - i,
    {
        if s[i] == a && s[i + 1] == b {
            return Some(i);
        }
        i = i + 1;
    }
    None
}

/// `s[lo..hi]`, trimmed.
fn trimmed(s: &Vec<char>, lo: usize, hi: usize) -> (r: Vec<char>)
    requires
        lo <= hi <= s@.len(),
    ensures
        r@ == trim(s@.subrange(lo as int, hi as int)),
{
    let mut a = lo;
    while a < hi && is_whitespace(s[a])
        invariant
            lo <= a <= hi <= s@.len(),
            trim_start(s@.subrange(lo as int, hi as int)) == trim_start(s@.subrange(a as int, hi as int)),
        decreases hi - a,
    {
        assert(s@.subrange(a as int, hi as int).drop_first() =~= s@.subrange(a + 1, hi as int));
        a = a + 1;
    }
    assert(trim_start(s@.subrange(a as int, hi as int)) == s@.subrange(a as int, hi as int));
    let mut b = hi;
    while b > a && is_whitespace(s[b - 1])
        invariant
            lo <= a <= b <= hi <= s@.len(),
            trim_end(s@.subrange(a as int, hi as int)) == trim_end(s@.subrange(a as int, b as int)),
        decreases b - a,
    {
        assert(s@.subrange(a as int, b as int).drop_last() =~= s@.subrange(a as int, b - 1));
        b = b - 1;
    }
    let mut out: Vec<char> = Vec::new();
    let mut k = a;
    while k < b
        invariant
            a <= k <= b <= s@.len(),
            out@ == s@.subrange(a as int, k as int),
        decreases b - k,
    {
        out.push(s[k]);
        k = k + 1;
        assert(out@ =~= s@.subrange(a as int, k as int));
    }
    out
}

/// Whether two character sequences are equal.
fn chars_equal(a: &Vec<char>, b: &Vec<char>) -> (r: bool)
    ensures
        r == (a@ == b@),
{
    if a.len() != b.len() {
        return false;
    }
    let mut i: usize = 0;
    while i < a.len()
        invariant
            a@.len() == b@.len(),
            i <= a@.len(),
            forall|j: int| 0 <= j < i ==> a@[j] == b@[j],
        decreases a@.len() - i,
    {
        if a[i] != b[i] {
            return false;
        }
        i = i + 1;
    }
    assert(a@ =~= b@);
    true
}

// ---------------------------------------------------------------------------
// Paths

/// Whether `c` is an ASCII digit.
pub open spec fn is_digit(c: char) -> bool {
    '0' <= c && c <= '9'
}

/// The decimal value of a digit string.
pub open spec fn digits_value(d: Seq<char>) -> nat
    decreases d.len(),
{
    if d.len() == 0 {
        0
    } else {
        digits_value(d.drop_last()) * 10 + (d.last() as nat - '0' as nat) as nat
    }
}

/// The digits of an index segment: without a leading `+` when more
/// follows it.
pub open spec fn index_digits(seg: Seq<char>) -> Seq<char> {
    if seg.len() > 1 && seg[0] == '+' {
        seg.drop_first()
    } else {
        seg
    }
}

/// Whether every character is an ASCII digit.
pub open spec fn all_digits(d: Seq<char>) -> bool {
    forall|i: int| 0 <= i < d.len() ==> is_digit(#[trigger] d[i])
}

/// An array index as `usize::from_str` reads it: an optional `+`, then
/// one or more digits, with a value that fits in `usize`.
pub open spec fn parse_index(seg: Seq<char>) -> Option<nat> {
    let digits = index_digits(seg);
    if digits.len() > 0 && all_digits(digits) && digits_value(digits) <= usize::MAX {
        Some(digits_value(digits))
    } else {
        None
    }
}

/// The first entry whose key is `key`.
pub open spec fn key_index<V>(entries: Seq<(String, V)>, key: Seq<char>, from: int) -> Option<int>
    decreases entries.len() - from,
{
    if from < 0 || from >= entries.len() {
        None
    } else if entries[from].0@ == key {
        Some(from)
    } else {
        key_index(entries, key, from + 1)
    }
}

/// One path segment applied to a value: an object's entry by key, or an
/// array's item by index.
pub open spec fn step(v: DataValue, seg: Seq<char>) -> Option<DataValue> {
    match v {
        DataValue::Object(entries, _) => match key_index(entries@, seg, 0) {
            Some(i) => Some(entries@[i].1),
            None => None,
        },
        DataValue::Array(items, _) => match parse_index(seg) {
            Some(n) => if n < items@.len() {
                Some(items@[n as int])
            } else {
                None
            },
            None => None,
        },
        _ => None,
    }
}

/// The value at the dot-separated path `path[from..]` below `v`.
pub open spec fn lookup_from(v: DataValue, path: Seq<char>, from: int) -> Option<DataValue>
    decreases path.len() - from,
{
    if from < 0 || from > path.len() {
        None
    } else {
        let end = match find_char(path, '.', from) {
            Some(i) => i,
            None => path.len() as int,
        };
        match step(v, path.subrange(from, end)) {
            None => None,
            Some(next) => if from <= end < path.len() {
                lookup_from(next, path, end + 1)
            } else {
                Some(next)
            },
        }
    }
}

/// The value at the dot-separated `path` below `v`; numeric segments
/// index into arrays.
pub open spec fn lookup(v: DataValue, path: Seq<char>) -> Option<DataValue> {
    lookup_from(v, path, 0)
}

/// The value of `path` in the first scope that has it.
pub open spec fn find_in_scopes(scopes: Seq<&DataValue>, path: Seq<char>) -> Option<DataValue>
    decreases scopes.len(),
{
    if scopes.len() == 0 {
        None
    } else {
        match lookup(*scopes[0], path) {
            Some(v) => Some(v),
            None => find_in_scopes(scopes.drop_first(), path),
        }
    }
}

/// What a placeholder's path names: `.` is the innermost scope, anything
/// else is looked up in each scope, innermost first.
pub open spec fn placeholder_value(path: Seq<char>, scopes: Seq<&DataValue>) -> Option<DataValue> {
    if path == seq!['.'] {
        if scopes.len() > 0 {
            Some(*scopes[0])
        } else {
            None
        }
    } else {
        find_in_scopes(scopes, path)
    }
}

/// Parses an array index.
fn parse_index_exec(seg: &Vec<char>) -> (r: Option<usize>)
    ensures
        match r {
            Some(n) => parse_index(seg@) == Some(n as nat),
            None => parse_index(seg@) is None,
        },
{
    let start: usize = if seg.len() > 1 && seg[0] == '+' {
        1
    } else {
        0
    };
    let ghost digits = seg@.subrange(start as int, seg@.len() as int);
    assert(digits =~= index_digits(seg@));
    if start >= seg.len() {
        return None;
    }
    let mut value: usize = 0;
    let mut i = start;
    while i < seg.len()
        invariant
            start <= i <= seg@.len(),
            digits == seg@.subrange(start as int, seg@.len() as int),
            digits == index_digits(seg@),
            start < seg@.len(),
            forall|j: int| start <= j < i ==> is_digit(#[trigger] seg@[j]),
            value == digits_value(seg@.subrange(start as int, i as int)),
        decreases seg@.len() - i,
    {
        let c = seg[i];
        if !('0' <= c && c <= '9') {
            assert(!is_digit(index_digits(seg@)[i - start]));
            return None;
        }
        let d = (c as u32 - '0' as u32) as usize;
        assert(seg@.subrange(start as int, i + 1).drop_last() =~= seg@.subrange(start as int, i as int));
        if value > (usize::MAX - d) / 10 {
            proof {
                assert(value * 10 + d > usize::MAX) by (nonlinear_arith)
                    requires
                        value > (usize::MAX - d) / 10,
                        d <= 9,
                ;
                lemma_digits_value_prefix(digits, (i + 1 - start) as nat);
                assert(digits.take((i + 1 - start) as int) =~= seg@.subrange(start as int, i + 1));
            }
            return None;
        }
        proof {
            assert(value * 10 + d <= usize::MAX) by (nonlinear_arith)
                requires
                    value <= (usize::MAX - d) / 10,
                    d <= 9,
            ;
        }
        value = value * 10 + d;
        i = i + 1;
    }
    assert(seg@.subrange(start as int, i as int) =~= digits);
    Some(value)
}

/// `s[lo..hi]`.
fn slice_chars(s: &Vec<char>, lo: usize, hi: usize) -> (r: Vec<char>)
    requires
        lo <= hi <= s@.len(),
    ensures
        r@ == s@.subrange(lo as int, hi as int),
{
    let mut out: Vec<char> = Vec::new();
    let mut k = lo;
    while k < hi
        invariant
            lo <= k <= hi <= s@.len(),
            out@ == s@.subrange(lo as int, k as int),
        decreases hi - k,
    {
        out.push(s[k]);
        k = k + 1;
        assert(out@ =~= s@.subrange(lo as int, k as int));
    }
    out
}

proof fn lemma_key_index_bounds<V>(entries: Seq<(String, V)>, key: Seq<char>, from: int)
    ensures
        key_index(entries, key, from) matches Some(i) ==> from <= i < entries.len() && entries[i].0@ == key,
    decreases entries.len() - from,
{
    if 0 <= from < entries.len() && entries[from].0@ != key {
        lemma_key_index_bounds(entries, key, from + 1);
    }
}

/// The first entry whose key is `key`.
fn key_index_exec<V>(entries: &Vec<(String, V)>, key: &Vec<char>) -> (r: Option<usize>)
    ensures
        match r {
            Some(i) => key_index(entries@, key@, 0) == Some(i as int),
            None => key_index(entries@, key@, 0) is None,
        },
{
    let mut i: usize = 0;
    while i < entries.len()
        invariant
            i <= entries@.len(),
            key_index(entries@, key@, 0) == key_index(entries@, key@, i as int),
        decreases entries@.len() - i,
    {
        let k = chars_of(entries[i].0.as_str());
        if chars_equal(&k, key) {
            return Some(i);
        }
        i = i + 1;
    }
    None
}

/// One path segment applied to `v`.
fn step_exec<'a>(v: &'a DataValue, seg: &Vec<char>) -> (r: Option<&'a DataValue>)
    ensures
        match r {
            Some(x) => step(*v, seg@) == Some(*x),
            None => step(*v, seg@) is None,
        },
{
    match v {
        DataValue::Object(entries, _) => match key_index_exec(entries, seg) {
            Some(i) => {
                proof {
                    lemma_key_index_bounds(entries@, seg@, 0);
                }
                Some(&entries[i].1)
            },
            None => None,
        },
        DataValue::Array(items, _) => match parse_index_exec(seg) {
            Some(n) => if n < items.len() {
                Some(&items[n])
            } else {
                None
            },
            None => None,
        },
        _ => None,
    }
}

/// The value at the dot-separated `path` below `root`.
fn lookup_exec<'a>(root: &'a DataValue, path: &Vec<char>) -> (r: Option<&'a DataValue>)
    ensures
        match r {
            Some(x) => lookup(*root, path@) == Some(*x),
            None => lookup(*root, path@) is None,
        },
{
    let mut cur = root;
    let mut from: usize = 0;
    loop
        invariant
            from <= path@.len(),
            lookup(*root, path@) == lookup_from(*cur, path@, from as int),
        decreases path@.len() - from,
    {
        let end = match find_char_exec(path, '.', from) {
            Some(i) => i,
            None => path.len(),
        };
        proof {
            lemma_find_char_bounds(path@, '.', from as int);
        }
        let seg = slice_chars(path, from, end);
        match step_exec(cur, &seg) {
            None => {
                return None;
            },
            Some(next) => {
                if end < path.len() {
                    cur = next;
                    from = end + 1;
                } else {
                    return Some(next);
                }
            },
        }
    }
}

/// The value of `path` in the first scope that has it.
fn find_in_scopes_exec<'a>(scopes: &Vec<&'a DataValue>, path: &Vec<char>) -> (r: Option<&'a DataValue>)
    ensures
        match r {
            Some(x) => find_in_scopes(scopes@, path@) == Some(*x),
            None => find_in_scopes(scopes@, path@) is None,
        },
{
    let mut k: usize = 0;
    assert(scopes@.skip(0) =~= scopes@);
    while k < scopes.len()
        invariant
            k <= scopes@.len(),
            find_in_scopes(scopes@, path@) == find_in_scopes(scopes@.skip(k as int), path@),
        decreases scopes@.len() - k,
    {
        assert(scopes@.skip(k as int).drop_first() =~= scopes@.skip(k + 1));
        match lookup_exec(scopes[k], path) {
            Some(x) => {
                return Some(x);
            },
            None => {},
        }
        k = k + 1;
    }
    None
}

/// What a placeholder's path names.
fn placeholder_value_exec<'a>(path: &Vec<char>, scopes: &Vec<&'a DataValue>) -> (r: Option<&'a DataValue>)
    ensures
        match r {
            Some(x) => placeholder_value(path@, scopes@) == Some(*x),
            None => placeholder_value(path@, scopes@) is None,
        },
{
    if path.len() == 1 && path[0] == '.' {
        assert(path@ =~= seq!['.']);
        if scopes.len() > 0 {
            Some(scopes[0])
        } else {
            None
        }
    } else {
        assert(path@ != seq!['.']);
        find_in_scopes_exec(scopes, path)
    }
}

// ---------------------------------------------------------------------------
// Strings

/// `Some(path)` when `s`, trimmed, is exactly one placeholder `{{path}}`
/// (`path` trimmed too), with no other `{{` or `}}` inside.
pub open spec fn whole_placeholder(s: Seq<char>) -> Option<Seq<char>> {
    let t = trim(s);
    if t.len() >= 4 && t[0] == '{' && t[1] == '{' && t[t.len() - 2] == '}' && t[t.len() - 1] == '}' {
        let inner = t.subrange(2, t.len() - 2);
        if find_pair(inner, '{', '{', 0) is None && find_pair(inner, '}', '}', 0) is None {
            Some(trim(inner))
        } else {
            None
        }
    } else {
        None
    }
}

/// The text a data value prints as inside a larger string: a string's own
/// characters, nothing for `null`, and the JSON text otherwise.
pub open spec fn display(d: DataValue) -> Seq<char> {
    match d {
        DataValue::Null => Seq::empty(),
        DataValue::Bool(b) => if b {
            "true"@
        } else {
            "false"@
        },
        DataValue::Number(t) => t@,
        DataValue::String(s) => s@,
        DataValue::Array(_, t) => t@,
        DataValue::Object(_, t) => t@,
    }
}

/// What the placeholder `path` prints as; when nothing resolves, an error
/// or nothing, as `m` says.
pub open spec fn shown(path: Seq<char>, scopes: Seq<&DataValue>, m: MissingPlaceholder) -> Result<
    Seq<char>,
    TemplateFault,
> {
    match placeholder_value(path, scopes) {
        Some(d) => Ok(display(d)),
        None => match m {
            MissingPlaceholder::Error => Err(TemplateFault::Missing(path)),
            MissingPlaceholder::Empty => Ok(Seq::empty()),
        },
    }
}

/// `s[from..]` with each `{{path}}` replaced by what it prints as; an
/// unterminated `{{` and all after it stay as they are.
pub open spec fn substituted_from(s: Seq<char>, from: int, scopes: Seq<&DataValue>, m: MissingPlaceholder) -> Result<
    Seq<char>,
    TemplateFault,
>
    decreases s.len() - from,
{
    if from < 0 || from > s.len() {
        Ok(Seq::empty())
    } else {
        match find_pair(s, '{', '{', from) {
            None => Ok(s.subrange(from, s.len() as int)),
            Some(i) => match find_pair(s, '}', '}', i + 2) {
                None => Ok(s.subrange(from, s.len() as int)),
                Some(j) => if from <= i && i + 2 <= j && j + 2 <= s.len() {
                    match shown(trim(s.subrange(i + 2, j)), scopes, m) {
                        Err(e) => Err(e),
                        Ok(t) => match substituted_from(s, j + 2, scopes, m) {
                            Ok(r) => Ok(s.subrange(from, i) + t + r),
                            Err(e) => Err(e),
                        },
                    }
                } else {
                    Ok(Seq::empty())
                },
            },
        }
    }
}

/// A template string resolved: a whole placeholder becomes its value
/// (`null` when missing and `m` allows it); any other string has its
/// placeholders substituted.
pub open spec fn resolved_string(s: Seq<char>, scopes: Seq<&DataValue>, m: MissingPlaceholder) -> Result<
    JsonView,
    TemplateFault,
> {
    match whole_placeholder(s) {
        Some(path) => match placeholder_value(path, scopes) {
            Some(d) => Ok(data_json(d)),
            None => match m {
                MissingPlaceholder::Error => Err(TemplateFault::Missing(path)),
                MissingPlaceholder::Empty => Ok(JsonView::Null),
            },
        },
        None => match substituted_from(s, 0, scopes, m) {
            Ok(t) => Ok(JsonView::Str(t)),
            Err(e) => Err(e),
        },
    }
}

// ---------------------------------------------------------------------------
// Trees

/// `Some((path, t))` when the entries are exactly `$each` (a string, the
/// path) and `template` (entry `t`).
pub open spec fn each_parts(entries: Seq<(String, JsonValue)>) -> Option<(Seq<char>, int)> {
    if entries.len() == 2 {
        match key_index(entries, "$each"@, 0) {
            Some(i) => match entries[i].1 {
                JsonValue::String(p) => match key_index(entries, "template"@, 0) {
                    Some(t) => Some((p@, t)),
                    None => None,
                },
                _ => None,
            },
            None => None,
        }
    } else {
        None
    }
}

/// A template tree resolved against the scopes (innermost first): strings
/// as `resolved_string` says, arrays item by item with `$each` directives
/// expanded, objects entry by entry; the first failure, in document
/// order, is the result.
pub open spec fn resolved(node: JsonValue, scopes: Seq<&DataValue>, m: MissingPlaceholder) -> Result<
    JsonView,
    TemplateFault,
>
    decreases node, 0nat,
{
    match node {
        JsonValue::Null => Ok(JsonView::Null),
        JsonValue::Bool(b) => Ok(JsonView::Bool(b)),
        JsonValue::Number(t) => Ok(JsonView::Number(t@)),
        JsonValue::String(s) => resolved_string(s@, scopes, m),
        JsonValue::Array(items) => match resolved_items(items@, items@.len(), scopes, m) {
            Ok(vs) => Ok(JsonView::Array(vs)),
            Err(e) => Err(e),
        },
        JsonValue::Object(entries) => match resolved_entries(entries@, entries@.len(), scopes, m) {
            Ok(es) => Ok(JsonView::Object(es)),
            Err(e) => Err(e),
        },
    }
}

/// The first `k` array items resolved; an `$each` directive stands for
/// its template once per element of the data array at its path.
pub open spec fn resolved_items(items: Seq<JsonValue>, k: nat, scopes: Seq<&DataValue>, m: MissingPlaceholder) -> Result<
    Seq<JsonView>,
    TemplateFault,
>
    decreases items, k,
{
    if k == 0 || k > items.len() {
        Ok(Seq::empty())
    } else {
        match resolved_items(items, (k - 1) as nat, scopes, m) {
            Err(e) => Err(e),
            Ok(prev) => match items[k - 1] {
                JsonValue::Object(entries) => match each_parts(entries@) {
                    Some((path, t)) => match find_in_scopes(scopes, path) {
                        Some(DataValue::Array(elems, _)) => if 0 <= t < entries@.len() {
                            match expanded(entries@[t].1, elems@, elems@.len(), scopes, m) {
                                Ok(vs) => Ok(prev + vs),
                                Err(e) => Err(e),
                            }
                        } else {
                            Err(TemplateFault::NotAnArray(path))
                        },
                        _ => Err(TemplateFault::NotAnArray(path)),
                    },
                    None => match resolved(items[k - 1], scopes, m) {
                        Ok(v) => Ok(prev.push(v)),
                        Err(e) => Err(e),
                    },
                },
                _ => match resolved(items[k - 1], scopes, m) {
                    Ok(v) => Ok(prev.push(v)),
                    Err(e) => Err(e),
                },
            },
        }
    }
}

/// `tmpl` resolved once for each of the first `n` elements, each element
/// the innermost scope.
pub open spec fn expanded(
    tmpl: JsonValue,
    elems: Seq<DataValue>,
    n: nat,
    scopes: Seq<&DataValue>,
    m: MissingPlaceholder,
) -> Result<Seq<JsonView>, TemplateFault>
    decreases tmpl, n,
{
    if n == 0 || n > elems.len() {
        Ok(Seq::empty())
    } else {
        match expanded(tmpl, elems, (n - 1) as nat, scopes, m) {
            Err(e) => Err(e),
            Ok(prev) => match resolved(tmpl, seq![&elems[n - 1]] + scopes, m) {
                Ok(v) => Ok(prev.push(v)),
                Err(e) => Err(e),
            },
        }
    }
}

/// The first `k` object entries, each value resolved.
pub open spec fn resolved_entries(
    entries: Seq<(String, JsonValue)>,
    k: nat,
    scopes: Seq<&DataValue>,
    m: MissingPlaceholder,
) -> Result<Seq<(Seq<char>, JsonView)>, TemplateFault>
    decreases entries, k,
{
    if k == 0 || k > entries.len() {
        Ok(Seq::empty())
    } else {
        match resolved_entries(entries, (k - 1) as nat, scopes, m) {
            Err(e) => Err(e),
            Ok(prev) => match resolved(entries[k - 1].1, scopes, m) {
                Ok(v) => Ok(prev.push((entries[k - 1].0@, v))),
                Err(e) => Err(e),
            },
        }
    }
}

/// `Some(path)` when `s` is exactly one placeholder.
fn whole_placeholder_exec(s: &Vec<char>) -> (r: Option<Vec<char>>)
    ensures
        match r {
            Some(p) => whole_placeholder(s@) == Some(p@),
            None => whole_placeholder(s@) is None,
        },
{
    let t = trimmed(s, 0, s.len());
    assert(s@.subrange(0, s@.len() as int) =~= s@);
    let n = t.len();
    if n >= 4 && t[0] == '{' && t[1] == '{' && t[n - 2] == '}' && t[n - 1] == '}' {
        let inner = slice_chars(&t, 2, n - 2);
        if find_pair_exec(&inner, '{', '{', 0).is_none() && find_pair_exec(&inner, '}', '}', 0).is_none() {
            let p = trimmed(&inner, 0, inner.len());
            assert(inner@.subrange(0, inner@.len() as int) =~= inner@);
            Some(p)
        } else {
            None
        }
    } else {
        None
    }
}

/// Appends what `d` prints as.
fn push_display(out: &mut Vec<char>, d: &DataValue)
    ensures
        final(out)@ == old(out)@ + display(*d),
{
    match d {
        DataValue::Null => {},
        DataValue::Bool(b) => {
            if *b {
                push_all(out, &chars_of("true"));
            } else {
                push_all(out, &chars_of("false"));
            }
        },
        DataValue::Number(t) => push_all(out, &chars_of(t.as_str())),
        DataValue::String(x) => push_all(out, &chars_of(x.as_str())),
        DataValue::Array(_, t) => push_all(out, &chars_of(t.as_str())),
        DataValue::Object(_, t) => push_all(out, &chars_of(t.as_str())),
    }
}

/// `r` with `o` in front of its text.
pub open spec fn prefixed(o: Seq<char>, r: Result<Seq<char>, TemplateFault>) -> Result<Seq<char>, TemplateFault> {
    match r {
        Ok(x) => Ok(o + x),
        Err(e) => Err(e),
    }
}

/// Appends `s[lo..hi]`.
fn push_range(out: &mut Vec<char>, s: &Vec<char>, lo: usize, hi: usize)
    requires
        lo <= hi <= s@.len(),
    ensures
        final(out)@ == old(out)@ + s@.subrange(lo as int, hi as int),
{
    let part = slice_chars(s, lo, hi);
    push_all(out, &part);
}

/// `s` with each `{{path}}` replaced by what it prints as.
fn substitute(s: &Vec<char>, scopes: &Vec<&DataValue>, m: MissingPlaceholder) -> (r: Result<Vec<char>, TemplateError>)
    ensures
        match r {
            Ok(t) => substituted_from(s@, 0, scopes@, m) == Ok::<Seq<char>, TemplateFault>(t@),
            Err(e) => substituted_from(s@, 0, scopes@, m) == Err::<Seq<char>, TemplateFault>(fault(e)),
        },
{
    let mut out: Vec<char> = Vec::new();
    let mut pos: usize = 0;
    assert(out@ + s@.subrange(0, 0) =~= out@);
    loop
        invariant
            pos <= s@.len(),
            substituted_from(s@, 0, scopes@, m) == prefixed(out@, substituted_from(s@, pos as int, scopes@, m)),
        decreases s@.len() - pos,
    {
        proof {
            lemma_find_pair_bounds(s@, '{', '{', pos as int);
        }
        match find_pair_exec(s, '{', '{', pos) {
            None => {
                push_range(&mut out, s, pos, s.len());
                return Ok(out);
            },
            Some(i) => {
                assert(i + 1 < s@.len() <= usize::MAX) by {
                    assert(s@.len() == s.len());
                }
                proof {
                    lemma_find_pair_bounds(s@, '}', '}', i + 2);
                }
                match find_pair_exec(s, '}', '}', i + 2) {
                    None => {
                        push_range(&mut out, s, pos, s.len());
                        return Ok(out);
                    },
                    Some(j) => {
                        assert(j + 1 < s@.len() <= usize::MAX) by {
                            assert(s@.len() == s.len());
                        }
                        let path = trimmed(s, i + 2, j);
                        let ghost before = out@;
                        match placeholder_value_exec(&path, scopes) {
                            Some(d) => {
                                push_range(&mut out, s, pos, i);
                                push_display(&mut out, d);
                            },
                            None => match m {
                                MissingPlaceholder::Error => {
                                    return Err(TemplateError::MissingPlaceholder(string_from_chars(path)));
                                },
                                MissingPlaceholder::Empty => {
                                    push_range(&mut out, s, pos, i);
                                },
                            },
                        }
                        proof {
                            let t = match shown(path@, scopes@, m) {
                                Ok(t) => t,
                                Err(_) => Seq::empty(),
                            };
                            assert(out@ == before + s@.subrange(pos as int, i as int) + t);
                            match substituted_from(s@, j + 2, scopes@, m) {
                                Ok(x) => {
                                    assert(before + (s@.subrange(pos as int, i as int) + t + x) =~= out@ + x);
                                },
                                Err(_) => {},
                            }
                        }
                        pos = j + 2;
                    },
                }
            },
        }
    }
}

/// A template string resolved against the scopes.
fn resolve_string(s: &String, scopes: &Vec<&DataValue>, m: MissingPlaceholder) -> (r: Result<JsonValue, TemplateError>)
    ensures
        match r {
            Ok(v) => resolved_string(s@, scopes@, m) == Ok::<JsonView, TemplateFault>(v@),
            Err(e) => resolved_string(s@, scopes@, m) == Err::<JsonView, TemplateFault>(fault(e)),
        },
{
    let cs = chars_of(s.as_str());
    match whole_placeholder_exec(&cs) {
        Some(path) => match placeholder_value_exec(&path, scopes) {
            Some(d) => Ok(data_to_json(d)),
            None => match m {
                MissingPlaceholder::Error => Err(TemplateError::MissingPlaceholder(string_from_chars(path))),
                MissingPlaceholder::Empty => Ok(JsonValue::Null),
            },
        },
        None => match substitute(&cs, scopes, m) {
            Ok(t) => Ok(JsonValue::String(string_from_chars(t))),
            Err(e) => Err(e),
        },
    }
}

/// The tree a data value stands for, as a `JsonValue`.
fn data_to_json(d: &DataValue) -> (j: JsonValue)
    ensures
        j@ == data_json(*d),
    decreases d,
{
    match d {
        DataValue::Null => JsonValue::Null,
        DataValue::Bool(b) => JsonValue::Bool(*b),
        DataValue::Number(t) => JsonValue::Number(t.clone()),
        DataValue::String(x) => JsonValue::String(x.clone()),
        DataValue::Array(items, text) => {
            let mut out: Vec<JsonValue> = Vec::new();
            let mut i: usize = 0;
            while i < items.len()
                invariant
                    *d == DataValue::Array(*items, *text),
                    i <= items@.len(),
                    out@.len() == i,
                    json_views(out@, i as nat) == data_views(items@, i as nat),
                decreases items@.len() - i,
            {
                proof {
                    assert(decreases_to!(*d => (*d)->Array_0));
                    assert(decreases_to!(items => items@));
                    assert(decreases_to!(items@ => items@[i as int]));
                }
                let x = data_to_json(&items[i]);
                proof {
                    lemma_json_views_push(out@, x, i as nat);
                }
                out.push(x);
                i = i + 1;
            }
            JsonValue::Array(out)
        },
        DataValue::Object(entries, text) => {
            let mut out: Vec<(String, JsonValue)> = Vec::new();
            let mut i: usize = 0;
            while i < entries.len()
                invariant
                    *d == DataValue::Object(*entries, *text),
                    i <= entries@.len(),
                    out@.len() == i,
                    json_entry_views(out@, i as nat) == data_entry_views(entries@, i as nat),
                decreases entries@.len() - i,
            {
                proof {
                    assert(decreases_to!(*d => (*d)->Object_0));
                    assert(decreases_to!(entries => entries@));
                    assert(decreases_to!(entries@ => entries@[i as int]));
                    assert(decreases_to!(entries@[i as int] => entries@[i as int].1));
                }
                let x = data_to_json(&entries[i].1);
                let k = entries[i].0.clone();
                proof {
                    lemma_json_entry_views_push(out@, (k, x), i as nat);
                }
                out.push((k, x));
                i = i + 1;
            }
            JsonValue::Object(out)
        },
    }
}

/// Pushing onto a sequence leaves the views of its first `k` items as
/// they were.
proof fn lemma_json_views_prefix(s: Seq<JsonValue>, x: JsonValue, k: nat)
    requires
        k <= s.len(),
    ensures
        json_views(s.push(x), k) == json_views(s, k),
    decreases k,
{
    if k > 0 {
        lemma_json_views_prefix(s, x, (k - 1) as nat);
    }
}

/// The views after a push: the old ones, then the new item's.
proof fn lemma_json_views_push(s: Seq<JsonValue>, x: JsonValue, k: nat)
    requires
        k == s.len(),
    ensures
        json_views(s.push(x), k + 1) == json_views(s, k).push(json_view(x)),
{
    lemma_json_views_prefix(s, x, k);
    assert(s.push(x)[k as int] == x);
}

proof fn lemma_json_entry_views_prefix(s: Seq<(String, JsonValue)>, x: (String, JsonValue), k: nat)
    requires
        k <= s.len(),
    ensures
        json_entry_views(s.push(x), k) == json_entry_views(s, k),
    decreases k,
{
    if k > 0 {
        lemma_json_entry_views_prefix(s, x, (k - 1) as nat);
    }
}

proof fn lemma_json_entry_views_push(s: Seq<(String, JsonValue)>, x: (String, JsonValue), k: nat)
    requires
        k == s.len(),
    ensures
        json_entry_views(s.push(x), k + 1) == json_entry_views(s, k).push((x.0@, json_view(x.1))),
{
    lemma_json_entry_views_prefix(s, x, k);
    assert(s.push(x)[k as int] == x);
}

/// The views of two sequences back to back.
proof fn lemma_json_views_concat(a: Seq<JsonValue>, b: Seq<JsonValue>)
    ensures
        json_views(a + b, (a.len() + b.len()) as nat) == json_views(a, a.len()) + json_views(b, b.len()),
    decreases b.len(),
{
    if b.len() == 0 {
        assert(a + b =~= a);
        assert(json_views(a, a.len()) + json_views(b, b.len()) =~= json_views(a, a.len()));
    } else {
        let c = b.drop_last();
        let x = b.last();
        lemma_json_views_concat(a, c);
        assert(a + b =~= (a + c).push(x));
        assert(b =~= c.push(x));
        lemma_json_views_push(a + c, x, (a.len() + c.len()) as nat);
        lemma_json_views_push(c, x, c.len());
        assert(json_views(a, a.len()) + json_views(c, c.len()).push(json_view(x)) =~= (json_views(a, a.len())
            + json_views(c, c.len())).push(json_view(x)));
    }
}

proof fn lemma_key_index_literal_bounds(entries: Seq<(String, JsonValue)>)
    ensures
        each_parts(entries) matches Some((p, t)) ==> 0 <= t < entries.len(),
{
    lemma_key_index_bounds(entries, "$each"@, 0);
    lemma_key_index_bounds(entries, "template"@, 0);
}

/// A failure among the first `k` items is the failure of any longer
/// prefix.
proof fn lemma_items_error_stays(items: Seq<JsonValue>, k: nat, k2: nat, scopes: Seq<&DataValue>, m: MissingPlaceholder)
    requires
        k <= k2 <= items.len(),
        resolved_items(items, k, scopes, m) is Err,
    ensures
        resolved_items(items, k2, scopes, m) == resolved_items(items, k, scopes, m),
    decreases k2 - k,
{
    if k < k2 {
        lemma_items_error_stays(items, k, (k2 - 1) as nat, scopes, m);
    }
}

proof fn lemma_expanded_error_stays(
    tmpl: JsonValue,
    elems: Seq<DataValue>,
    n: nat,
    n2: nat,
    scopes: Seq<&DataValue>,
    m: MissingPlaceholder,
)
    requires
        n <= n2 <= elems.len(),
        expanded(tmpl, elems, n, scopes, m) is Err,
    ensures
        expanded(tmpl, elems, n2, scopes, m) == expanded(tmpl, elems, n, scopes, m),
    decreases n2 - n,
{
    if n < n2 {
        lemma_expanded_error_stays(tmpl, elems, n, (n2 - 1) as nat, scopes, m);
    }
}

proof fn lemma_entries_error_stays(
    entries: Seq<(String, JsonValue)>,
    k: nat,
    k2: nat,
    scopes: Seq<&DataValue>,
    m: MissingPlaceholder,
)
    requires
        k <= k2 <= entries.len(),
        resolved_entries(entries, k, scopes, m) is Err,
    ensures
        resolved_entries(entries, k2, scopes, m) == resolved_entries(entries, k, scopes, m),
    decreases k2 - k,
{
    if k < k2 {
        lemma_entries_error_stays(entries, k, (k2 - 1) as nat, scopes, m);
    }
}

/// `Some((path, t))` when `entries` are exactly an `$each` directive.
fn each_directive(entries: &Vec<(String, JsonValue)>) -> (r: Option<(Vec<char>, usize)>)
    ensures
        match r {
            Some((p, t)) => each_parts(entries@) == Some((p@, t as int)),
            None => each_parts(entries@) is None,
        },
{
    if entries.len() != 2 {
        return None;
    }
    let each_key = chars_of("$each");
    match key_index_exec(entries, &each_key) {
        Some(i) => {
            proof {
                lemma_key_index_bounds(entries@, "$each"@, 0);
            }
            match &entries[i].1 {
                JsonValue::String(p) => {
                    let template_key = chars_of("template");
                    match key_index_exec(entries, &template_key) {
                        Some(t) => Some((chars_of(p.as_str()), t)),
                        None => None,
                    }
                },
                _ => None,
            }
        },
        None => None,
    }
}

/// `tmpl` resolved once per element, each element the innermost scope.
fn expand(tmpl: &JsonValue, elems: &Vec<DataValue>, scopes: &Vec<&DataValue>, m: MissingPlaceholder) -> (r: Result<
    Vec<JsonValue>,
    TemplateError,
>)
    ensures
        match r {
            Ok(vs) => expanded(*tmpl, elems@, elems@.len(), scopes@, m) == Ok::<Seq<JsonView>, TemplateFault>(
                json_views(vs@, vs@.len()),
            ),
            Err(e) => expanded(*tmpl, elems@, elems@.len(), scopes@, m) == Err::<Seq<JsonView>, TemplateFault>(fault(e)),
        },
    decreases tmpl, 1nat,
{
    let mut out: Vec<JsonValue> = Vec::new();
    let mut j: usize = 0;
    while j < elems.len()
        invariant
            j <= elems@.len(),
            out@.len() == j,
            expanded(*tmpl, elems@, j as nat, scopes@, m) == Ok::<Seq<JsonView>, TemplateFault>(json_views(out@, j as nat)),
        decreases elems@.len() - j,
    {
        let mut inner: Vec<&DataValue> = Vec::new();
        inner.push(&elems[j]);
        let mut k: usize = 0;
        while k < scopes.len()
            invariant
                k <= scopes@.len(),
                j < elems@.len(),
                inner@ == seq![&elems@[j as int]] + scopes@.take(k as int),
            decreases scopes@.len() - k,
        {
            inner.push(scopes[k]);
            k = k + 1;
            assert(inner@ =~= seq![&elems@[j as int]] + scopes@.take(k as int));
        }
        assert(scopes@.take(scopes@.len() as int) =~= scopes@);
        match resolve_value(tmpl, &inner, m) {
            Ok(v) => {
                proof {
                    lemma_json_views_push(out@, v, j as nat);
                }
                out.push(v);
            },
            Err(e) => {
                proof {
                    lemma_expanded_error_stays(*tmpl, elems@, (j + 1) as nat, elems@.len(), scopes@, m);
                }
                return Err(e);
            },
        }
        j = j + 1;
    }
    Ok(out)
}

/// The array items resolved, `$each` directives expanded.
fn resolve_items(items: &Vec<JsonValue>, scopes: &Vec<&DataValue>, m: MissingPlaceholder) -> (r: Result<
    Vec<JsonValue>,
    TemplateError,
>)
    ensures
        match r {
            Ok(vs) => resolved_items(items@, items@.len(), scopes@, m) == Ok::<Seq<JsonView>, TemplateFault>(
                json_views(vs@, vs@.len()),
            ),
            Err(e) => resolved_items(items@, items@.len(), scopes@, m) == Err::<Seq<JsonView>, TemplateFault>(fault(e)),
        },
    decreases items, 0nat,
{
    let mut out: Vec<JsonValue> = Vec::new();
    let mut i: usize = 0;
    while i < items.len()
        invariant
            i <= items@.len(),
            resolved_items(items@, i as nat, scopes@, m) == Ok::<Seq<JsonView>, TemplateFault>(json_views(out@, out@.len())),
        decreases items@.len() - i,
    {
        let mut directive: Option<(Vec<char>, usize)> = None;
        match &items[i] {
            JsonValue::Object(entries) => {
                directive = each_directive(entries);
            },
            _ => {},
        }
        match directive {
            Some((path, t)) => {
                let ghost entries = items@[i as int]->Object_0;
                proof {
                    lemma_key_index_literal_bounds(entries@);
                }
                match find_in_scopes_exec(scopes, &path) {
                    Some(DataValue::Array(elems, _)) => {
                        match &items[i] {
                            JsonValue::Object(es) => {
                                proof {
                                    assert(decreases_to!(*items => items@));
                                    assert(decreases_to!(items@ => items@[i as int]));
                                    assert(decreases_to!(items@[i as int] => items@[i as int]->Object_0));
                                    assert(decreases_to!(es => es@));
                                    assert(decreases_to!(es@ => es@[t as int]));
                                    assert(decreases_to!(es@[t as int] => es@[t as int].1));
                                }
                                match expand(&es[t].1, elems, scopes, m) {
                                    Ok(vs) => {
                                        let mut vs = vs;
                                        proof {
                                            lemma_json_views_concat(out@, vs@);
                                        }
                                        out.append(&mut vs);
                                    },
                                    Err(e) => {
                                        proof {
                                            lemma_items_error_stays(items@, (i + 1) as nat, items@.len(), scopes@, m);
                                        }
                                        return Err(e);
                                    },
                                }
                            },
                            _ => {},
                        }
                    },
                    _ => {
                        let e = TemplateError::InvalidEachTarget(string_from_chars(path));
                        proof {
                            lemma_items_error_stays(items@, (i + 1) as nat, items@.len(), scopes@, m);
                        }
                        return Err(e);
                    },
                }
            },
            None => {
                match resolve_value(&items[i], scopes, m) {
                    Ok(v) => {
                        proof {
                            lemma_json_views_push(out@, v, out@.len());
                        }
                        out.push(v);
                    },
                    Err(e) => {
                        proof {
                            lemma_items_error_stays(items@, (i + 1) as nat, items@.len(), scopes@, m);
                        }
                        return Err(e);
                    },
                }
            },
        }
        i = i + 1;
    }
    Ok(out)
}

/// The object's entries, each value resolved.
fn resolve_entries(entries: &Vec<(String, JsonValue)>, scopes: &Vec<&DataValue>, m: MissingPlaceholder) -> (r: Result<
    Vec<(String, JsonValue)>,
    TemplateError,
>)
    ensures
        match r {
            Ok(es) => resolved_entries(entries@, entries@.len(), scopes@, m) == Ok::<
                Seq<(Seq<char>, JsonView)>,
                TemplateFault,
            >(json_entry_views(es@, es@.len())),
            Err(e) => resolved_entries(entries@, entries@.len(), scopes@, m) == Err::<
                Seq<(Seq<char>, JsonView)>,
                TemplateFault,
            >(fault(e)),
        },
    decreases entries, 0nat,
{
    let mut out: Vec<(String, JsonValue)> = Vec::new();
    let mut i: usize = 0;
    while i < entries.len()
        invariant
            i <= entries@.len(),
            out@.len() == i,
            resolved_entries(entries@, i as nat, scopes@, m) == Ok::<Seq<(Seq<char>, JsonView)>, TemplateFault>(
                json_entry_views(out@, i as nat),
            ),
        decreases entries@.len() - i,
    {
        proof {
            assert(decreases_to!(*entries => entries@));
            assert(decreases_to!(entries@ => entries@[i as int]));
            assert(decreases_to!(entries@[i as int] => entries@[i as int].1));
        }
        match resolve_value(&entries[i].1, scopes, m) {
            Ok(v) => {
                let k = entries[i].0.clone();
                proof {
                    lemma_json_entry_views_push(out@, (k, v), i as nat);
                }
                out.push((k, v));
            },
            Err(e) => {
                proof {
                    lemma_entries_error_stays(entries@, (i + 1) as nat, entries@.len(), scopes@, m);
                }
                return Err(e);
            },
        }
        i = i + 1;
    }
    Ok(out)
}

/// A template tree resolved against the scopes.
fn resolve_value(node: &JsonValue, scopes: &Vec<&DataValue>, m: MissingPlaceholder) -> (r: Result<JsonValue, TemplateError>)
    ensures
        match r {
            Ok(v) => resolved(*node, scopes@, m) == Ok::<JsonView, TemplateFault>(v@),
            Err(e) => resolved(*node, scopes@, m) == Err::<JsonView, TemplateFault>(fault(e)),
        },
    decreases node, 0nat,
{
    match node {
        JsonValue::Null => Ok(JsonValue::Null),
        JsonValue::Bool(b) => Ok(JsonValue::Bool(*b)),
        JsonValue::Number(t) => Ok(JsonValue::Number(t.clone())),
        JsonValue::String(x) => resolve_string(x, scopes, m),
        JsonValue::Array(items) => {
            proof {
                assert(decreases_to!(*node => (*node)->Array_0));
            }
            match resolve_items(items, scopes, m) {
                Ok(vs) => Ok(JsonValue::Array(vs)),
                Err(e) => Err(e),
            }
        },
        JsonValue::Object(entries) => {
            proof {
                assert(decreases_to!(*node => (*node)->Object_0));
            }
            match resolve_entries(entries, scopes, m) {
                Ok(es) => Ok(JsonValue::Object(es)),
                Err(e) => Err(e),
            }
        },
    }
}

/// Resolves `template` against `data`: placeholders are looked up in the
/// data, `$each` directives expanded; a path that resolves nowhere is an
/// error unless `on_missing` says to leave it empty.
pub fn render_template(template: &JsonValue, data: &DataValue, on_missing: MissingPlaceholder) -> (r: Result<
    JsonValue,
    TemplateError,
>)
    ensures
        match r {
            Ok(v) => resolved(*template, seq![data], on_missing) == Ok::<JsonView, TemplateFault>(v@),
            Err(e) => resolved(*template, seq![data], on_missing) == Err::<JsonView, TemplateFault>(fault(e)),
        },
{
    let mut scopes: Vec<&DataValue> = Vec::new();
    scopes.push(data);
    assert(scopes@ =~= seq![data]);
    resolve_value(template, &scopes, on_missing)
}

/// A prefix of a digit string is worth no more than the whole.
proof fn lemma_digits_value_prefix(d: Seq<char>, k: nat)
    requires
        k <= d.len(),
    ensures
        digits_value(d.take(k as int)) <= digits_value(d),
    decreases d.len() - k,
{
    if k < d.len() {
        lemma_digits_value_prefix(d, k + 1);
        assert(d.take(k + 1 as int).drop_last() =~= d.take(k as int));
    } else {
        assert(d.take(k as int) =~= d);
    }
}

// ---------------------------------------------------------------------------
// Laws

/// A template tree with no `{{` in any string and no `$each` directive.
pub open spec fn placeholder_free(node: JsonValue) -> bool
    decreases node, 0nat,
{
    match node {
        JsonValue::String(s) => find_pair(s@, '{', '{', 0) is None,
        JsonValue::Array(items) => items_placeholder_free(items@, items@.len()),
        JsonValue::Object(entries) => entries_placeholder_free(entries@, entries@.len()),
        _ => true,
    }
}

/// The first `k` items are placeholder-free and none is a directive.
pub open spec fn items_placeholder_free(items: Seq<JsonValue>, k: nat) -> bool
    decreases items, k,
{
    if k == 0 || k > items.len() {
        true
    } else {
        &&& items_placeholder_free(items, (k - 1) as nat)
        &&& !(items[k - 1] matches JsonValue::Object(entries) && each_parts(entries@) is Some)
        &&& placeholder_free(items[k - 1])
    }
}

/// The first `k` entries' values are placeholder-free.
pub open spec fn entries_placeholder_free(entries: Seq<(String, JsonValue)>, k: nat) -> bool
    decreases entries, k,
{
    if k == 0 || k > entries.len() {
        true
    } else {
        entries_placeholder_free(entries, (k - 1) as nat) && placeholder_free(entries[k - 1].1)
    }
}

proof fn lemma_find_pair_none(s: Seq<char>, a: char, b: char, from: int, i: int)
    requires
        find_pair(s, a, b, from) is None,
        0 <= from <= i,
        i + 1 < s.len(),
    ensures
        !(s[i] == a && s[i + 1] == b),
    decreases i - from,
{
    if from < i {
        lemma_find_pair_none(s, a, b, from + 1, i);
    }
}

proof fn lemma_trim_start_suffix(s: Seq<char>) -> (a: int)
    ensures
        0 <= a <= s.len(),
        trim_start(s) == s.subrange(a, s.len() as int),
    decreases s.len(),
{
    if s.len() > 0 && unicode_whitespace(s[0]) {
        let a1 = lemma_trim_start_suffix(s.drop_first());
        assert(s.drop_first().subrange(a1, s.drop_first().len() as int) =~= s.subrange(a1 + 1, s.len() as int));
        a1 + 1
    } else {
        assert(s.subrange(0, s.len() as int) =~= s);
        0
    }
}

proof fn lemma_trim_end_prefix(s: Seq<char>) -> (b: int)
    ensures
        0 <= b <= s.len(),
        trim_end(s) == s.subrange(0, b),
    decreases s.len(),
{
    if s.len() > 0 && unicode_whitespace(s.last()) {
        let b1 = lemma_trim_end_prefix(s.drop_last());
        assert(s.drop_last().subrange(0, b1) =~= s.subrange(0, b1));
        b1
    } else {
        assert(s.subrange(0, s.len() as int) =~= s);
        s.len() as int
    }
}

/// A string without `{{` resolves to itself, as a string.
pub proof fn lemma_text_without_placeholders_is_unchanged(s: Seq<char>, scopes: Seq<&DataValue>, m: MissingPlaceholder)
    requires
        find_pair(s, '{', '{', 0) is None,
    ensures
        resolved_string(s, scopes, m) == Ok::<JsonView, TemplateFault>(JsonView::Str(s)),
{
    let a = lemma_trim_start_suffix(s);
    let u = trim_start(s);
    let b = lemma_trim_end_prefix(u);
    let t = trim(s);
    assert(t =~= s.subrange(a, a + b));
    if t.len() >= 4 && t[0] == '{' && t[1] == '{' {
        assert(s[a] == '{' && s[a + 1] == '{');
        lemma_find_pair_none(s, '{', '{', 0, a);
    }
    assert(whole_placeholder(s) is None);
    assert(s.subrange(0, s.len() as int) =~= s);
}

/// A string that is exactly one placeholder becomes the value it names,
/// type and all.
pub proof fn lemma_whole_placeholder_keeps_the_value(s: Seq<char>, scopes: Seq<&DataValue>, m: MissingPlaceholder)
    requires
        whole_placeholder(s) is Some,
        placeholder_value(whole_placeholder(s)->0, scopes) is Some,
    ensures
        resolved_string(s, scopes, m) == Ok::<JsonView, TemplateFault>(
            data_json(placeholder_value(whole_placeholder(s)->0, scopes)->0),
        ),
{
}

/// Any other string resolves to a string, or fails.
pub proof fn lemma_embedded_placeholders_give_a_string(s: Seq<char>, scopes: Seq<&DataValue>, m: MissingPlaceholder)
    requires
        whole_placeholder(s) is None,
    ensures
        resolved_string(s, scopes, m) matches Ok(v) ==> v is Str,
{
}

/// Inside `$each`, an element's own fields come first; what it lacks is
/// looked up in the enclosing scopes.
pub proof fn lemma_item_scope_shadows_outer(elem: &DataValue, outer: Seq<&DataValue>, path: Seq<char>)
    requires
        path != seq!['.'],
    ensures
        placeholder_value(path, seq![elem] + outer) == match lookup(*elem, path) {
            Some(v) => Some(v),
            None => find_in_scopes(outer, path),
        },
{
    assert((seq![elem] + outer).drop_first() =~= outer);
    assert((seq![elem] + outer)[0] == elem);
}

/// A template with no placeholder and no `$each` directive resolves to
/// itself, whatever the data.
pub proof fn lemma_placeholder_free_template_is_unchanged(node: JsonValue, scopes: Seq<&DataValue>, m: MissingPlaceholder)
    requires
        placeholder_free(node),
    ensures
        resolved(node, scopes, m) == Ok::<JsonView, TemplateFault>(json_view(node)),
    decreases node, 0nat,
{
    match node {
        JsonValue::String(s) => {
            lemma_text_without_placeholders_is_unchanged(s@, scopes, m);
        },
        JsonValue::Array(items) => {
            lemma_free_items_unchanged(items@, items@.len(), scopes, m);
        },
        JsonValue::Object(entries) => {
            lemma_free_entries_unchanged(entries@, entries@.len(), scopes, m);
        },
        _ => {},
    }
}

proof fn lemma_free_items_unchanged(items: Seq<JsonValue>, k: nat, scopes: Seq<&DataValue>, m: MissingPlaceholder)
    requires
        k <= items.len(),
        items_placeholder_free(items, k),
    ensures
        resolved_items(items, k, scopes, m) == Ok::<Seq<JsonView>, TemplateFault>(json_views(items, k)),
    decreases items, k,
{
    if k > 0 {
        lemma_free_items_unchanged(items, (k - 1) as nat, scopes, m);
        lemma_placeholder_free_template_is_unchanged(items[k - 1], scopes, m);
    }
}

proof fn lemma_free_entries_unchanged(
    entries: Seq<(String, JsonValue)>,
    k: nat,
    scopes: Seq<&DataValue>,
    m: MissingPlaceholder,
)
    requires
        k <= entries.len(),
        entries_placeholder_free(entries, k),
    ensures
        resolved_entries(entries, k, scopes, m) == Ok::<Seq<(Seq<char>, JsonView)>, TemplateFault>(
            json_entry_views(entries, k),
        ),
    decreases entries, k,
{
    if k > 0 {
        lemma_free_entries_unchanged(entries, (k - 1) as nat, scopes, m);
        lemma_placeholder_free_template_is_unchanged(entries[k - 1].1, scopes, m);
    }
}

/// `serde_json::Value`, carried through unread.
#[verifier::external_type_specification]
#[verifier::external_body]
pub struct ExSerdeJsonValue(serde_json::Value);

/// `serde_json::Error`, carried through unread.
#[verifier::external_type_specification]
#[verifier::external_body]
pub struct ExSerdeJsonError(serde_json::Error);

/// The tree `serde_json::from_str::<serde_json::Value>` parses from
/// `text`, or `None` when it refuses the text.
pub uninterp spec fn json_parse(text: Seq<char>) -> Option<JsonView>;

/// The compact text `serde_json::to_string` prints for the tree `v`, or
/// `None` when serde_json refuses it (a number text it cannot read).
pub uninterp spec fn json_compact(v: JsonView) -> Option<Seq<char>>;

/// A `serde_json::Value` as a `JsonValue`, variant by variant.
#[verifier::external_body]
fn from_serde(v: &serde_json::Value) -> JsonValue {
    match v {
        serde_json::Value::Null => JsonValue::Null,
        serde_json::Value::Bool(b) => JsonValue::Bool(*b),
        serde_json::Value::Number(n) => JsonValue::Number(n.to_string()),
        serde_json::Value::String(x) => JsonValue::String(x.clone()),
        serde_json::Value::Array(items) => JsonValue::Array(items.iter().map(from_serde).collect()),
        serde_json::Value::Object(map) => JsonValue::Object(map.iter().map(|(k, x)| (k.clone(), from_serde(x))).collect()),
    }
}

/// A `JsonValue` as a `serde_json::Value`, variant by variant; a number
/// text goes through `serde_json::Number`'s `FromStr`.
#[verifier::external_body]
fn to_serde(v: &JsonValue) -> Result<serde_json::Value, serde_json::Error> {
    Ok(match v {
        JsonValue::Null => serde_json::Value::Null,
        JsonValue::Bool(b) => serde_json::Value::Bool(*b),
        JsonValue::Number(t) => serde_json::Value::Number(t.parse::<serde_json::Number>()?),
        JsonValue::String(x) => serde_json::Value::String(x.clone()),
        JsonValue::Array(items) => serde_json::Value::Array(items.iter().map(to_serde).collect::<Result<Vec<_>, _>>()?),
        JsonValue::Object(es) => serde_json::Value::Object(
            es.iter().map(|(k, x)| Ok((k.clone(), to_serde(x)?))).collect::<Result<serde_json::Map<_, _>, serde_json::Error>>()?,
        ),
    })
}

/// `serde_json::from_str::<serde_json::Value>`, the value taken as a
/// `JsonValue`. Only its result is named (`json_parse`).
#[verifier::external_body]
fn parse_json(text: &str) -> (r: Result<JsonValue, serde_json::Error>)
    ensures
        match r {
            Ok(v) => json_parse(text@) == Some(v@),
            Err(_) => json_parse(text@) is None,
        },
{
    match serde_json::from_str::<serde_json::Value>(text) {
        Ok(v) => Ok(from_serde(&v)),
        Err(e) => Err(e),
    }
}

/// `serde_json::to_string` of `v` taken as a `serde_json::Value`. Only its
/// result is named (`json_compact`).
#[verifier::external_body]
fn json_text(v: &JsonValue) -> (r: Result<String, serde_json::Error>)
    ensures
        match r {
            Ok(s) => json_compact(v@) == Some(s@),
            Err(_) => json_compact(v@) is None,
        },
{
    match to_serde(v) {
        Ok(x) => serde_json::to_string(&x),
        Err(e) => Err(e),
    }
}

/// Whether every array and object in `d` carries its compact JSON text.
pub open spec fn compact_data(d: DataValue) -> bool
    decreases d, 0nat,
{
    match d {
        DataValue::Array(items, t) => json_compact(data_json(d)) == Some(t@) && compact_items(items@, items@.len()),
        DataValue::Object(entries, t) => json_compact(data_json(d)) == Some(t@) && compact_entries(
            entries@,
            entries@.len(),
        ),
        _ => true,
    }
}

/// Whether the first `k` items carry their texts.
pub open spec fn compact_items(items: Seq<DataValue>, k: nat) -> bool
    decreases items, k,
{
    if k == 0 || k > items.len() {
        true
    } else {
        compact_items(items, (k - 1) as nat) && compact_data(items[k - 1])
    }
}

/// Whether the values of the first `k` entries carry their texts.
pub open spec fn compact_entries(entries: Seq<(String, DataValue)>, k: nat) -> bool
    decreases entries, k,
{
    if k == 0 || k > entries.len() {
        true
    } else {
        compact_entries(entries, (k - 1) as nat) && compact_data(entries[k - 1].1)
    }
}

proof fn lemma_data_items_prefix(s: Seq<DataValue>, x: DataValue, k: nat)
    requires
        k <= s.len(),
    ensures
        data_views(s.push(x), k) == data_views(s, k),
        compact_items(s.push(x), k) == compact_items(s, k),
    decreases k,
{
    if k > 0 {
        lemma_data_items_prefix(s, x, (k - 1) as nat);
    }
}

proof fn lemma_data_entries_prefix(s: Seq<(String, DataValue)>, x: (String, DataValue), k: nat)
    requires
        k <= s.len(),
    ensures
        data_entry_views(s.push(x), k) == data_entry_views(s, k),
        compact_entries(s.push(x), k) == compact_entries(s, k),
    decreases k,
{
    if k > 0 {
        lemma_data_entries_prefix(s, x, (k - 1) as nat);
    }
}

/// Whether serde_json prints every array and object in `v`, as the data's
/// compact texts need.
pub open spec fn data_prints(v: JsonView) -> bool
    decreases v, 0nat,
{
    match v {
        JsonView::Array(items) => json_compact(v) is Some && views_print(items, items.len()),
        JsonView::Object(entries) => json_compact(v) is Some && entry_views_print(entries, entries.len()),
        _ => true,
    }
}

/// Whether the first `k` trees print throughout.
pub open spec fn views_print(items: Seq<JsonView>, k: nat) -> bool
    decreases items, k,
{
    if k == 0 || k > items.len() {
        true
    } else {
        views_print(items, (k - 1) as nat) && data_prints(items[k - 1])
    }
}

/// Whether the values of the first `k` entries print throughout.
pub open spec fn entry_views_print(entries: Seq<(Seq<char>, JsonView)>, k: nat) -> bool
    decreases entries, k,
{
    if k == 0 || k > entries.len() {
        true
    } else {
        entry_views_print(entries, (k - 1) as nat) && data_prints(entries[k - 1].1)
    }
}

proof fn lemma_json_views_index(s: Seq<JsonValue>, k: nat)
    requires
        k <= s.len(),
    ensures
        json_views(s, k).len() == k,
        forall|j: int| 0 <= j < k ==> #[trigger] json_views(s, k)[j] == json_view(s[j]),
    decreases k,
{
    if k > 0 {
        lemma_json_views_index(s, (k - 1) as nat);
    }
}

proof fn lemma_json_entry_views_index(s: Seq<(String, JsonValue)>, k: nat)
    requires
        k <= s.len(),
    ensures
        json_entry_views(s, k).len() == k,
        forall|j: int| 0 <= j < k ==> #[trigger] json_entry_views(s, k)[j] == (s[j].0@, json_view(s[j].1)),
    decreases k,
{
    if k > 0 {
        lemma_json_entry_views_index(s, (k - 1) as nat);
    }
}

proof fn lemma_views_print(items: Seq<JsonView>, k: nat)
    requires
        k <= items.len(),
    ensures
        views_print(items, k) <==> forall|j: int| 0 <= j < k ==> data_prints(#[trigger] items[j]),
    decreases k,
{
    if k > 0 {
        lemma_views_print(items, (k - 1) as nat);
    }
}

proof fn lemma_entry_views_print(entries: Seq<(Seq<char>, JsonView)>, k: nat)
    requires
        k <= entries.len(),
    ensures
        entry_views_print(entries, k) <==> forall|j: int| 0 <= j < k ==> data_prints(#[trigger] entries[j].1),
    decreases k,
{
    if k > 0 {
        lemma_entry_views_print(entries, (k - 1) as nat);
    }
}

/// The data value of a parsed tree: the same tree, each array and object
/// with its compact JSON text.
fn to_data(v: &JsonValue) -> (r: Result<DataValue, serde_json::Error>)
    ensures
        r is Ok <==> data_prints(v@),
        r matches Ok(d) ==> data_json(d) == v@ && compact_data(d),
    decreases v,
{
    match v {
        JsonValue::Null => Ok(DataValue::Null),
        JsonValue::Bool(b) => Ok(DataValue::Bool(*b)),
        JsonValue::Number(t) => Ok(DataValue::Number(t.clone())),
        JsonValue::String(x) => Ok(DataValue::String(x.clone())),
        JsonValue::Array(items) => {
            let mut out: Vec<DataValue> = Vec::new();
            let mut i: usize = 0;
            while i < items.len()
                invariant
                    *v == JsonValue::Array(*items),
                    i <= items@.len(),
                    out@.len() == i,
                    data_views(out@, i as nat) == json_views(items@, i as nat),
                    compact_items(out@, i as nat),
                    forall|j: int| 0 <= j < i ==> data_prints(#[trigger] json_view(items@[j])),
                decreases items@.len() - i,
            {
                proof {
                    assert(decreases_to!(*v => (*v)->Array_0));
                    assert(decreases_to!(items => items@));
                    assert(decreases_to!(items@ => items@[i as int]));
                }
                let x = match to_data(&items[i]) {
                    Ok(x) => x,
                    Err(e) => {
                        proof {
                            lemma_json_views_index(items@, items@.len());
                            lemma_views_print(json_views(items@, items@.len()), items@.len());
                            assert(json_views(items@, items@.len())[i as int] == json_view(items@[i as int]));
                        }
                        return Err(e);
                    },
                };
                proof {
                    lemma_data_items_prefix(out@, x, i as nat);
                    assert(out@.push(x)[i as int] == x);
                }
                out.push(x);
                i = i + 1;
            }
            proof {
                lemma_json_views_index(items@, items@.len());
                lemma_views_print(json_views(items@, items@.len()), items@.len());
                assert forall|j: int| 0 <= j < items@.len() implies data_prints(
                    #[trigger] json_views(items@, items@.len())[j],
                ) by {
                    assert(data_prints(json_view(items@[j])));
                }
            }
            let text = match json_text(v) {
                Ok(t) => t,
                Err(e) => {
                    assert(json_compact(v@) is None);
                    return Err(e);
                },
            };
            Ok(DataValue::Array(out, text))
        },
        JsonValue::Object(entries) => {
            let mut out: Vec<(String, DataValue)> = Vec::new();
            let mut i: usize = 0;
            while i < entries.len()
                invariant
                    *v == JsonValue::Object(*entries),
                    i <= entries@.len(),
                    out@.len() == i,
                    data_entry_views(out@, i as nat) == json_entry_views(entries@, i as nat),
                    compact_entries(out@, i as nat),
                    forall|j: int| 0 <= j < i ==> data_prints(#[trigger] json_view(entries@[j].1)),
                decreases entries@.len() - i,
            {
                proof {
                    assert(decreases_to!(*v => (*v)->Object_0));
                    assert(decreases_to!(entries => entries@));
                    assert(decreases_to!(entries@ => entries@[i as int]));
                    assert(decreases_to!(entries@[i as int] => entries@[i as int].1));
                }
                let x = match to_data(&entries[i].1) {
                    Ok(x) => x,
                    Err(e) => {
                        proof {
                            lemma_json_entry_views_index(entries@, entries@.len());
                            lemma_entry_views_print(json_entry_views(entries@, entries@.len()), entries@.len());
                            assert(json_entry_views(entries@, entries@.len())[i as int].1 == json_view(
                                entries@[i as int].1,
                            ));
                        }
                        return Err(e);
                    },
                };
                let k = entries[i].0.clone();
                proof {
                    lemma_data_entries_prefix(out@, (k, x), i as nat);
                    assert(out@.push((k, x))[i as int] == (k, x));
                }
                out.push((k, x));
                i = i + 1;
            }
            proof {
                lemma_json_entry_views_index(entries@, entries@.len());
                lemma_entry_views_print(json_entry_views(entries@, entries@.len()), entries@.len());
                assert forall|j: int| 0 <= j < entries@.len() implies data_prints(
                    #[trigger] json_entry_views(entries@, entries@.len())[j].1,
                ) by {
                    assert(data_prints(json_view(entries@[j].1)));
                }
            }
            let text = match json_text(v) {
                Ok(t) => t,
                Err(e) => {
                    assert(json_compact(v@) is None);
                    return Err(e);
                },
            };
            Ok(DataValue::Object(out, text))
        },
    }
}

/// Why template rendering from JSON text failed.
#[derive(Debug)]
pub enum TemplateJsonError {
    /// The template or the data is not valid JSON, or serde_json refused
    /// to print a value.
    Json(serde_json::Error),
    /// Resolving the template failed.
    Template(TemplateError),
}

/// A template and data value that stand for the parsed texts, the data
/// with the compact text of each array and object.
pub open spec fn parsed_pair(t: JsonValue, d: DataValue, template_text: Seq<char>, data_text: Seq<char>) -> bool {
    &&& json_parse(template_text) == Some(t@)
    &&& json_parse(data_text) == Some(data_json(d))
    &&& compact_data(d)
}

/// Whether `r` is what the resolution `res` gives once printed: the
/// printed tree, a JSON error when serde_json refuses to print it, or the
/// resolution's own error.
pub open spec fn rendered_as(res: Result<JsonView, TemplateFault>, r: Result<String, TemplateJsonError>) -> bool {
    match res {
        Ok(v) => match json_compact(v) {
            Some(s) => r matches Ok(x) && x@ == s,
            None => r matches Err(TemplateJsonError::Json(_)),
        },
        Err(f) => r matches Err(TemplateJsonError::Template(e)) && fault(e) == f,
    }
}

/// Resolves the JSON text `template_json` against the JSON text
/// `data_json` and prints the result as compact JSON. A template or data
/// text that does not parse, or data with an array or object serde_json
/// does not print, fails with a JSON error before any placeholder is
/// looked at; otherwise the result is the resolution of the parsed trees,
/// printed, or the resolution's own error.
pub fn render_template_json(template_json: &str, data_json: &str, on_missing: MissingPlaceholder) -> (r: Result<
    String,
    TemplateJsonError,
>)
    ensures
        json_parse(template_json@) is None ==> r matches Err(TemplateJsonError::Json(_)),
        json_parse(template_json@) is Some && json_parse(data_json@) is None ==> r matches Err(
            TemplateJsonError::Json(_),
        ),
        json_parse(template_json@) is Some && json_parse(data_json@) is Some && !data_prints(json_parse(data_json@)->0) ==> r matches Err(
            TemplateJsonError::Json(_),
        ),
        json_parse(template_json@) is Some && json_parse(data_json@) is Some && data_prints(json_parse(data_json@)->0) ==> exists|
            t: JsonValue,
            d: DataValue,
        |
            #[trigger] parsed_pair(t, d, template_json@, data_json@) && rendered_as(resolved(t, seq![&d], on_missing), r),
{
    let template = match parse_json(template_json) {
        Ok(t) => t,
        Err(e) => return Err(TemplateJsonError::Json(e)),
    };
    let data_tree = match parse_json(data_json) {
        Ok(t) => t,
        Err(e) => return Err(TemplateJsonError::Json(e)),
    };
    let data = match to_data(&data_tree) {
        Ok(d) => d,
        Err(e) => {
            return Err(TemplateJsonError::Json(e));
        },
    };
    assert(parsed_pair(template, data, template_json@, data_json@));
    let r = match render_template(&template, &data, on_missing) {
        Ok(v) => match json_text(&v) {
            Ok(s) => Ok(s),
            Err(e) => Err(TemplateJsonError::Json(e)),
        },
        Err(e) => Err(TemplateJsonError::Template(e)),
    };
    assert(rendered_as(resolved(template, seq![&data], on_missing), r));
    r
}

} // verus!
