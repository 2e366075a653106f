//! Character-level helpers shared by the scanners, with their spec models.
//!
//! Positions are character indices into the text. Each scan has a spec
//! function that says what it finds and an executable function proved to
//! compute it.
use vstd::prelude::*;

verus! {

/// Whitespace: the characters of Unicode's `White_Space` property, as
/// `char::is_whitespace` and `str::trim` take them.
pub open spec fn is_ws(c: char) -> bool {
    ||| '\t' <= c <= '\r'
    ||| c == ' '
    ||| c == '\u{85}'
    ||| c == '\u{A0}'
    ||| c == '\u{1680}'
    ||| '\u{2000}' <= c <= '\u{200A}'
    ||| c == '\u{2028}'
    ||| c == '\u{2029}'
    ||| c == '\u{202F}'
    ||| c == '\u{205F}'
    ||| c == '\u{3000}'
}

/// Whitespace that does not end a line.
pub open spec fn is_hs(c: char) -> bool {
    is_ws(c) && c != '\n'
}

/// First index at or after `i` that holds `c`, or `s.len()` when there is none.
pub open spec fn find_from(s: Seq<char>, i: int, c: char) -> int
    decreases s.len() - i,
{
    if i < 0 || i >= s.len() {
        s.len() as int
    } else if s[i] == c {
        i
    } else {
        find_from(s, i + 1, c)
    }
}

/// First index at or after `i` that holds `c` or a newline, or `s.len()`.
pub open spec fn find_in_line(s: Seq<char>, i: int, c: char) -> int
    decreases s.len() - i,
{
    if i < 0 || i >= s.len() {
        s.len() as int
    } else if s[i] == c || s[i] == '\n' {
        i
    } else {
        find_in_line(s, i + 1, c)
    }
}

/// First index at or after `i` that is not same-line whitespace, or `s.len()`.
pub open spec fn skip_hs(s: Seq<char>, i: int) -> int
    decreases s.len() - i,
{
    if 0 <= i < s.len() && is_hs(s[i]) {
        skip_hs(s, i + 1)
    } else {
        i
    }
}

/// Index of the newline that ends the line holding `i`, or `s.len()`.
pub open spec fn line_end(s: Seq<char>, i: int) -> int {
    find_from(s, i, '\n')
}

/// Start of the line after the one holding `i`, or `s.len()` on the last line.
pub open spec fn next_line(s: Seq<char>, i: int) -> int {
    if line_end(s, i) < s.len() {
        line_end(s, i) + 1
    } else {
        s.len() as int
    }
}

/// First index in `[i, b)` that is not whitespace, or `b`.
pub open spec fn trim_start(s: Seq<char>, i: int, b: int) -> int
    decreases b - i,
{
    if i < b && 0 <= i < s.len() && is_ws(s[i]) {
        trim_start(s, i + 1, b)
    } else {
        i
    }
}

/// Smallest `e` in `[a, b]` such that `s[e..b)` is all whitespace.
pub open spec fn trim_end(s: Seq<char>, a: int, b: int) -> int
    decreases b - a,
{
    if a < b && 0 < b <= s.len() && is_ws(s[b - 1]) {
        trim_end(s, a, b - 1)
    } else {
        b
    }
}

/// `s[a..b)` without its leading and trailing whitespace.
pub open spec fn trimmed(s: Seq<char>, a: int, b: int) -> Seq<char> {
    s.subrange(trim_start(s, a, b), trim_end(s, trim_start(s, a, b), b))
}

/// A sequence without its leading and trailing whitespace.
pub open spec fn trim(x: Seq<char>) -> Seq<char> {
    trimmed(x, 0, x.len() as int)
}

pub proof fn lemma_find_from_bounds(s: Seq<char>, i: int, c: char)
    requires
        0 <= i <= s.len(),
    ensures
        i <= find_from(s, i, c) <= s.len(),
        find_from(s, i, c) < s.len() ==> s[find_from(s, i, c)] == c,
        forall|k: int| i <= k < find_from(s, i, c) ==> s[k] != c,
    decreases s.len() - i,
{
    if i < s.len() && s[i] != c {
        lemma_find_from_bounds(s, i + 1, c);
    }
}

pub proof fn lemma_find_in_line_bounds(s: Seq<char>, i: int, c: char)
    requires
        0 <= i <= s.len(),
    ensures
        i <= find_in_line(s, i, c) <= s.len(),
        forall|k: int| i <= k < find_in_line(s, i, c) ==> s[k] != c && s[k] != '\n',
    decreases s.len() - i,
{
    if i < s.len() && s[i] != c && s[i] != '\n' {
        lemma_find_in_line_bounds(s, i + 1, c);
    }
}

pub proof fn lemma_skip_hs_bounds(s: Seq<char>, i: int)
    requires
        0 <= i,
    ensures
        i <= skip_hs(s, i),
        i <= s.len() ==> skip_hs(s, i) <= s.len(),
        forall|k: int| i <= k < skip_hs(s, i) ==> is_hs(#[trigger] s[k]),
    decreases s.len() - i,
{
    if 0 <= i < s.len() && is_hs(s[i]) {
        lemma_skip_hs_bounds(s, i + 1);
    }
}

pub proof fn lemma_next_line_bounds(s: Seq<char>, i: int)
    requires
        0 <= i < s.len(),
    ensures
        i < next_line(s, i) <= s.len(),
        i <= line_end(s, i) <= s.len(),
{
    lemma_find_from_bounds(s, i, '\n');
}

/// A line's first character past its indentation, when it is no newline,
/// lies before the line's end.
pub proof fn lemma_line_end_after_indent(s: Seq<char>, p: int)
    requires
        0 <= p,
        skip_hs(s, p) < s.len(),
        s[skip_hs(s, p)] != '\n',
    ensures
        p <= skip_hs(s, p) < line_end(s, p) <= s.len(),
{
    lemma_skip_hs_bounds(s, p);
    lemma_find_from_bounds(s, p, '\n');
    let e = line_end(s, p);
    if e < skip_hs(s, p) {
        assert(is_hs(s[e]));
    }
}

pub proof fn lemma_trim_bounds(s: Seq<char>, a: int, b: int)
    requires
        0 <= a <= b <= s.len(),
    ensures
        a <= trim_start(s, a, b) <= b,
        trim_start(s, a, b) <= trim_end(s, trim_start(s, a, b), b) <= b,
{
    lemma_trim_start_bounds(s, a, b);
    lemma_trim_end_bounds(s, trim_start(s, a, b), b);
}

proof fn lemma_trim_start_bounds(s: Seq<char>, i: int, b: int)
    requires
        0 <= i <= b <= s.len(),
    ensures
        i <= trim_start(s, i, b) <= b,
    decreases b - i,
{
    if i < b && is_ws(s[i]) {
        lemma_trim_start_bounds(s, i + 1, b);
    }
}

proof fn lemma_trim_end_bounds(s: Seq<char>, a: int, b: int)
    requires
        0 <= a <= b <= s.len(),
    ensures
        a <= trim_end(s, a, b) <= b,
    decreases b - a,
{
    if a < b && is_ws(s[b - 1]) {
        lemma_trim_end_bounds(s, a, b - 1);
    }
}

/// Executable whitespace test.
pub fn is_ws_char(c: char) -> (r: bool)
    ensures
        r == is_ws(c),
{
    ('\t' <= c && c <= '\r') || c == ' ' || c == '\u{85}' || c == '\u{A0}' || c == '\u{1680}'
        || ('\u{2000}' <= c && c <= '\u{200A}') || c == '\u{2028}' || c == '\u{2029}' || c
        == '\u{202F}' || c == '\u{205F}' || c == '\u{3000}'
}

/// Executable same-line whitespace test.
pub fn is_hs_char(c: char) -> (r: bool)
    ensures
        r == is_hs(c),
{
    c != '\n' && is_ws_char(c)
}

/// The characters of `s`, in order, as a vector.
pub fn chars_of(s: &str) -> (v: Vec<char>)
    ensures
        v@ == s@,
{
    let mut v: Vec<char> = Vec::new();
    for c in it: s.chars()
        invariant
            v@ == it.seq().take(it.index() as int),
    {
        v.push(c);
    }
    v
}

/// Computes `find_from`.
pub fn find_char(v: &Vec<char>, i: usize, c: char) -> (r: usize)
    requires
        i <= v.len(),
    ensures
        r == find_from(v@, i as int, c),
{
    let mut j = i;
    while j < v.len() && v[j] != c
        invariant
            i <= j <= v.len(),
            find_from(v@, j as int, c) == find_from(v@, i as int, c),
        decreases v.len() - j,
    {
        j = j + 1;
    }
    j
}

/// Computes `find_in_line`.
pub fn find_char_in_line(v: &Vec<char>, i: usize, c: char) -> (r: usize)
    requires
        i <= v.len(),
    ensures
        r == find_in_line(v@, i as int, c),
{
    let mut j = i;
    while j < v.len() && v[j] != c && v[j] != '\n'
        invariant
            i <= j <= v.len(),
            find_in_line(v@, j as int, c) == find_in_line(v@, i as int, c),
        decreases v.len() - j,
    {
        j = j + 1;
    }
    j
}

/// Computes `skip_hs`.
pub fn skip_hs_from(v: &Vec<char>, i: usize) -> (r: usize)
    requires
        i <= v.len(),
    ensures
        r == skip_hs(v@, i as int),
        i <= r <= v.len(),
{
    let mut j = i;
    while j < v.len() && is_hs_char(v[j])
        invariant
            i <= j <= v.len(),
            skip_hs(v@, j as int) == skip_hs(v@, i as int),
        decreases v.len() - j,
    {
        j = j + 1;
    }
    j
}

/// Computes `next_line`.
pub fn next_line_from(v: &Vec<char>, i: usize) -> (r: usize)
    requires
        i <= v.len(),
    ensures
        r == next_line(v@, i as int),
        i < v.len() ==> i < r,
        r <= v.len(),
{
    proof {
        lemma_find_from_bounds(v@, i as int, '\n');
    }
    let e = find_char(v, i, '\n');
    if e < v.len() {
        e + 1
    } else {
        e
    }
}

/// Bounds of `s[a..b)` once its surrounding whitespace is dropped.
pub fn trim_range(v: &Vec<char>, a: usize, b: usize) -> (r: (usize, usize))
    requires
        a <= b <= v.len(),
    ensures
        r.0 == trim_start(v@, a as int, b as int),
        r.1 == trim_end(v@, r.0 as int, b as int),
        a <= r.0 <= r.1 <= b,
{
    let mut i = a;
    while i < b && is_ws_char(v[i])
        invariant
            a <= i <= b <= v.len(),
            trim_start(v@, i as int, b as int) == trim_start(v@, a as int, b as int),
        decreases b - i,
    {
        i = i + 1;
    }
    let mut e = b;
    while i < e && is_ws_char(v[e - 1])
        invariant
            a <= i <= e <= b <= v.len(),
            trim_end(v@, i as int, e as int) == trim_end(v@, i as int, b as int),
        decreases e - i,
    {
        e = e - 1;
    }
    (i, e)
}

/// The characters `s[a..b)` as an owned string.
pub fn substring(s: &str, a: usize, b: usize) -> (r: String)
    requires
        a <= b <= s@.len(),
    ensures
        r@ == s@.subrange(a as int, b as int),
{
    s.substring_char(a, b).to_owned()
}

/// `s[a..b)` without its surrounding whitespace, as an owned string.
pub fn trimmed_string(s: &str, v: &Vec<char>, a: usize, b: usize) -> (r: String)
    requires
        v@ == s@,
        a <= b <= v.len(),
    ensures
        r@ == trimmed(s@, a as int, b as int),
{
    let (i, e) = trim_range(v, a, b);
    substring(s, i, e)
}

/// Scanning `pre + x` from `|pre| + i` finds what scanning `x` from `i`
/// finds, shifted by `|pre|`; the same holds of every scan below.
pub proof fn lemma_shift_find_from(pre: Seq<char>, x: Seq<char>, i: int, c: char)
    requires
        0 <= i <= x.len(),
    ensures
        find_from(pre + x, pre.len() + i, c) == pre.len() + find_from(x, i, c),
    decreases x.len() - i,
{
    if i < x.len() {
        assert((pre + x)[pre.len() + i] == x[i]);
        lemma_shift_find_from(pre, x, i + 1, c);
    }
}

pub proof fn lemma_shift_find_in_line(pre: Seq<char>, x: Seq<char>, i: int, c: char)
    requires
        0 <= i <= x.len(),
    ensures
        find_in_line(pre + x, pre.len() + i, c) == pre.len() + find_in_line(x, i, c),
    decreases x.len() - i,
{
    if i < x.len() {
        assert((pre + x)[pre.len() + i] == x[i]);
        lemma_shift_find_in_line(pre, x, i + 1, c);
    }
}

pub proof fn lemma_shift_skip_hs(pre: Seq<char>, x: Seq<char>, i: int)
    requires
        0 <= i <= x.len(),
    ensures
        skip_hs(pre + x, pre.len() + i) == pre.len() + skip_hs(x, i),
    decreases x.len() - i,
{
    if i < x.len() {
        assert((pre + x)[pre.len() + i] == x[i]);
        lemma_shift_skip_hs(pre, x, i + 1);
    }
}

/// Trimming reads only the range it trims: where `s` holds `x[a..b)` at
/// offset `off`, both trim to the same characters.
pub proof fn lemma_trimmed_embed(s: Seq<char>, x: Seq<char>, off: int, a: int, b: int)
    requires
        0 <= a <= b <= x.len(),
        0 <= off,
        off + b <= s.len(),
        forall|q: int| a <= q < b ==> s[off + q] == x[q],
    ensures
        trimmed(s, off + a, off + b) == trimmed(x, a, b),
{
    lemma_embed_trim_start(s, x, off, a, b);
    lemma_trim_bounds(x, a, b);
    let t = trim_start(x, a, b);
    lemma_embed_trim_end(s, x, off, t, b);
    assert(s.subrange(off + t, off + trim_end(x, t, b)) =~= x.subrange(t, trim_end(x, t, b)));
}

proof fn lemma_embed_trim_start(s: Seq<char>, x: Seq<char>, off: int, i: int, b: int)
    requires
        0 <= i <= b <= x.len(),
        0 <= off,
        off + b <= s.len(),
        forall|q: int| i <= q < b ==> s[off + q] == x[q],
    ensures
        trim_start(s, off + i, off + b) == off + trim_start(x, i, b),
    decreases b - i,
{
    if i < b {
        assert(s[off + i] == x[i]);
        lemma_embed_trim_start(s, x, off, i + 1, b);
    }
}

proof fn lemma_embed_trim_end(s: Seq<char>, x: Seq<char>, off: int, a: int, b: int)
    requires
        0 <= a <= b <= x.len(),
        0 <= off,
        off + b <= s.len(),
        forall|q: int| a <= q < b ==> s[off + q] == x[q],
    ensures
        trim_end(s, off + a, off + b) == off + trim_end(x, a, b),
    decreases b - a,
{
    if a < b {
        assert(s[off + b - 1] == x[b - 1]);
        lemma_embed_trim_end(s, x, off, a, b - 1);
    }
}

/// A scan for `c` that meets neither `c` nor a newline before `k`, where
/// `c` stands, stops at `k`.
pub proof fn lemma_find_in_line_at(s: Seq<char>, i: int, k: int, c: char)
    requires
        0 <= i <= k < s.len(),
        s[k] == c,
        forall|q: int| i <= q < k ==> s[q] != c && s[q] != '\n',
    ensures
        find_in_line(s, i, c) == k,
    decreases k - i,
{
    if i < k {
        lemma_find_in_line_at(s, i + 1, k, c);
    }
}

/// A scan for `c` from a point after which it never occurs ends at `s.len()`.
pub proof fn lemma_find_from_at(s: Seq<char>, i: int, k: int, c: char)
    requires
        0 <= i <= k <= s.len(),
        k < s.len() ==> s[k] == c,
        forall|q: int| i <= q < k ==> s[q] != c,
    ensures
        find_from(s, i, c) == k,
    decreases k - i,
{
    if i < k {
        lemma_find_from_at(s, i + 1, k, c);
    }
}

/// A scan for `c` that succeeds inside `x` is not changed by text after `x`.
pub proof fn lemma_prefix_find_from(x: Seq<char>, rest: Seq<char>, i: int, c: char)
    requires
        0 <= i <= x.len(),
        find_from(x, i, c) < x.len(),
    ensures
        find_from(x + rest, i, c) == find_from(x, i, c),
    decreases x.len() - i,
{
    if i < x.len() && x[i] != c {
        lemma_prefix_find_from(x, rest, i + 1, c);
    }
}

/// Indentation that ends inside `x` is not changed by text after `x`.
pub proof fn lemma_prefix_skip_hs(x: Seq<char>, rest: Seq<char>, i: int)
    requires
        0 <= i <= x.len(),
        skip_hs(x, i) < x.len(),
    ensures
        skip_hs(x + rest, i) == skip_hs(x, i),
    decreases x.len() - i,
{
    if i < x.len() && is_hs(x[i]) {
        lemma_prefix_skip_hs(x, rest, i + 1);
    }
}

/// Indentation never runs past the end of its line.
pub proof fn lemma_indent_within_line(s: Seq<char>, p: int)
    requires
        0 <= p <= s.len(),
    ensures
        p <= skip_hs(s, p) <= line_end(s, p) <= s.len(),
{
    lemma_skip_hs_bounds(s, p);
    lemma_find_from_bounds(s, p, '\n');
    let e = line_end(s, p);
    if e < skip_hs(s, p) {
        assert(is_hs(s[e]));
    }
}

/// A range that starts on a non-whitespace character keeps it when trimmed.
pub proof fn lemma_trimmed_nonempty(s: Seq<char>, a: int, b: int)
    requires
        0 <= a < b <= s.len(),
        !is_ws(s[a]),
    ensures
        trimmed(s, a, b).len() > 0,
    decreases b - a,
{
    lemma_trim_end_past(s, a, b);
}

proof fn lemma_trim_end_past(s: Seq<char>, a: int, b: int)
    requires
        0 <= a < b <= s.len(),
        !is_ws(s[a]),
    ensures
        a < trim_end(s, a, b) <= b,
    decreases b - a,
{
    if is_ws(s[b - 1]) {
        lemma_trim_end_past(s, a, b - 1);
    }
}

/// Indentation made of the characters `s[i..k)` ends at `k`.
pub proof fn lemma_skip_hs_at(s: Seq<char>, i: int, k: int)
    requires
        0 <= i <= k <= s.len(),
        k < s.len() ==> !is_hs(s[k]),
        forall|q: int| i <= q < k ==> is_hs(s[q]),
    ensures
        skip_hs(s, i) == k,
    decreases k - i,
{
    if i < k {
        lemma_skip_hs_at(s, i + 1, k);
    }
}

} // verus!
