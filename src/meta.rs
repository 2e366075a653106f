//! The header extractor: title, summary and free text of a leading block.
use vstd::prelude::*;
use crate::sections::{
    is_heading_at, leading_block, lemma_next_heading_past_block, next_heading, plain_block,
};
use crate::text::{
    find_from, is_ws, lemma_find_from_at, lemma_find_from_bounds, lemma_shift_find_from,
    lemma_shift_skip_hs, lemma_skip_hs_bounds, lemma_trimmed_embed, lemma_trimmed_nonempty, trim,
    trim_start,
    chars_of, find_char, is_hs, is_hs_char, lemma_line_end_after_indent, lemma_next_line_bounds,
    line_end, next_line, next_line_from, skip_hs,
    skip_hs_from, substring, trim_range, trimmed, trimmed_string,
};

verus! {

/// The line at `p`, after its indentation, holds `marker` and then text
/// that is not all whitespace; with `spaced`, a same-line whitespace
/// character must follow the marker.
pub open spec fn is_marked_at(s: Seq<char>, p: int, marker: char, spaced: bool) -> bool {
    let q = skip_hs(s, p);
    &&& 0 <= p
    &&& q < s.len()
    &&& s[q] == marker
    &&& spaced ==> q + 1 < s.len() && is_hs(s[q + 1])
    &&& trimmed(s, q + 1, line_end(s, p)).len() > 0
}

/// The text after the marker on the line at `p`, trimmed.
pub open spec fn marked_text(s: Seq<char>, p: int) -> Seq<char> {
    trimmed(s, skip_hs(s, p) + 1, line_end(s, p))
}

/// A title line: `#`, whitespace, then the title.
pub open spec fn is_title_at(s: Seq<char>, p: int) -> bool {
    is_marked_at(s, p, '#', true)
}

/// A summary line: `>` then the summary.
pub open spec fn is_summary_at(s: Seq<char>, p: int) -> bool {
    is_marked_at(s, p, '>', false)
}

/// The line at `p` holds only whitespace.
pub open spec fn is_blank_at(s: Seq<char>, p: int) -> bool {
    trimmed(s, p, line_end(s, p)).len() == 0
}

/// Start of the first title line at or after the line start `p`, or `s.len()`.
pub open spec fn first_title(s: Seq<char>, p: int) -> int
    decreases s.len() - p,
    via first_title_decreases
{
    if 0 <= p < s.len() {
        if is_title_at(s, p) {
            p
        } else {
            first_title(s, next_line(s, p))
        }
    } else {
        s.len() as int
    }
}

#[via_fn]
proof fn first_title_decreases(s: Seq<char>, p: int) {
    if 0 <= p < s.len() {
        lemma_next_line_bounds(s, p);
    }
}

/// Start of the first line at or after the line start `p` that is not blank,
/// or `s.len()`.
pub open spec fn skip_blank(s: Seq<char>, p: int) -> int
    decreases s.len() - p,
    via skip_blank_decreases
{
    if 0 <= p < s.len() && is_blank_at(s, p) {
        skip_blank(s, next_line(s, p))
    } else {
        p
    }
}

#[via_fn]
proof fn skip_blank_decreases(s: Seq<char>, p: int) {
    if 0 <= p < s.len() {
        lemma_next_line_bounds(s, p);
    }
}

/// Title, summary and free text of a leading block. The title is the text
/// of the first title line; a summary line may follow it after blank lines;
/// the free text is all that follows those, after blank lines, verbatim.
/// Without a title line all three are empty.
pub open spec fn meta_of(s: Seq<char>) -> (Seq<char>, Seq<char>, Seq<char>) {
    let t = first_title(s, 0);
    if t < s.len() {
        let p = skip_blank(s, next_line(s, t));
        if is_summary_at(s, p) {
            (marked_text(s, t), marked_text(s, p), s.subrange(skip_blank(s, next_line(s, p)), s.len() as int))
        } else {
            (marked_text(s, t), Seq::empty(), s.subrange(p, s.len() as int))
        }
    } else {
        (Seq::empty(), Seq::empty(), Seq::empty())
    }
}

pub proof fn lemma_first_title_bounds(s: Seq<char>, p: int)
    requires
        0 <= p <= s.len(),
    ensures
        p <= first_title(s, p) <= s.len(),
        first_title(s, p) < s.len() ==> is_title_at(s, first_title(s, p)),
    decreases s.len() - p,
{
    if p < s.len() && !is_title_at(s, p) {
        lemma_next_line_bounds(s, p);
        lemma_first_title_bounds(s, next_line(s, p));
    }
}

pub proof fn lemma_skip_blank_bounds(s: Seq<char>, p: int)
    requires
        0 <= p <= s.len(),
    ensures
        p <= skip_blank(s, p) <= s.len(),
    decreases s.len() - p,
{
    if p < s.len() && is_blank_at(s, p) {
        lemma_next_line_bounds(s, p);
        lemma_skip_blank_bounds(s, next_line(s, p));
    }
}

/// Computes `is_marked_at`.
fn marked_at_exec(v: &Vec<char>, p: usize, marker: char, spaced: bool) -> (r: bool)
    requires
        p < v.len(),
        marker != '\n',
    ensures
        r == is_marked_at(v@, p as int, marker, spaced),
{
    let q = skip_hs_from(v, p);
    if q >= v.len() || v[q] != marker {
        return false;
    }
    if spaced && !(q + 1 < v.len() && is_hs_char(v[q + 1])) {
        return false;
    }
    proof {
        lemma_line_end_after_indent(v@, p as int);
    }
    let e = find_char(v, p, '\n');
    let (a, b) = trim_range(v, q + 1, e);
    a < b
}

/// Computes `first_title`.
fn first_title_exec(v: &Vec<char>, p: usize) -> (r: usize)
    requires
        p <= v.len(),
    ensures
        r == first_title(v@, p as int),
{
    let mut i = p;
    while i < v.len()
        invariant
            p <= i <= v.len(),
            first_title(v@, i as int) == first_title(v@, p as int),
        decreases v.len() - i,
    {
        if marked_at_exec(v, i, '#', true) {
            return i;
        }
        i = next_line_from(v, i);
    }
    i
}

/// Computes `skip_blank`.
fn skip_blank_exec(v: &Vec<char>, p: usize) -> (r: usize)
    requires
        p <= v.len(),
    ensures
        r == skip_blank(v@, p as int),
{
    let mut i = p;
    while i < v.len()
        invariant
            p <= i <= v.len(),
            skip_blank(v@, i as int) == skip_blank(v@, p as int),
        decreases v.len() - i,
    {
        proof {
            lemma_next_line_bounds(v@, i as int);
        }
        let e = find_char(v, i, '\n');
        let (a, b) = trim_range(v, i, e);
        if a < b {
            return i;
        }
        i = next_line_from(v, i);
    }
    i
}

/// The text after the marker of the marked line at `p`, trimmed.
fn marked_text_exec(txt: &str, v: &Vec<char>, p: usize) -> (r: String)
    requires
        v@ == txt@,
        p < v.len(),
        is_marked_at(v@, p as int, v@[skip_hs(v@, p as int)], false),
        v@[skip_hs(v@, p as int)] != '\n',
    ensures
        r@ == marked_text(txt@, p as int),
{
    proof {
        lemma_line_end_after_indent(v@, p as int);
    }
    let q = skip_hs_from(v, p);
    let e = find_char(v, p, '\n');
    trimmed_string(txt, v, q + 1, e)
}

/// Title, summary and free text of the leading block `txt`.
pub fn extract_meta(txt: &str) -> (r: (String, String, String))
    ensures
        (r.0@, r.1@, r.2@) == meta_of(txt@),
{
    let v = chars_of(txt);
    let t = first_title_exec(&v, 0);
    proof {
        lemma_first_title_bounds(v@, 0);
    }
    if t >= v.len() {
        return (String::new(), String::new(), String::new());
    }
    let title = marked_text_exec(txt, &v, t);
    let after_title = next_line_from(&v, t);
    let p = skip_blank_exec(&v, after_title);
    proof {
        lemma_skip_blank_bounds(v@, after_title as int);
    }
    if p < v.len() && marked_at_exec(&v, p, '>', false) {
        let summary = marked_text_exec(txt, &v, p);
        let after_summary = next_line_from(&v, p);
        let i = skip_blank_exec(&v, after_summary);
        proof {
            lemma_skip_blank_bounds(v@, after_summary as int);
        }
        let info = substring(txt, i, v.len());
        (title, summary, info)
    } else {
        let info = substring(txt, p, v.len());
        (title, String::new(), info)
    }
}

/// Marker tests and line steps on `pre + x` at `|pre| + p` match those on
/// `x` at `p`.
proof fn lemma_shift_meta_line(pre: Seq<char>, x: Seq<char>, p: int, marker: char, spaced: bool)
    requires
        0 <= p <= x.len(),
        marker != '\n',
    ensures
        is_marked_at(pre + x, pre.len() + p, marker, spaced) == is_marked_at(x, p, marker, spaced),
        is_marked_at(x, p, marker, spaced) ==> marked_text(pre + x, pre.len() + p) == marked_text(
            x,
            p,
        ),
        p < x.len() ==> is_blank_at(pre + x, pre.len() + p) == is_blank_at(x, p),
        p < x.len() ==> next_line(pre + x, pre.len() + p) == pre.len() + next_line(x, p),
{
    let s = pre + x;
    let d = pre.len() as int;
    lemma_shift_skip_hs(pre, x, p);
    lemma_shift_find_from(pre, x, p, '\n');
    lemma_skip_hs_bounds(x, p);
    lemma_find_from_bounds(x, p, '\n');
    let q = skip_hs(x, p);
    let e = line_end(x, p);
    assert forall|k: int| 0 <= k < x.len() implies s[d + k] == x[k] by {}
    if q < x.len() {
        assert(s[d + q] == x[q]);
        if q + 1 < x.len() {
            assert(s[d + q + 1] == x[q + 1]);
        }
        if x[q] == marker {
            lemma_line_end_after_indent(x, p);
            lemma_trimmed_embed(s, x, d, q + 1, e);
        }
    }
    if p < x.len() {
        lemma_trimmed_embed(s, x, d, p, e);
    }
}

proof fn lemma_shift_skip_blank(pre: Seq<char>, x: Seq<char>, p: int)
    requires
        0 <= p <= x.len(),
    ensures
        skip_blank(pre + x, pre.len() + p) == pre.len() + skip_blank(x, p),
    decreases x.len() - p,
{
    if p < x.len() {
        lemma_shift_meta_line(pre, x, p, '#', false);
        if is_blank_at(x, p) {
            lemma_next_line_bounds(x, p);
            lemma_shift_skip_blank(pre, x, next_line(x, p));
        }
    }
}

/// The line `m text`, newline included, for a marker `m`.
pub open spec fn marked_line(marker: char, text: Seq<char>) -> Seq<char> {
    seq![marker, ' '] + text + seq!['\n']
}

/// Text for a title or summary: on one line, and not all whitespace.
pub open spec fn line_text_ok(text: Seq<char>) -> bool {
    &&& forall|q: int| 0 <= q < text.len() ==> text[q] != '\n'
    &&& trim(text).len() > 0
}

/// A marked line is marked, not blank, no heading, and gives its text trimmed.
proof fn lemma_marked_line_at(marker: char, text: Seq<char>, rest: Seq<char>)
    requires
        !is_ws(marker),
        line_text_ok(text),
    ensures
        is_marked_at(marked_line(marker, text) + rest, 0, marker, true),
        is_marked_at(marked_line(marker, text) + rest, 0, marker, false),
        marked_text(marked_line(marker, text) + rest, 0) == trim(text),
        !is_blank_at(marked_line(marker, text) + rest, 0),
        next_line(marked_line(marker, text) + rest, 0) == marked_line(marker, text).len(),
        plain_block(marked_line(marker, text)),
{
    let l = marked_line(marker, text);
    let s = l + rest;
    let e = 2 + text.len() as int;
    assert(s[0] == marker && s[1] == ' ' && s[e] == '\n');
    assert(skip_hs(s, 0) == 0);
    assert forall|q: int| 0 <= q < text.len() implies s[2 + q] == text[q] by {}
    assert forall|q: int| 0 <= q < e implies s[q] != '\n' by {
        if q >= 2 {
            assert(s[2 + (q - 2)] == text[q - 2]);
        }
    }
    lemma_find_from_at(s, 0, e, '\n');
    assert(trim_start(s, 1, e) == trim_start(s, 2, e));
    lemma_trimmed_embed(s, text, 2, 0, text.len() as int);
    lemma_trimmed_nonempty(s, 0, e);
    assert(l[0] == marker && l[1] == ' ' && l[e] == '\n');
    assert(skip_hs(l, 0) == 0);
    assert forall|q: int| 0 <= q < e implies l[q] != '\n' by {
        assert(s[q] == l[q]);
    }
    lemma_find_from_at(l, 0, e, '\n');
    assert(!is_heading_at(l, 0));
    assert(next_heading(l, l.len() as int) == l.len());
}

/// A document made of a title line `# title` and then plain text whose
/// first non-blank line is no summary line has that title, trimmed, an
/// empty summary, and the plain text from its first non-blank line on as
/// its free text.
pub proof fn lemma_title_without_summary(title: Seq<char>, rest: Seq<char>)
    requires
        line_text_ok(title),
        plain_block(rest),
        !is_summary_at(rest, skip_blank(rest, 0)),
    ensures
        meta_of(leading_block(marked_line('#', title) + rest)) == (
            trim(title),
            Seq::<char>::empty(),
            rest.subrange(skip_blank(rest, 0), rest.len() as int),
        ),
{
    let l = marked_line('#', title);
    let s = l + rest;
    lemma_marked_line_at('#', title, rest);
    lemma_next_heading_past_block(l, rest, 0);
    assert(leading_block(s) =~= s);
    assert(first_title(s, 0) == 0);
    lemma_shift_skip_blank(l, rest, 0);
    lemma_skip_blank_bounds(rest, 0);
    lemma_shift_meta_line(l, rest, skip_blank(rest, 0), '>', false);
    assert(s.subrange(l.len() + skip_blank(rest, 0), s.len() as int) =~= rest.subrange(
        skip_blank(rest, 0),
        rest.len() as int,
    ));
}

/// A document made of a title line `# title`, blank lines, a summary line
/// `> summary`, and then plain text has that title and that summary, both
/// trimmed, and the plain text from its first non-blank line on as its free
/// text.
pub proof fn lemma_title_with_summary(
    title: Seq<char>,
    blanks: Seq<char>,
    summary: Seq<char>,
    rest: Seq<char>,
)
    requires
        line_text_ok(title),
        line_text_ok(summary),
        forall|q: int| 0 <= q < blanks.len() ==> blanks[q] == '\n',
        plain_block(rest),
    ensures
        meta_of(leading_block(marked_line('#', title) + blanks + marked_line('>', summary) + rest))
            == (trim(title), trim(summary), rest.subrange(skip_blank(rest, 0), rest.len() as int)),
{
    let l = marked_line('#', title);
    let sl = marked_line('>', summary);
    let tail = sl + rest;
    let x = blanks + tail;
    let s = l + x;
    assert(l + blanks + sl + rest =~= s);
    lemma_marked_line_at('#', title, x);
    lemma_marked_line_at('>', summary, rest);
    lemma_next_heading_past_block(sl, rest, 0);
    lemma_blank_lines(blanks, tail, 0);
    lemma_next_heading_past_block(blanks, tail, 0);
    lemma_next_heading_past_block(l, x, 0);
    assert(leading_block(s) =~= s);
    assert(first_title(s, 0) == 0);
    lemma_shift_skip_blank(l, x, 0);
    lemma_shift_skip_blank(blanks, tail, 0);
    assert(skip_blank(tail, 0) == 0);
    assert(blanks + tail =~= x);
    lemma_shift_meta_line(blanks, tail, 0, '>', false);
    let p = l.len() + blanks.len();
    assert(l + (blanks + tail) =~= (l + blanks) + tail);
    lemma_shift_meta_line(l + blanks, tail, 0, '>', false);
    lemma_shift_skip_blank(l + blanks, tail, sl.len() as int);
    lemma_shift_skip_blank(sl, rest, 0);
    lemma_skip_blank_bounds(rest, 0);
    assert(s.subrange(p + sl.len() + skip_blank(rest, 0), s.len() as int) =~= rest.subrange(
        skip_blank(rest, 0),
        rest.len() as int,
    ));
}

/// Lines made only of newlines are blank and hold no heading.
proof fn lemma_blank_lines(blanks: Seq<char>, tail: Seq<char>, p: int)
    requires
        0 <= p <= blanks.len(),
        forall|q: int| 0 <= q < blanks.len() ==> blanks[q] == '\n',
    ensures
        next_heading(blanks, p) == blanks.len(),
        skip_blank(blanks + tail, p) == skip_blank(blanks + tail, blanks.len() as int),
    decreases blanks.len() - p,
{
    if p < blanks.len() {
        let s = blanks + tail;
        assert(blanks[p] == '\n' && s[p] == '\n');
        assert(skip_hs(blanks, p) == p);
        assert(find_from(blanks, p, '\n') == p);
        assert(find_from(s, p, '\n') == p);
        assert(trim_start(s, p, p) == p);
        assert(!is_heading_at(blanks, p));
        lemma_blank_lines(blanks, tail, p + 1);
    }
}

} // verus!
