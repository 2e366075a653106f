//! The section splitter: cuts a document at its second-level heading lines
//! into a leading block and one (heading, body) pair per heading, in order.
use vstd::prelude::*;
use crate::text::{
    chars_of, find_char, find_from, lemma_find_from_bounds, lemma_next_line_bounds,
    lemma_find_from_at, lemma_indent_within_line, lemma_prefix_find_from, lemma_prefix_skip_hs,
    lemma_shift_find_from, lemma_shift_skip_hs, lemma_skip_hs_bounds, lemma_trimmed_embed,
    line_end, next_line, next_line_from, skip_hs, skip_hs_from, substring, trim, trim_start,
    trimmed, trimmed_string,
};

verus! {

/// The line that starts at `p` is a heading: same-line whitespace, then `##`.
pub open spec fn is_heading_at(s: Seq<char>, p: int) -> bool {
    let q = skip_hs(s, p);
    0 <= p && q + 1 < s.len() && s[q] == '#' && s[q + 1] == '#'
}

/// The text of the heading line at `p`: what follows `##`, trimmed.
pub open spec fn heading_name(s: Seq<char>, p: int) -> Seq<char> {
    trimmed(s, skip_hs(s, p) + 2, line_end(s, p))
}

/// Start of the first heading line at or after the line start `p`, or
/// `s.len()` when no line from there on is a heading.
pub open spec fn next_heading(s: Seq<char>, p: int) -> int
    decreases s.len() - p,
    via next_heading_decreases
{
    if 0 <= p < s.len() {
        if is_heading_at(s, p) {
            p
        } else {
            next_heading(s, next_line(s, p))
        }
    } else {
        s.len() as int
    }
}

#[via_fn]
proof fn next_heading_decreases(s: Seq<char>, p: int) {
    if 0 <= p < s.len() {
        lemma_next_line_bounds(s, p);
    }
}

/// The (heading, body) pairs from the heading line at `p` on: each body
/// runs from the line after its heading to the next heading line.
pub open spec fn sections_from(s: Seq<char>, p: int) -> Seq<(Seq<char>, Seq<char>)>
    decreases s.len() - p,
    via sections_from_decreases
{
    if 0 <= p < s.len() {
        let b = next_line(s, p);
        let n = next_heading(s, b);
        seq![(heading_name(s, p), s.subrange(b, n))] + sections_from(s, n)
    } else {
        Seq::empty()
    }
}

#[via_fn]
proof fn sections_from_decreases(s: Seq<char>, p: int) {
    if 0 <= p < s.len() {
        lemma_next_line_bounds(s, p);
        lemma_next_heading_bounds(s, next_line(s, p));
    }
}

/// The text before the first heading line.
pub open spec fn leading_block(s: Seq<char>) -> Seq<char> {
    s.subrange(0, next_heading(s, 0))
}

/// The (heading, body) pairs of the whole text, in source order.
pub open spec fn section_pairs(s: Seq<char>) -> Seq<(Seq<char>, Seq<char>)> {
    sections_from(s, next_heading(s, 0))
}

pub proof fn lemma_next_heading_bounds(s: Seq<char>, p: int)
    requires
        0 <= p <= s.len(),
    ensures
        p <= next_heading(s, p) <= s.len(),
        next_heading(s, p) < s.len() ==> is_heading_at(s, next_heading(s, p)),
    decreases s.len() - p,
{
    if p < s.len() && !is_heading_at(s, p) {
        lemma_next_line_bounds(s, p);
        lemma_next_heading_bounds(s, next_line(s, p));
    }
}

/// The views of (heading, body) string pairs.
pub open spec fn pairs_view(v: Seq<(String, String)>) -> Seq<(Seq<char>, Seq<char>)> {
    v.map_values(|p: (String, String)| (p.0@, p.1@))
}

/// Computes `is_heading_at`, with the index just after its `##` when it holds.
fn heading_at_exec(v: &Vec<char>, p: usize) -> (r: Option<usize>)
    requires
        p < v.len(),
    ensures
        r is Some <==> is_heading_at(v@, p as int),
        r is Some ==> r->0 == skip_hs(v@, p as int) + 2 && r->0 <= line_end(v@, p as int),
{
    let q = skip_hs_from(v, p);
    if q < v.len() && v[q] == '#' && q + 1 < v.len() && v[q + 1] == '#' {
        proof {
            lemma_skip_hs_bounds(v@, p as int);
            lemma_find_from_bounds(v@, p as int, '\n');
            let e = line_end(v@, p as int);
            if e < q + 2 {
                assert(v@[e] == '\n');
                if e < q {
                    assert(crate::text::is_hs(v@[e]));
                }
            }
        }
        Some(q + 2)
    } else {
        None
    }
}

/// Computes `next_heading`.
fn next_heading_exec(v: &Vec<char>, p: usize) -> (r: usize)
    requires
        p <= v.len(),
    ensures
        r == next_heading(v@, p as int),
        p <= r <= v.len(),
{
    let mut i = p;
    while i < v.len()
        invariant
            p <= i <= v.len(),
            next_heading(v@, i as int) == next_heading(v@, p as int),
        decreases v.len() - i,
    {
        if heading_at_exec(v, i).is_some() {
            return i;
        }
        i = next_line_from(v, i);
    }
    i
}

/// Splits `txt` into the text before its first heading line and the
/// (heading, body) pairs of its headings, in the order they appear. Two
/// headings with one text give two pairs.
pub fn split_sections(txt: &str) -> (r: (String, Vec<(String, String)>))
    ensures
        r.0@ == leading_block(txt@),
        pairs_view(r.1@) == section_pairs(txt@),
{
    let v = chars_of(txt);
    let first = next_heading_exec(&v, 0);
    let leading = substring(txt, 0, first);
    proof {
        lemma_next_heading_bounds(txt@, 0);
    }
    let mut out: Vec<(String, String)> = Vec::new();
    let mut p = first;
    while p < v.len()
        invariant
            v@ == txt@,
            p <= v.len(),
            p < v.len() ==> is_heading_at(v@, p as int),
            pairs_view(out@) + sections_from(txt@, p as int) == section_pairs(txt@),
        decreases v.len() - p,
    {
        let after = heading_at_exec(&v, p);
        let name_start = match after {
            Some(a) => a,
            None => p,
        };
        proof {
            lemma_find_from_bounds(txt@, p as int, '\n');
        }
        let e = find_char(&v, p, '\n');
        let name = trimmed_string(txt, &v, name_start, e);
        let b = next_line_from(&v, p);
        let n = next_heading_exec(&v, b);
        let body = substring(txt, b, n);
        let ghost before = out@;
        proof {
            lemma_next_heading_bounds(txt@, b as int);
        }
        out.push((name, body));
        proof {
            assert(pairs_view(out@) =~= pairs_view(before) + seq![(heading_name(txt@, p as int), txt@.subrange(b as int, n as int))]);
            assert(pairs_view(out@) + sections_from(txt@, n as int) =~= pairs_view(before)
                + sections_from(txt@, p as int));
        }
        p = n;
    }
    proof {
        assert(pairs_view(out@) =~= pairs_view(out@) + sections_from(txt@, p as int));
    }
    (leading, out)
}

/// A heading's name lies on its own line, after its `##`.
pub proof fn lemma_heading_name_bounds(s: Seq<char>, p: int)
    requires
        p <= s.len(),
        is_heading_at(s, p),
    ensures
        skip_hs(s, p) + 2 <= line_end(s, p) <= s.len(),
{
    lemma_indent_within_line(s, p);
    lemma_find_from_bounds(s, p, '\n');
    let q = skip_hs(s, p);
    if line_end(s, p) < q + 2 {
        assert(s[line_end(s, p)] == '\n');
    }
}

/// Heading tests and line steps on `pre + x` at `|pre| + p` match those on
/// `x` at `p`.
proof fn lemma_shift_line(pre: Seq<char>, x: Seq<char>, p: int)
    requires
        0 <= p < x.len(),
    ensures
        is_heading_at(pre + x, pre.len() + p) == is_heading_at(x, p),
        next_line(pre + x, pre.len() + p) == pre.len() + next_line(x, p),
        is_heading_at(x, p) ==> heading_name(pre + x, pre.len() + p) == heading_name(x, p),
{
    let s = pre + x;
    let d = pre.len() as int;
    lemma_shift_skip_hs(pre, x, p);
    lemma_shift_find_from(pre, x, p, '\n');
    lemma_skip_hs_bounds(x, p);
    let q = skip_hs(x, p);
    if q + 1 < x.len() {
        assert(s[d + q] == x[q]);
        assert(s[d + q + 1] == x[q + 1]);
    }
    if is_heading_at(x, p) {
        lemma_heading_name_bounds(x, p);
        lemma_find_from_bounds(x, p, '\n');
        assert forall|k: int| q + 2 <= k < line_end(x, p) implies s[d + k] == x[k] by {}
        lemma_trimmed_embed(s, x, d, q + 2, line_end(x, p));
    }
}

proof fn lemma_shift_next_heading(pre: Seq<char>, x: Seq<char>, p: int)
    requires
        0 <= p <= x.len(),
    ensures
        next_heading(pre + x, pre.len() + p) == pre.len() + next_heading(x, p),
    decreases x.len() - p,
{
    if p < x.len() {
        lemma_shift_line(pre, x, p);
        if !is_heading_at(x, p) {
            lemma_next_line_bounds(x, p);
            lemma_shift_next_heading(pre, x, next_line(x, p));
        }
    }
}

/// Splitting `pre + x` from `|pre| + p` gives the pairs that splitting `x`
/// from the heading line (or end) `p` gives.
proof fn lemma_shift_sections_from(pre: Seq<char>, x: Seq<char>, p: int)
    requires
        0 <= p <= x.len(),
        p < x.len() ==> is_heading_at(x, p),
    ensures
        sections_from(pre + x, pre.len() + p) == sections_from(x, p),
    decreases x.len() - p,
{
    if p < x.len() {
        let s = pre + x;
        let d = pre.len() as int;
        lemma_shift_line(pre, x, p);
        lemma_next_line_bounds(x, p);
        let b = next_line(x, p);
        lemma_shift_next_heading(pre, x, b);
        lemma_next_heading_bounds(x, b);
        let n = next_heading(x, b);
        assert(s.subrange(d + b, d + n) =~= x.subrange(b, n));
        lemma_shift_sections_from(pre, x, n);
    }
}

/// A heading line `## name`, newline included.
pub open spec fn heading_line(name: Seq<char>) -> Seq<char> {
    seq!['#', '#', ' '] + name + seq!['\n']
}

/// Complete lines none of which is a heading: empty, or ending in a newline.
pub open spec fn plain_block(x: Seq<char>) -> bool {
    &&& x.len() == 0 || x[x.len() - 1] == '\n'
    &&& next_heading(x, 0) == x.len()
}

/// The text of a sequence of (heading name, body) pieces.
pub open spec fn sections_text(secs: Seq<(Seq<char>, Seq<char>)>) -> Seq<char>
    decreases secs.len(),
{
    if secs.len() == 0 {
        Seq::empty()
    } else {
        heading_line(secs[0].0) + secs[0].1 + sections_text(secs.drop_first())
    }
}

/// The pieces as the splitter reports them: names trimmed.
pub open spec fn trimmed_names(secs: Seq<(Seq<char>, Seq<char>)>) -> Seq<(Seq<char>, Seq<char>)> {
    secs.map_values(|p: (Seq<char>, Seq<char>)| (trim(p.0), p.1))
}

/// Pieces whose names fit on a line and whose bodies are plain blocks.
pub open spec fn pieces_ok(secs: Seq<(Seq<char>, Seq<char>)>) -> bool {
    forall|i: int|
        0 <= i < secs.len() ==> plain_block(#[trigger] secs[i].1) && forall|q: int|
            0 <= q < secs[i].0.len() ==> secs[i].0[q] != '\n'
}

/// The scan for a heading passes over a plain block whatever follows it.
pub(crate) proof fn lemma_next_heading_past_block(x: Seq<char>, rest: Seq<char>, p: int)
    requires
        0 <= p <= x.len(),
        x.len() == 0 || x[x.len() - 1] == '\n',
        next_heading(x, p) == x.len(),
    ensures
        next_heading(x + rest, p) == x.len() + next_heading(rest, 0),
    decreases x.len() - p,
{
    let s = x + rest;
    if p < x.len() {
        lemma_find_from_bounds(x, p, '\n');
        assert(find_from(x, p, '\n') < x.len()) by {
            if find_from(x, p, '\n') == x.len() {
                assert(x[x.len() - 1] == '\n');
            }
        }
        lemma_prefix_find_from(x, rest, p, '\n');
        lemma_indent_within_line(x, p);
        lemma_prefix_skip_hs(x, rest, p);
        let q = skip_hs(x, p);
        if q + 1 < x.len() {
            assert(s[q] == x[q] && s[q + 1] == x[q + 1]);
        } else {
            assert(q == line_end(x, p));
            assert(s[q] == x[q]);
        }
        assert(!is_heading_at(s, p));
        lemma_next_line_bounds(x, p);
        lemma_next_heading_past_block(x, rest, next_line(x, p));
    } else {
        lemma_shift_next_heading(x, rest, 0);
    }
}

/// A heading line is a heading whose name is the given one, trimmed.
proof fn lemma_heading_line_at(name: Seq<char>, rest: Seq<char>)
    requires
        forall|q: int| 0 <= q < name.len() ==> name[q] != '\n',
    ensures
        is_heading_at(heading_line(name) + rest, 0),
        next_line(heading_line(name) + rest, 0) == heading_line(name).len(),
        heading_name(heading_line(name) + rest, 0) == trim(name),
{
    let s = heading_line(name) + rest;
    let e = 3 + name.len() as int;
    assert(s[0] == '#' && s[1] == '#' && s[2] == ' ' && s[e] == '\n');
    assert(skip_hs(s, 0) == 0);
    assert forall|q: int| 0 <= q < name.len() implies s[3 + q] == name[q] by {}
    assert forall|q: int| 0 <= q < e implies s[q] != '\n' by {
        if q >= 3 {
            assert(s[3 + (q - 3)] == name[q - 3]);
        }
    }
    lemma_find_from_at(s, 0, e, '\n');
    assert(trim_start(s, 2, e) == trim_start(s, 3, e));
    lemma_trimmed_embed(s, name, 3, 0, name.len() as int);
}

proof fn lemma_sections_text_split(secs: Seq<(Seq<char>, Seq<char>)>)
    requires
        pieces_ok(secs),
    ensures
        next_heading(sections_text(secs), 0) == 0,
        sections_from(sections_text(secs), 0) == trimmed_names(secs),
    decreases secs.len(),
{
    let t = sections_text(secs);
    if secs.len() == 0 {
        assert(trimmed_names(secs) =~= Seq::<(Seq<char>, Seq<char>)>::empty());
    } else {
        let name = secs[0].0;
        let body = secs[0].1;
        let more = secs.drop_first();
        assert(plain_block(secs[0].1));
        assert(pieces_ok(more)) by {
            assert forall|i: int| 0 <= i < more.len() implies plain_block(#[trigger] more[i].1)
                && forall|q: int| 0 <= q < more[i].0.len() ==> more[i].0[q] != '\n' by {
                assert(more[i] == secs[i + 1]);
            }
        }
        lemma_sections_text_split(more);
        let h = heading_line(name);
        let tm = sections_text(more);
        assert(t == h + body + tm);
        assert(t =~= h + (body + tm));
        lemma_heading_line_at(name, body + tm);
        lemma_next_heading_past_block(body, tm, 0);
        lemma_shift_next_heading(h, body + tm, 0);
        assert(t.subrange(h.len() as int, h.len() + body.len() as int) =~= body);
        assert(t =~= (h + body) + tm);
        lemma_shift_sections_from(h + body, tm, 0);
        assert(trimmed_names(secs) =~= seq![(trim(name), body)] + trimmed_names(more));
    }
}

/// A document made of a plain leading block and then, in order, heading
/// lines each followed by a plain body splits back into that leading block
/// and those (name, body) pairs, in the same order, each name trimmed.
/// Headings with one name stay separate pairs.
pub proof fn lemma_split_document(lead: Seq<char>, secs: Seq<(Seq<char>, Seq<char>)>)
    requires
        plain_block(lead),
        pieces_ok(secs),
    ensures
        leading_block(lead + sections_text(secs)) == lead,
        section_pairs(lead + sections_text(secs)) == trimmed_names(secs),
{
    let t = sections_text(secs);
    let s = lead + t;
    lemma_sections_text_split(secs);
    lemma_next_heading_past_block(lead, t, 0);
    assert(s.subrange(0, lead.len() as int) =~= lead);
    lemma_shift_sections_from(lead, t, 0);
}

} // verus!
