//! The link extractor: finds `- [title](url): description` entries in a
//! section body, left to right, skipping everything else.
use vstd::prelude::*;
use crate::model::{links_view, Link, LinkView};
use crate::text::{
    chars_of, find_char, find_char_in_line, find_from, find_in_line, lemma_find_from_at,
    lemma_find_from_bounds, lemma_find_in_line_at, lemma_find_in_line_bounds,
    lemma_shift_find_from, lemma_shift_find_in_line, lemma_shift_skip_hs, lemma_skip_hs_bounds,
    lemma_trimmed_embed, line_end, skip_hs, is_hs, skip_hs_from, substring, trim, trim_start, trimmed,
    trimmed_string,
};

verus! {

/// The link entry that starts at `i`, with the index just after it.
///
/// An entry is a dash, optional same-line whitespace, a non-empty title in
/// brackets, then at once a non-empty url in parentheses, and optionally a
/// colon; the rest of the line after the colon, trimmed, is the description.
/// Title and url hold no newline and no closing bracket of their own kind.
pub open spec fn link_at(s: Seq<char>, i: int) -> Option<(LinkView, int)> {
    let j = skip_hs(s, i + 1);
    let k = find_in_line(s, j + 1, ']');
    let m = find_in_line(s, k + 2, ')');
    if 0 <= i < s.len() && s[i] == '-' && j < s.len() && s[j] == '[' && j + 1 < k < s.len()
        && s[k] == ']' && k + 1 < s.len() && s[k + 1] == '(' && k + 2 < m < s.len() && s[m]
        == ')' {
        let title = s.subrange(j + 1, k);
        let url = s.subrange(k + 2, m);
        if m + 1 < s.len() && s[m + 1] == ':' {
            let e = line_end(s, m + 2);
            Some((LinkView { title, url, description: trimmed(s, m + 2, e) }, e))
        } else {
            Some((LinkView { title, url, description: Seq::empty() }, m + 1))
        }
    } else {
        None
    }
}

/// The links found scanning `s` from `i`: where an entry starts, it is taken
/// and the scan resumes after it; elsewhere the scan moves on by one.
pub open spec fn links_from(s: Seq<char>, i: int) -> Seq<LinkView>
    decreases s.len() - i,
    via links_from_decreases
{
    if 0 <= i < s.len() {
        match link_at(s, i) {
            Some(p) => seq![p.0] + links_from(s, p.1),
            None => links_from(s, i + 1),
        }
    } else {
        Seq::empty()
    }
}

#[via_fn]
proof fn links_from_decreases(s: Seq<char>, i: int) {
    if 0 <= i < s.len() {
        if let Some(p) = link_at(s, i) {
            lemma_link_at_end(s, i);
        }
    }
}

/// An entry ends after its start and within the text.
pub proof fn lemma_link_at_end(s: Seq<char>, i: int)
    requires
        link_at(s, i) is Some,
    ensures
        i < (link_at(s, i)->0).1 <= s.len(),
{
    let j = skip_hs(s, i + 1);
    let k = find_in_line(s, j + 1, ']');
    let m = find_in_line(s, k + 2, ')');
    lemma_skip_hs_bounds(s, i + 1);
    if m + 1 < s.len() && s[m + 1] == ':' {
        lemma_find_from_bounds(s, m + 2, '\n');
    }
}

/// The links of `txt`, in the order they appear.
pub fn extract_links(txt: &str) -> (r: Vec<Link>)
    ensures
        links_view(r@) == links_from(txt@, 0),
{
    let v = chars_of(txt);
    let mut out: Vec<Link> = Vec::new();
    let mut i: usize = 0;
    while i < v.len()
        invariant
            v@ == txt@,
            i <= v.len(),
            links_view(out@) + links_from(txt@, i as int) == links_from(txt@, 0),
        decreases v.len() - i,
    {
        match link_at_exec(txt, &v, i) {
            Some((l, e)) => {
                proof {
                    lemma_link_at_end(txt@, i as int);
                }
                let ghost before = out@;
                out.push(l);
                proof {
                    assert(links_view(out@) =~= links_view(before) + seq![l@]);
                    assert(links_view(out@) + links_from(txt@, e as int) =~= links_view(before)
                        + links_from(txt@, i as int));
                }
                i = e;
            },
            None => {
                i = i + 1;
            },
        }
    }
    proof {
        assert(links_view(out@) =~= links_view(out@) + links_from(txt@, i as int));
    }
    out
}

/// Computes `link_at`.
fn link_at_exec(txt: &str, v: &Vec<char>, i: usize) -> (r: Option<(Link, usize)>)
    requires
        v@ == txt@,
        i < v.len(),
    ensures
        match link_at(txt@, i as int) {
            Some(p) => r is Some && (r->0).0@ == p.0 && (r->0).1 == p.1,
            None => r is None,
        },
{
    let ghost s = txt@;
    if v[i] != '-' {
        return None;
    }
    let j = skip_hs_from(v, i + 1);
    if j >= v.len() || v[j] != '[' {
        return None;
    }
    proof {
        lemma_find_in_line_bounds(s, j + 1, ']');
    }
    let k = find_char_in_line(v, j + 1, ']');
    if k <= j + 1 || k >= v.len() || v[k] != ']' || k + 1 >= v.len() || v[k + 1] != '(' {
        return None;
    }
    proof {
        lemma_find_in_line_bounds(s, k + 2, ')');
    }
    let m = find_char_in_line(v, k + 2, ')');
    if m <= k + 2 || m >= v.len() || v[m] != ')' {
        return None;
    }
    let title = substring(txt, j + 1, k);
    let url = substring(txt, k + 2, m);
    if m + 1 < v.len() && v[m + 1] == ':' {
        proof {
            lemma_find_from_bounds(s, m + 2, '\n');
        }
        let e = find_char(v, m + 2, '\n');
        let description = trimmed_string(txt, v, m + 2, e);
        Some((Link { title, url, description }, e))
    } else {
        Some((Link { title, url, description: String::new() }, m + 1))
    }
}

/// Title and url that a link entry can carry: non-empty, on one line, and
/// free of the bracket that closes them.
pub open spec fn link_parts_ok(title: Seq<char>, url: Seq<char>) -> bool {
    &&& title.len() > 0
    &&& url.len() > 0
    &&& forall|q: int| 0 <= q < title.len() ==> title[q] != ']' && title[q] != '\n'
    &&& forall|q: int| 0 <= q < url.len() ==> url[q] != ')' && url[q] != '\n'
}

/// The bullet line `- [title](url)`.
pub open spec fn plain_bullet(title: Seq<char>, url: Seq<char>) -> Seq<char> {
    seq!['-', ' ', '['] + title + seq![']', '('] + url + seq![')']
}

/// The bullet line `- [title](url): description`.
pub open spec fn described_bullet(title: Seq<char>, url: Seq<char>, description: Seq<char>) -> Seq<
    char,
> {
    plain_bullet(title, url) + seq![':', ' '] + description
}

/// Text that ends a line where it starts: nothing, or a newline first.
pub open spec fn ends_line(tail: Seq<char>) -> bool {
    tail.len() == 0 || tail[0] == '\n'
}

/// The entry that a plain bullet starts: its title and url are found.
proof fn lemma_plain_bullet_head(title: Seq<char>, url: Seq<char>, tail: Seq<char>)
    requires
        link_parts_ok(title, url),
    ensures
        ({
            let s = plain_bullet(title, url) + tail;
            let k = 3 + title.len() as int;
            let m = 5 + title.len() as int + url.len() as int;
            &&& skip_hs(s, 1) == 2
            &&& s[0] == '-' && s[2] == '['
            &&& find_in_line(s, 3, ']') == k && s[k] == ']' && s[k + 1] == '('
            &&& find_in_line(s, k + 2, ')') == m && s[m] == ')'
            &&& s.subrange(3, k) == title
            &&& s.subrange(k + 2, m) == url
            &&& forall|q: int| 0 <= q < tail.len() ==> s[m + 1 + q] == tail[q]
        }),
{
    let s = plain_bullet(title, url) + tail;
    let k = 3 + title.len() as int;
    let m = 5 + title.len() as int + url.len() as int;
    assert(s[1] == ' ');
    assert(s[2] == '[');
    assert(skip_hs(s, 2) == 2);
    assert forall|q: int| 3 <= q < k implies s[q] != ']' && s[q] != '\n' by {
        assert(s[q] == title[q - 3]);
    }
    assert(s[k] == ']');
    lemma_find_in_line_at(s, 3, k, ']');
    assert forall|q: int| k + 2 <= q < m implies s[q] != ')' && s[q] != '\n' by {
        assert(s[q] == url[q - k - 2]);
    }
    assert(s[m] == ')');
    lemma_find_in_line_at(s, k + 2, m, ')');
    assert(s.subrange(3, k) =~= title);
    assert(s.subrange(k + 2, m) =~= url);
    assert forall|q: int| 0 <= q < tail.len() implies s[m + 1 + q] == tail[q] by {}
}

/// A plain bullet that ends its line is one entry with an empty description.
pub proof fn lemma_plain_bullet_link_at(title: Seq<char>, url: Seq<char>, tail: Seq<char>)
    requires
        link_parts_ok(title, url),
        ends_line(tail),
    ensures
        link_at(plain_bullet(title, url) + tail, 0) == Some(
            (LinkView { title, url, description: Seq::empty() }, plain_bullet(title, url).len() as int),
        ),
{
    lemma_plain_bullet_head(title, url, tail);
}

/// A described bullet that ends its line is one entry whose description is
/// the given text, trimmed.
pub proof fn lemma_described_bullet_link_at(
    title: Seq<char>,
    url: Seq<char>,
    description: Seq<char>,
    tail: Seq<char>,
)
    requires
        link_parts_ok(title, url),
        forall|q: int| 0 <= q < description.len() ==> description[q] != '\n',
        ends_line(tail),
    ensures
        link_at(described_bullet(title, url, description) + tail, 0) == Some(
            (
                LinkView { title, url, description: trim(description) },
                described_bullet(title, url, description).len() as int,
            ),
        ),
{
    let rest = seq![':', ' '] + description + tail;
    let s = plain_bullet(title, url) + rest;
    assert(described_bullet(title, url, description) + tail =~= s);
    lemma_plain_bullet_head(title, url, rest);
    let m = 5 + title.len() as int + url.len() as int;
    let e = m + 3 + description.len() as int;
    assert(s[m + 1] == ':');
    assert(s[m + 2] == ' ');
    assert forall|q: int| 0 <= q < description.len() implies s[m + 3 + q] == description[q] by {
        assert(s[m + 1 + (2 + q)] == rest[2 + q]);
    }
    assert forall|q: int| m + 2 <= q < e implies s[q] != '\n' by {
        if q > m + 2 {
            assert(s[m + 3 + (q - m - 3)] == description[q - m - 3]);
        }
    }
    if e < s.len() {
        assert(s[m + 1 + (2 + description.len() as int)] == rest[2 + description.len() as int]);
    }
    lemma_find_from_at(s, m + 2, e, '\n');
    assert(trim_start(s, m + 2, e) == trim_start(s, m + 3, e));
    lemma_trimmed_embed(s, description, m + 3, 0, description.len() as int);
}

/// Scanning `pre + x` from `|pre| + i` finds the entry that scanning `x`
/// from `i` finds, ending `|pre|` further on.
pub proof fn lemma_shift_link_at(pre: Seq<char>, x: Seq<char>, i: int)
    requires
        0 <= i < x.len(),
    ensures
        link_at(pre + x, pre.len() + i) is Some <==> link_at(x, i) is Some,
        link_at(x, i) is Some ==> (link_at(pre + x, pre.len() + i)->0).0 == (link_at(x, i)->0).0
            && (link_at(pre + x, pre.len() + i)->0).1 == pre.len() + (link_at(x, i)->0).1,
{
    let s = pre + x;
    let p = pre.len() as int;
    assert(s[p + i] == x[i]);
    lemma_shift_skip_hs(pre, x, i + 1);
    lemma_skip_hs_bounds(x, i + 1);
    let j = skip_hs(x, i + 1);
    if j < x.len() {
        assert(s[p + j] == x[j]);
        lemma_shift_find_in_line(pre, x, j + 1, ']');
        lemma_find_in_line_bounds(x, j + 1, ']');
        let k = find_in_line(x, j + 1, ']');
        if k + 2 <= x.len() {
            assert(s[p + k] == x[k]);
            assert(s[p + k + 1] == x[k + 1]);
            lemma_shift_find_in_line(pre, x, k + 2, ')');
            lemma_find_in_line_bounds(x, k + 2, ')');
            let m = find_in_line(x, k + 2, ')');
            if m < x.len() {
                assert(s[p + m] == x[m]);
                assert(s.subrange(p + j + 1, p + k) =~= x.subrange(j + 1, k));
                assert(s.subrange(p + k + 2, p + m) =~= x.subrange(k + 2, m));
                if m + 1 < x.len() {
                    assert(s[p + m + 1] == x[m + 1]);
                    lemma_shift_find_from(pre, x, m + 2, '\n');
                    lemma_find_from_bounds(x, m + 2, '\n');
                    let e = find_from(x, m + 2, '\n');
                    assert forall|q: int| m + 2 <= q < e implies s[p + q] == x[q] by {}
                    lemma_trimmed_embed(s, x, p, m + 2, e);
                }
            }
        }
    }
}

/// Scanning `pre + x` from `|pre| + i` finds the links that scanning `x`
/// from `i` finds.
pub proof fn lemma_shift_links_from(pre: Seq<char>, x: Seq<char>, i: int)
    requires
        0 <= i <= x.len(),
    ensures
        links_from(pre + x, pre.len() + i) == links_from(x, i),
    decreases x.len() - i,
{
    if i < x.len() {
        lemma_shift_link_at(pre, x, i);
        match link_at(x, i) {
            Some(q) => {
                lemma_link_at_end(x, i);
                lemma_shift_links_from(pre, x, q.1);
            },
            None => {
                lemma_shift_links_from(pre, x, i + 1);
            },
        }
    }
}

/// A body made of exactly the line `- [title](url): description` yields one
/// link with that title and url, and the description without its surrounding
/// whitespace.
pub proof fn lemma_described_bullet_alone(title: Seq<char>, url: Seq<char>, description: Seq<char>)
    requires
        link_parts_ok(title, url),
        forall|q: int| 0 <= q < description.len() ==> description[q] != '\n',
    ensures
        links_from(described_bullet(title, url, description), 0) == seq![
            LinkView { title, url, description: trim(description) },
        ],
{
    let s = described_bullet(title, url, description);
    lemma_described_bullet_link_at(title, url, description, Seq::empty());
    assert(s + Seq::<char>::empty() =~= s);
    assert(links_from(s, s.len() as int) == Seq::<LinkView>::empty());
    assert(seq![LinkView { title, url, description: trim(description) }] + Seq::<LinkView>::empty()
        =~= seq![LinkView { title, url, description: trim(description) }]);
}

/// A body made of exactly the line `- [title](url)` yields one link with that
/// title and url and an empty description.
pub proof fn lemma_plain_bullet_alone(title: Seq<char>, url: Seq<char>)
    requires
        link_parts_ok(title, url),
    ensures
        links_from(plain_bullet(title, url), 0) == seq![
            LinkView { title, url, description: Seq::empty() },
        ],
{
    let s = plain_bullet(title, url);
    lemma_plain_bullet_link_at(title, url, Seq::empty());
    assert(s + Seq::<char>::empty() =~= s);
    assert(links_from(s, s.len() as int) == Seq::<LinkView>::empty());
    assert(seq![LinkView { title, url, description: Seq::empty() }] + Seq::<LinkView>::empty()
        =~= seq![LinkView { title, url, description: Seq::empty() }]);
}

/// A line of a section body: a bullet of either form after some
/// indentation, or prose.
pub enum BodyLine {
    Described { indent: Seq<char>, title: Seq<char>, url: Seq<char>, description: Seq<char> },
    Plain { indent: Seq<char>, title: Seq<char>, url: Seq<char> },
    Prose { text: Seq<char> },
}

/// The characters of a body line, without a newline.
pub open spec fn line_text(l: BodyLine) -> Seq<char> {
    match l {
        BodyLine::Described { indent, title, url, description } => indent + described_bullet(
            title,
            url,
            description,
        ),
        BodyLine::Plain { indent, title, url } => indent + plain_bullet(title, url),
        BodyLine::Prose { text } => text,
    }
}

/// Same-line whitespace only.
pub open spec fn indent_ok(indent: Seq<char>) -> bool {
    forall|q: int| 0 <= q < indent.len() ==> is_hs(indent[q])
}

/// Bullets are well formed, indented by same-line whitespace, and on one
/// line; prose is one line without `[`, so it never holds an entry.
pub open spec fn body_line_ok(l: BodyLine) -> bool {
    match l {
        BodyLine::Described { indent, title, url, description } => indent_ok(indent)
            && link_parts_ok(title, url) && forall|q: int|
            0 <= q < description.len() ==> description[q] != '\n',
        BodyLine::Plain { indent, title, url } => indent_ok(indent) && link_parts_ok(title, url),
        BodyLine::Prose { text } => forall|q: int|
            0 <= q < text.len() ==> text[q] != '[' && text[q] != '\n',
    }
}

/// The link a body line stands for: one for a bullet, none for prose.
pub open spec fn line_links(l: BodyLine) -> Seq<LinkView> {
    match l {
        BodyLine::Described { indent, title, url, description } => seq![
            LinkView { title, url, description: trim(description) },
        ],
        BodyLine::Plain { indent, title, url } => seq![
            LinkView { title, url, description: Seq::empty() },
        ],
        BodyLine::Prose { text } => Seq::empty(),
    }
}

/// The body text of a sequence of lines, joined by newlines.
pub open spec fn body_text(lines: Seq<BodyLine>) -> Seq<char>
    decreases lines.len(),
{
    if lines.len() == 0 {
        Seq::empty()
    } else if lines.len() == 1 {
        line_text(lines[0])
    } else {
        line_text(lines[0]) + seq!['\n'] + body_text(lines.drop_first())
    }
}

/// The links of the bullets among `lines`, in order.
pub open spec fn body_links(lines: Seq<BodyLine>) -> Seq<LinkView>
    decreases lines.len(),
{
    if lines.len() == 0 {
        Seq::empty()
    } else {
        line_links(lines[0]) + body_links(lines.drop_first())
    }
}

/// Positions that hold no dash start no entry: the scan passes over them.
proof fn lemma_links_skip_dashless(s: Seq<char>, i: int, k: int)
    requires
        0 <= i <= k <= s.len(),
        forall|q: int| i <= q < k ==> s[q] != '-',
    ensures
        links_from(s, i) == links_from(s, k),
    decreases k - i,
{
    if i < k {
        lemma_links_skip_dashless(s, i + 1, k);
    }
}

/// A stretch of one line without `[` starts no entry: the scan passes over it.
proof fn lemma_links_skip_bracketless(s: Seq<char>, i: int, k: int)
    requires
        0 <= i <= k <= s.len(),
        k < s.len() ==> s[k] == '\n',
        forall|q: int| i <= q < k ==> s[q] != '[' && s[q] != '\n',
    ensures
        links_from(s, i) == links_from(s, k),
    decreases k - i,
{
    if i < k {
        lemma_skip_hs_bounds(s, i + 1);
        let j = skip_hs(s, i + 1);
        if j > k {
            assert(is_hs(s[k]));
        }
        assert(link_at(s, i) is None);
        lemma_links_skip_bracketless(s, i + 1, k);
    }
}

/// The links found on one body line, followed by what ends its line.
proof fn lemma_line_links(l: BodyLine, tail: Seq<char>)
    requires
        body_line_ok(l),
        ends_line(tail),
    ensures
        links_from(line_text(l) + tail, 0) == line_links(l) + links_from(
            line_text(l) + tail,
            line_text(l).len() as int,
        ),
{
    let line = line_text(l);
    let s = line + tail;
    match l {
        BodyLine::Prose { text } => {
            if tail.len() > 0 {
                assert(s[line.len() as int] == '\n');
            }
            assert forall|q: int| 0 <= q < line.len() implies s[q] != '[' && s[q] != '\n' by {
                assert(s[q] == text[q]);
            }
            lemma_links_skip_bracketless(s, 0, line.len() as int);
            assert(line_links(l) + links_from(s, line.len() as int) =~= links_from(s, 0));
        },
        BodyLine::Described { indent, title, url, description } => {
            let b = described_bullet(title, url, description);
            assert(s =~= indent + (b + tail));
            lemma_described_bullet_link_at(title, url, description, tail);
            lemma_shift_link_at(indent, b + tail, 0);
            assert forall|q: int| 0 <= q < indent.len() implies s[q] != '-' by {
                assert(s[q] == indent[q]);
            }
            lemma_links_skip_dashless(s, 0, indent.len() as int);
        },
        BodyLine::Plain { indent, title, url } => {
            let b = plain_bullet(title, url);
            assert(s =~= indent + (b + tail));
            lemma_plain_bullet_link_at(title, url, tail);
            lemma_shift_link_at(indent, b + tail, 0);
            assert forall|q: int| 0 <= q < indent.len() implies s[q] != '-' by {
                assert(s[q] == indent[q]);
            }
            lemma_links_skip_dashless(s, 0, indent.len() as int);
        },
    }
}

/// A body whose lines are bullets (indented or not) and prose lines without
/// `[`, joined by newlines, yields exactly one link per bullet, in the order
/// of the lines.
pub proof fn lemma_body_links(lines: Seq<BodyLine>)
    requires
        forall|i: int| 0 <= i < lines.len() ==> body_line_ok(#[trigger] lines[i]),
    ensures
        links_from(body_text(lines), 0) == body_links(lines),
    decreases lines.len(),
{
    if lines.len() > 0 {
        let l = lines[0];
        let rest = lines.drop_first();
        assert(body_line_ok(lines[0]));
        let line = line_text(l);
        if lines.len() == 1 {
            assert(body_text(lines) =~= line + Seq::<char>::empty());
            lemma_line_links(l, Seq::empty());
            assert(body_links(rest) == Seq::<LinkView>::empty());
            assert(links_from(line + Seq::<char>::empty(), line.len() as int) == Seq::<
                LinkView,
            >::empty());
            assert(body_links(lines) =~= line_links(l));
        } else {
            assert forall|i: int| 0 <= i < rest.len() implies body_line_ok(#[trigger] rest[i]) by {
                assert(rest[i] == lines[i + 1]);
            }
            lemma_body_links(rest);
            let pre = line + seq!['\n'];
            let tail = seq!['\n'] + body_text(rest);
            let s = body_text(lines);
            assert(s == pre + body_text(rest));
            assert(s =~= line + tail);
            assert(s[line.len() as int] == '\n');
            lemma_line_links(l, tail);
            lemma_shift_links_from(pre, body_text(rest), 0);
            lemma_links_skip_dashless(s, line.len() as int, pre.len() as int);
        }
    }
}

} // verus!
