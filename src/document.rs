//! The document assembler: the methods of `LLMSTxt`.
use vstd::prelude::*;
use crate::links::{
    body_line_ok, body_links, body_text, described_bullet, extract_links, lemma_body_links,
    line_links, line_text, links_from, plain_bullet, BodyLine,
};
use crate::meta::{extract_meta, meta_of};
use crate::model::{links_view, sections_view, LLMSTxt, Link, LinkView, ParseLLMSError, Section};
use crate::sections::{
    heading_line, leading_block, lemma_split_document, next_heading, pairs_view, plain_block,
    section_pairs, sections_text, split_sections, trimmed_names,
};
use crate::text::{
    is_hs, lemma_find_from_at, lemma_prefix_skip_hs, lemma_skip_hs_at, lemma_skip_hs_bounds,
    next_line, skip_hs,
};

verus! {

/// The sections that a document text contributes: for each heading, in
/// source order, the links of its body.
pub open spec fn doc_sections(s: Seq<char>) -> Seq<Seq<LinkView>> {
    section_pairs(s).map_values(|p: (Seq<char>, Seq<char>)| links_from(p.1, 0))
}

impl LLMSTxt {
    /// An empty document.
    pub fn new() -> (r: LLMSTxt)
        ensures
            r@.title.len() == 0,
            r@.summary.len() == 0,
            r@.info.len() == 0,
            r@.sections.len() == 0,
    {
        LLMSTxt { title: String::new(), summary: String::new(), info: String::new(), sections: vec![] }
    }

    /// Sets title, summary and free text from the leading block `txt`; the
    /// sections stay as they were.
    pub fn parse_meta(&mut self, txt: &str)
        ensures
            (final(self)@.title, final(self)@.summary, final(self)@.info) == meta_of(txt@),
            final(self).sections@ == old(self).sections@,
    {
        let (title, summary, info) = extract_meta(txt);
        self.title = title;
        self.summary = summary;
        self.info = info;
    }

    /// Parses the whole document `txt`: the header comes from the text before
    /// the first heading line, and one section per heading, in source order,
    /// is appended to the sections already held. It never fails.
    pub fn parse(&mut self, txt: &str) -> (r: Result<(), ParseLLMSError>)
        ensures
            r is Ok,
            (final(self)@.title, final(self)@.summary, final(self)@.info) == meta_of(
                leading_block(txt@),
            ),
            final(self)@.sections == old(self)@.sections + doc_sections(txt@),
    {
        let (leading, pairs) = split_sections(txt);
        self.parse_meta(leading.as_str());
        let ghost start = sections_view(self.sections@);
        let mut idx: usize = 0;
        while idx < pairs.len()
            invariant
                pairs_view(pairs@) == section_pairs(txt@),
                (self@.title, self@.summary, self@.info) == meta_of(leading_block(txt@)),
                start == old(self)@.sections,
                idx <= pairs.len(),
                sections_view(self.sections@) == start + doc_sections(txt@).take(idx as int),
            decreases pairs.len() - idx,
        {
            let links = match self.parse_links(pairs[idx].1.as_str()) {
                Ok(links) => links,
                Err(e) => return Err(e),
            };
            let ghost before = self.sections@;
            self.sections.push(Section { links });
            proof {
                assert(sections_view(self.sections@) =~= sections_view(before) + seq![
                    links_view(links@),
                ]);
                assert(doc_sections(txt@).take(idx + 1) =~= doc_sections(txt@).take(idx as int)
                    + seq![links_view(links@)]);
            }
            idx = idx + 1;
        }
        proof {
            assert(doc_sections(txt@).take(idx as int) =~= doc_sections(txt@));
        }
        Ok(())
    }

    /// The links of the section body `txt`, in the order they appear. It
    /// never fails.
    pub fn parse_links(&self, txt: &str) -> (r: Result<Vec<Link>, ParseLLMSError>)
        ensures
            r is Ok,
            links_view(r->Ok_0@) == links_from(txt@, 0),
    {
        Ok(extract_links(txt))
    }
}

/// A bullet line holds no newline, and its first character past the
/// indentation is its dash.
proof fn lemma_bullet_one_line(l: BodyLine)
    requires
        body_line_ok(l),
        !(l is Prose),
    ensures
        skip_hs(line_text(l), 0) < line_text(l).len(),
        line_text(l)[skip_hs(line_text(l), 0)] == '-',
        forall|q: int| 0 <= q < line_text(l).len() ==> line_text(l)[q] != '\n',
{
    let (indent, title, url) = match l {
        BodyLine::Described { indent, title, url, description } => (indent, title, url),
        BodyLine::Plain { indent, title, url } => (indent, title, url),
        BodyLine::Prose { text } => (text, text, text),
    };
    let pb = plain_bullet(title, url);
    let k = 3 + title.len() as int;
    let m = 5 + title.len() as int + url.len() as int;
    assert forall|q: int| 0 <= q < pb.len() implies pb[q] != '\n' by {
        if 3 <= q < k {
            assert(pb[q] == title[q - 3]);
        } else if k + 2 <= q < m {
            assert(pb[q] == url[q - k - 2]);
        }
    }
    let b = match l {
        BodyLine::Described { indent, title, url, description } => described_bullet(
            title,
            url,
            description,
        ),
        _ => pb,
    };
    if let BodyLine::Described { indent, title, url, description } = l {
        assert forall|q: int| 0 <= q < b.len() implies b[q] != '\n' by {
            if q < pb.len() {
                assert(b[q] == pb[q]);
            } else if q >= pb.len() + 2 {
                assert(b[q] == description[q - pb.len() - 2]);
            }
        }
    }
    let line = line_text(l);
    assert(line == indent + b);
    assert(b[0] == '-');
    assert forall|q: int| 0 <= q < line.len() implies line[q] != '\n' by {
        if q < indent.len() {
            assert(line[q] == indent[q]);
            assert(is_hs(indent[q]));
        } else {
            assert(line[q] == b[q - indent.len()]);
        }
    }
    assert(line[indent.len() as int] == '-');
    assert forall|q: int| 0 <= q < indent.len() implies is_hs(line[q]) by {
        assert(line[q] == indent[q]);
    }
    lemma_skip_hs_at(line, 0, indent.len() as int);
}

/// A bullet line with its newline is a plain block, and yields its link.
proof fn lemma_bullet_body_plain(l: BodyLine)
    requires
        body_line_ok(l),
        !(l is Prose),
    ensures
        plain_block(line_text(l) + seq!['\n']),
        links_from(line_text(l) + seq!['\n'], 0) == line_links(l),
{
    lemma_bullet_one_line(l);
    let line = line_text(l);
    let x = line + seq!['\n'];
    let e = line.len() as int;
    let k = skip_hs(line, 0);
    lemma_skip_hs_bounds(line, 0);
    lemma_prefix_skip_hs(line, seq!['\n'], 0);
    assert(x[k] == line[k]);
    assert forall|q: int| 0 <= q < e implies x[q] != '\n' by {
        assert(x[q] == line[q]);
    }
    lemma_find_from_at(x, 0, e, '\n');
    assert(next_line(x, 0) == x.len());
    assert(next_heading(x, x.len() as int) == x.len());
    let empty_line = BodyLine::Prose { text: Seq::empty() };
    let lines = seq![l, empty_line];
    assert(lines[0] == l && lines[1] == empty_line);
    assert(lines.drop_first() =~= seq![empty_line]);
    assert(seq![empty_line].drop_first() =~= Seq::<BodyLine>::empty());
    assert(body_text(seq![empty_line]) == Seq::<char>::empty());
    assert(body_text(lines) =~= x);
    assert(forall|i: int| 0 <= i < lines.len() ==> body_line_ok(#[trigger] lines[i]));
    lemma_body_links(lines);
    assert(body_links(Seq::<BodyLine>::empty()) == Seq::<LinkView>::empty());
    assert(body_links(seq![empty_line]) =~= Seq::<LinkView>::empty());
    assert(body_links(lines) =~= line_links(l));
}

/// A document with a plain leading block and then two headings, each
/// followed by one link bullet, has two sections of one link each; the
/// first holds the first heading's link, the second the second's.
pub proof fn lemma_two_headings(
    lead: Seq<char>,
    first_name: Seq<char>,
    first: BodyLine,
    second_name: Seq<char>,
    second: BodyLine,
)
    requires
        plain_block(lead),
        forall|q: int| 0 <= q < first_name.len() ==> first_name[q] != '\n',
        forall|q: int| 0 <= q < second_name.len() ==> second_name[q] != '\n',
        body_line_ok(first),
        !(first is Prose),
        body_line_ok(second),
        !(second is Prose),
    ensures
        ({
            let s = lead + heading_line(first_name) + line_text(first) + seq!['\n'] + heading_line(
                second_name,
            ) + line_text(second) + seq!['\n'];
            &&& doc_sections(s).len() == 2
            &&& doc_sections(s)[0] == line_links(first)
            &&& doc_sections(s)[1] == line_links(second)
            &&& line_links(first).len() == 1
            &&& line_links(second).len() == 1
        }),
{
    let b1 = line_text(first) + seq!['\n'];
    let b2 = line_text(second) + seq!['\n'];
    lemma_bullet_body_plain(first);
    lemma_bullet_body_plain(second);
    let secs = seq![(first_name, b1), (second_name, b2)];
    assert(secs.drop_first() =~= seq![(second_name, b2)]);
    assert(secs.drop_first().drop_first() =~= Seq::<(Seq<char>, Seq<char>)>::empty());
    let t = sections_text(secs);
    assert(sections_text(Seq::<(Seq<char>, Seq<char>)>::empty()) == Seq::<char>::empty());
    assert(seq![(second_name, b2)].drop_first() =~= Seq::<(Seq<char>, Seq<char>)>::empty());
    assert(sections_text(seq![(second_name, b2)]) == heading_line(second_name) + b2
        + Seq::<char>::empty());
    assert(sections_text(seq![(second_name, b2)]) =~= heading_line(second_name) + b2);
    assert(t =~= heading_line(first_name) + b1 + heading_line(second_name) + b2);
    let s = lead + heading_line(first_name) + line_text(first) + seq!['\n'] + heading_line(
        second_name,
    ) + line_text(second) + seq!['\n'];
    assert(s =~= lead + t);
    lemma_split_document(lead, secs);
    assert(trimmed_names(secs)[0].1 == b1);
    assert(trimmed_names(secs)[1].1 == b2);
}

} // verus!
