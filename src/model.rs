//! The document model: links, sections and the parsed document, with the
//! mathematical values they stand for.
use vstd::prelude::*;

verus! {

/// A link entry of a section: `- [title](url): description`.
#[derive(Debug, Clone)]
pub struct Link {
    pub title: String,
    pub url: String,
    pub description: String,
}

/// A group of links under one second-level heading.
#[derive(Debug, Clone)]
pub struct Section {
    pub links: Vec<Link>,
}

/// A parsed `llms.txt` document.
#[derive(Debug, Clone)]
pub struct LLMSTxt {
    pub title: String,
    pub summary: String,
    pub info: String,
    pub sections: Vec<Section>,
}

/// What a `Link` holds, as character sequences.
pub struct LinkView {
    pub title: Seq<char>,
    pub url: Seq<char>,
    pub description: Seq<char>,
}

/// What an `LLMSTxt` holds, as character sequences; each section is its
/// sequence of links.
pub struct DocView {
    pub title: Seq<char>,
    pub summary: Seq<char>,
    pub info: Seq<char>,
    pub sections: Seq<Seq<LinkView>>,
}

impl View for Link {
    type V = LinkView;

    open spec fn view(&self) -> LinkView {
        LinkView { title: self.title@, url: self.url@, description: self.description@ }
    }
}

/// The views of a sequence of links.
pub open spec fn links_view(links: Seq<Link>) -> Seq<LinkView> {
    links.map_values(|l: Link| l@)
}

impl View for Section {
    type V = Seq<LinkView>;

    open spec fn view(&self) -> Seq<LinkView> {
        links_view(self.links@)
    }
}

/// The views of a sequence of sections.
pub open spec fn sections_view(sections: Seq<Section>) -> Seq<Seq<LinkView>> {
    sections.map_values(|s: Section| s@)
}

impl View for LLMSTxt {
    type V = DocView;

    open spec fn view(&self) -> DocView {
        DocView {
            title: self.title@,
            summary: self.summary@,
            info: self.info@,
            sections: sections_view(self.sections@),
        }
    }
}

/// Failures of a parse.
#[derive(Debug)]
pub enum ParseLLMSError {
    /// The text cannot be read as a document at all.
    InvalidSpec,
    /// A text pattern could not be built; carries its message.
    RegexError(String),
}

} // verus!
