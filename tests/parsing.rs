use llmtxt::links::extract_links;
use llmtxt::meta::extract_meta;
use llmtxt::sections::split_sections;
use llmtxt::{LLMSTxt, ParseLLMSError};

#[test]
fn parse_links() {
    let link_str = r#"
            - [Link title](https://link_url): Optional link details
            - [foo2](http://foo2): stuff"
        "#;
    let llmp = LLMSTxt::new();
    let links = match llmp.parse_links(&link_str) {
        Ok(links) => links,
        Err(error) => panic!("{:?}", error),
    };
    assert_eq!(links[0].title, "Link title");
    assert_eq!(links[0].url, "https://link_url");
}

#[test]
fn parse_sections() {
    let sections = r#"
            # First bit.

            Some other

            ## S1

            - [foo](http://foo)
            - [foo2](http://foo2): stuff

            ## S2

            - [foo3](http://foo3)
        "#;
    let mut llmp = LLMSTxt::new();
    match llmp.parse(&sections) {
        Ok(()) => (),
        Err(error) => panic!("{:?}", error),
    };
    assert!(llmp.sections.len() > 0);
    assert!(llmp.sections[0].links[0].title.contains("foo"));
    assert_eq!(llmp.title, "First bit.".to_string());
}

#[test]
fn single_link_with_description() {
    let links = extract_links("- [T](U): D");
    assert_eq!(links.len(), 1);
    assert_eq!(links[0].title, "T");
    assert_eq!(links[0].url, "U");
    assert_eq!(links[0].description, "D");
}

#[test]
fn description_is_trimmed_and_ends_at_line_end() {
    let links = extract_links("- [a](b):   some words  \n- [c](d): more\n");
    assert_eq!(links.len(), 2);
    assert_eq!(links[0].description, "some words");
    assert_eq!(links[1].title, "c");
    assert_eq!(links[1].description, "more");
}

#[test]
fn link_without_description() {
    let links = extract_links("- [T](U)");
    assert_eq!(links.len(), 1);
    assert_eq!(links[0].title, "T");
    assert_eq!(links[0].url, "U");
    assert_eq!(links[0].description, "");
}

#[test]
fn links_among_prose_in_order() {
    let body = "intro text\n- [one](http://1)\nsome prose here\n- [two](http://2): second\nmore prose\n  -   [three](http://3)\ntrailing";
    let links = extract_links(body);
    assert_eq!(links.len(), 3);
    assert_eq!(links[0].title, "one");
    assert_eq!(links[1].title, "two");
    assert_eq!(links[1].description, "second");
    assert_eq!(links[2].title, "three");
    assert_eq!(links[2].url, "http://3");
}

#[test]
fn malformed_entries_are_skipped() {
    let body = "- [](x)\n- [t]()\n- [t] (u)\n- [open(u)\n- plain item\n- [ok](fine)";
    let links = extract_links(body);
    assert_eq!(links.len(), 1);
    assert_eq!(links[0].title, "ok");
    assert_eq!(links[0].url, "fine");
}

#[test]
fn empty_body_has_no_links() {
    assert_eq!(extract_links("").len(), 0);
    assert_eq!(extract_links("just words\n\n").len(), 0);
}

#[test]
fn title_without_summary() {
    let mut doc = LLMSTxt::new();
    assert!(doc.parse("# Title").is_ok());
    assert_eq!(doc.title, "Title");
    assert_eq!(doc.summary, "");
    assert_eq!(doc.info, "");
    assert_eq!(doc.sections.len(), 0);
}

#[test]
fn title_summary_and_info() {
    let mut doc = LLMSTxt::new();
    assert!(doc.parse("# Title\n\n> Summary text\n\nSome free prose.\n\nMore prose.\n").is_ok());
    assert_eq!(doc.title, "Title");
    assert_eq!(doc.summary, "Summary text");
    assert_eq!(doc.info, "Some free prose.\n\nMore prose.\n");
}

#[test]
fn info_without_summary_is_verbatim() {
    let (title, summary, info) = extract_meta("# T  \n\n  first\n\nsecond  \n");
    assert_eq!(title, "T");
    assert_eq!(summary, "");
    assert_eq!(info, "  first\n\nsecond  \n");
}

#[test]
fn first_title_line_wins() {
    let (title, summary, info) = extract_meta("prose\n# One\n# Two\n");
    assert_eq!(title, "One");
    assert_eq!(summary, "");
    assert_eq!(info, "# Two\n");
}

#[test]
fn no_title_line_leaves_all_empty() {
    let (title, summary, info) = extract_meta("#NoSpace\n> quote\ntext\n");
    assert_eq!(title, "");
    assert_eq!(summary, "");
    assert_eq!(info, "");
    let mut doc = LLMSTxt::new();
    assert!(doc.parse("").is_ok());
    assert_eq!(doc.title, "");
    assert_eq!(doc.sections.len(), 0);
}

#[test]
fn two_sections_in_source_order() {
    let mut doc = LLMSTxt::new();
    let txt = "# Doc\n\n## Zeta\n\n- [z](http://z)\n\n## Alpha\n\n- [a](http://a)\n";
    assert!(doc.parse(txt).is_ok());
    assert_eq!(doc.sections.len(), 2);
    assert_eq!(doc.sections[0].links.len(), 1);
    assert_eq!(doc.sections[1].links.len(), 1);
    assert_eq!(doc.sections[0].links[0].title, "z");
    assert_eq!(doc.sections[1].links[0].title, "a");
}

#[test]
fn end_to_end_example() {
    let txt = "# First bit.\n\nSome other\n\n## S1\n\n- [foo](http://foo)\n- [foo2](http://foo2): stuff\n\n## S2\n\n- [foo3](http://foo3)\n";
    let mut doc = LLMSTxt::new();
    assert!(doc.parse(txt).is_ok());
    assert_eq!(doc.title, "First bit.");
    assert_eq!(doc.info, "Some other\n\n");
    assert_eq!(doc.sections.len(), 2);
    assert_eq!(doc.sections[0].links.len(), 2);
    assert_eq!(doc.sections[0].links[0].title, "foo");
    assert_eq!(doc.sections[0].links[1].description, "stuff");
    assert_eq!(doc.sections[1].links[0].url, "http://foo3");
}

#[test]
fn splitter_keeps_duplicates_and_empty_bodies() {
    let (leading, pairs) = split_sections("head\n## A\nx\n  ##  A  \ny\n## Last");
    assert_eq!(leading, "head\n");
    assert_eq!(pairs.len(), 3);
    assert_eq!(pairs[0].0, "A");
    assert_eq!(pairs[0].1, "x\n");
    assert_eq!(pairs[1].0, "A");
    assert_eq!(pairs[1].1, "y\n");
    assert_eq!(pairs[2].0, "Last");
    assert_eq!(pairs[2].1, "");
}

#[test]
fn no_headings_gives_whole_leading_block() {
    let (leading, pairs) = split_sections("# T\n> s\nbody\n");
    assert_eq!(leading, "# T\n> s\nbody\n");
    assert_eq!(pairs.len(), 0);
}

#[test]
fn second_parse_appends_sections() {
    let mut doc = LLMSTxt::new();
    assert!(doc.parse("# One\n## A\n- [a](b)\n").is_ok());
    assert!(doc.parse("# Two\n## B\n- [c](d)\n## C\n").is_ok());
    assert_eq!(doc.title, "Two");
    assert_eq!(doc.sections.len(), 3);
    assert_eq!(doc.sections[1].links[0].title, "c");
    assert_eq!(doc.sections[2].links.len(), 0);
}

#[test]
fn parse_meta_keeps_sections() {
    let mut doc = LLMSTxt::new();
    assert!(doc.parse("## A\n- [a](b)\n").is_ok());
    doc.parse_meta("# New\n> sum\ninfo");
    assert_eq!(doc.title, "New");
    assert_eq!(doc.summary, "sum");
    assert_eq!(doc.info, "info");
    assert_eq!(doc.sections.len(), 1);
}

#[test]
fn error_values_are_distinct() {
    let a = ParseLLMSError::InvalidSpec;
    let b = ParseLLMSError::RegexError("bad".to_string());
    assert!(matches!(a, ParseLLMSError::InvalidSpec));
    assert!(matches!(b, ParseLLMSError::RegexError(ref m) if m == "bad"));
}

#[test]
fn unicode_whitespace_is_trimmed() {
    let mut doc = LLMSTxt::new();
    assert!(doc.parse("# A\u{a0}\n\n>\u{2003}Sum\u{3000}\n").is_ok());
    assert_eq!(doc.title, "A");
    assert_eq!(doc.summary, "Sum");
    let (title, _, _) = extract_meta("#\u{a0}Title\n");
    assert_eq!(title, "Title");
    let links = extract_links("\u{a0}-\u{a0}[t](u):\u{2009}desc\u{a0}");
    assert_eq!(links.len(), 1);
    assert_eq!(links[0].description, "desc");
    let (_, pairs) = split_sections("\u{3000}##\u{a0}Name\u{a0}\nbody");
    assert_eq!(pairs.len(), 1);
    assert_eq!(pairs[0].0, "Name");
}

#[test]
fn prose_with_dashes_and_indented_bullets() {
    let body = "see - this - note\n\t- [a](http://a): first\nwell-known text -- here\n    - [b](http://b)";
    let links = extract_links(body);
    assert_eq!(links.len(), 2);
    assert_eq!(links[0].title, "a");
    assert_eq!(links[0].description, "first");
    assert_eq!(links[1].url, "http://b");
    assert_eq!(links[1].description, "");
}
