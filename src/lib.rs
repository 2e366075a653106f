//! Parser for `llms.txt` documents: a title, an optional summary, free
//! text, and sections made of link bullets.
//!
//! The document is cut at its `##` heading lines (`sections`); the text
//! before the first heading gives title, summary and free text (`meta`);
//! each heading's body gives the links of one section (`links`). The
//! `document` module puts the three together on `LLMSTxt`.
pub mod text;
pub mod model;
pub mod links;
pub mod sections;
pub mod meta;
pub mod document;

pub use model::{DocView, LLMSTxt, Link, LinkView, ParseLLMSError, Section};
