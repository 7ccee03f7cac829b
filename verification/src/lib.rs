//! Incremental content-indexing core of a personal wiki: a wikitext block
//! parser, link/tag graph maintenance, a weighted search-document builder,
//! and the decision logic of the asynchronous job pipeline.
//!
//! Note text is held as bytes throughout: titles, tags, bodies and
//! rendered fragments are `Vec<u8>`, and every contract speaks of their
//! views as `Seq<u8>`.
use vstd::prelude::*;

pub mod block;
pub mod bytes;
pub mod graph;
pub mod jobs;
pub mod notes;
pub mod pages;
pub mod render;
pub mod search;
pub mod templates;
mod trusted;
pub mod uploaded_files;

pub use block::{parse_block, BlockElement, BlockNode};
pub use graph::{build_tags_and_links, LinkGraph, NoteSummary, TitleMap};
pub use jobs::{Action, Message, MruCache, PatchData};
pub use notes::Note;
pub use render::{format_links, to_html, write_to_string, Html};
pub use search::Doc;
pub use templates::{render_template, to_template, ParsedTemplate, TemplattedPage};

verus! {

} // verus!
