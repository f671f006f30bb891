//! A Markdown and JSON document viewer's core: wikilink rewriting, Mermaid
//! flowchart layout and drawing, text wrapping, search, and configuration.
use vstd::prelude::*;

pub mod canvas;
pub mod cmark;
pub mod config;
pub mod diagram;
pub mod export;
pub mod flowchart;
pub mod image;
pub mod json;
pub mod layout;
pub mod markdown;
pub mod pattern;
pub mod style;
pub mod text;
pub mod theme;
pub mod viewer;
pub mod wikilink;

verus! {
} // verus!
