//! Converts plain or semi-structured text into Markdown, line by line:
//! existing Markdown constructs and fenced code blocks pass through verbatim,
//! while runs of plain prose are folded into list items.

pub mod classify;
pub mod convert;
pub mod laws;
pub mod lines;
