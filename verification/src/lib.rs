//! Markdown-to-HTML page engine: a heading registry that hands out unique
//! URL-fragment anchors, a single-pass token-stream transform that re-tags
//! headings and injects highlighted code, and a nested-list TOC builder.

pub mod cli;
pub mod heading;
pub mod highlight_code;
pub mod md2html;
pub mod slug;
