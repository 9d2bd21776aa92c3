//! SynBlog: a line-oriented markup format for blog posts.
//!
//! A post is a four-line metadata header (title, tags, posted timestamp,
//! summary) followed by a body of element blocks separated by blank lines.
//! Each element block is one wire line: a horizontal rule, a heading, an
//! image reference, a code line, or free text.  The library parses the wire
//! form into an in-memory document, serializes a document back to the wire
//! form, and renders elements as HTML fragments.

pub mod document;
pub mod element;
pub mod text;

pub use document::SynFile;
pub use element::SynElement;
