//! A heading-structured text format parsed into a forest of annotated nodes.
//!
//! The input is plain text in which `#`-prefixed lines open sections, triple
//! backtick fences delimit code blocks, and a `<desc>...</desc>` pair marks an
//! optional description inside a section body. Parsing is total: every input
//! yields a deterministic forest of [`schema::Memo`] nodes.

pub mod hierarchy;
pub mod lines;
pub mod parser;
pub mod segment;
pub mod schema;
pub mod text;
