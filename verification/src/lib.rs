//! Extraction of a structured data model from a constrained Markdown dialect.
//!
//! Documents encode a schema through their structure: a level-1 heading names
//! the model, each level-3 heading opens an object (followed by a list of
//! attributes) or an enumeration (followed by a fenced code block of
//! `key = value` lines). The extractor consumes a stream of structural
//! events and recovers that schema deterministically.

pub mod events;
pub mod frontmatter;
pub mod model;
pub mod parser;
pub mod primitives;
pub mod strutil;
pub mod xmltype;
