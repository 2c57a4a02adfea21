//! A reader for minified JSON maps that indexes a document into a flat table
//! of offsets instead of building a tree.

pub mod config;
pub mod de;
pub mod std_ext;
pub mod unescape;

pub use de::document::Document;
