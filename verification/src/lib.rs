//! Gathers the files under a set of paths into one document, in plain,
//! Markdown, XML-like or JSON form, and reads the XML-like form back into
//! files.
//!
//! The library works on values: the entries that a directory walk came upon,
//! the bytes that reading a file gave, the text of a document. Walking,
//! reading and writing are left to the program around it.

pub mod bytes;
pub mod collection;
pub mod filter;
pub mod json;
pub mod language;
pub mod lines;
pub mod path;
pub mod render;
pub mod restore;
pub mod round_trip;
