//! A reader for a content-addressable object store: decodes the four object
//! kinds (blob, tree, commit, tag) out of compressed on-disk byte streams,
//! and walks the commit ancestry graph from a given hash.

pub mod error;
pub mod stream;
pub mod parse;
pub mod object;
pub mod db;
pub mod laws;
