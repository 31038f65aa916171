//! An embedded, in-memory table store with a canonical textual document
//! format.
//!
//! Each named table is one document: a table name, a monotonically increasing
//! record-identifier counter, and a mapping from string keys to records.  A
//! record is carried as the text of one JSON value; the engine never looks
//! inside it.  Documents are kept and handed out in one canonical textual
//! shape, and the codec that renders and parses that shape is verified to be
//! a bijection on well-formed documents.

pub mod codec;
pub mod digits;
pub mod doc;
pub mod errors;
pub mod laws;
pub mod scan;
pub mod store;
