//! A multi-root file-index store with a fuzzy-ranking search engine.
//!
//! The library keeps, per indexed root directory, an ordered list of file
//! entries, lets the caller switch the active root without losing the other
//! indices, ranks entries against a free-text query, keeps a bounded
//! most-recently-used registry of roots, and confines requested download
//! paths to the active root.

pub mod entry;
pub mod fuzzy;
pub mod guard;
pub mod ident;
pub mod registry;
pub mod store;
mod walk;
