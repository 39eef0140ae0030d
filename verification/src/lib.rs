//! A searchable index over documentation entries.
//!
//! Entries are decoded from per-package records, kept as a sorted set without
//! duplicates, and indexed by their bare name. The index is queried with
//! finite-state acceptors over the bytes of a name.

pub mod acceptor;
pub mod bytes;
pub mod decoder;
pub mod doc;
pub mod item;
pub mod json;
pub mod pattern;
pub mod record;
pub mod seeker;

pub use crate::doc::RustDoc;
pub use crate::item::{DocItem, TypeItem};
pub use crate::seeker::RustDocSeeker;
