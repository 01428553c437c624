//! Runtime of a small output protocol: a short-lived process reports named
//! values, and its success or failure, to a host through an append-only file.
//!
//! - [`encode`] turns one named value into the exact text of its record.
//! - [`decode`] states how a reader recovers records, and proves that every
//!   record reads back as what was written.
//! - [`channel`] resolves where the records go, and keeps an in-memory
//!   append-only log of records.
//! - [`outcome`] maps the result of the wrapped computation onto a final
//!   record and an exit status.
pub mod channel;
pub mod decode;
pub mod encode;
pub mod outcome;
