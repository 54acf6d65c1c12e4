//! Mail ingestion and normalization engine.
//!
//! Decodes RFC 2047 encoded-word headers, translates ISO-8601 cutoffs into
//! IMAP `SINCE` search predicates, selects and orders mail metadata records,
//! and drives the bounded-retry policy of a completion client.

pub mod auth;
pub mod completion;
pub mod error;
pub mod mime;
pub mod record;
pub mod rest;
pub mod search;
pub mod strutil;
