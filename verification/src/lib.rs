//! Verified core of a hosts-file website blocker.
//!
//! The library parses a hosts-style text into a document of opaque
//! passthrough lines plus the redirect entries it manages — each entry a
//! pair of consecutive lines, a `#!wb` marker line followed by an
//! `<address> <domain>` line — supports adding and removing entries under
//! a domain-uniqueness invariant, and renders the document back to text.

pub mod config;
pub mod document;
pub mod entry;
pub mod ip;
pub mod laws;
pub mod runner;
pub mod text;

pub use document::{CollectionError, WebsiteCollection};
pub use entry::{ParseError, Website};
pub use ip::Ipv4Address;
pub use runner::{run, RunAction, RunError};
pub use text::str_eq;
