//! Verified core of a small family of line- and byte-oriented text
//! utilities: splitting a byte stream into lines, numbering lines
//! under several policies, head-style truncation by lines or bytes,
//! and validation of count arguments.
//!
//! All content is modelled as plain byte vectors. A thin unverified
//! shell performs the actual reads and writes, hands each source's
//! bytes (or the cause of its failure) to this crate, and writes the
//! returned output and diagnostics back out.

pub mod annotate;
pub mod head;
pub mod lines;
pub mod numfmt;
pub mod parse;
pub mod report;
