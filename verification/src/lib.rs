//! Verified core of a corpus-building pipeline.
//!
//! A run turns a directory of compressed web-crawl shards into one
//! plain-text corpus per language: every record body is decoded, split
//! into lines, the long lines are classified by a pluggable language
//! oracle, and the classified sentences are folded into per-shard,
//! per-language buckets that are appended in bulk to the output file of
//! their language.  The modules here hold the decision logic of that
//! pipeline with contracts; the surrounding process (filesystem walks,
//! archive readers, worker pools) stays outside and hands in plain
//! values.

pub mod aggregate;
pub mod driver;
pub mod lines;
pub mod metadata;
pub mod oracle;
pub mod output;
pub mod registry;
pub mod text;
