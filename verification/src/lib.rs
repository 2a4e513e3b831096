//! Export of journal entries into a directory of individually addressable
//! text files.
//!
//! The crate centres on a reconciliation engine: given the entries freshly
//! read from the source record store and an index of files already exported,
//! it decides per entry whether to create a new file, overwrite one with
//! newer content, refresh only the system-owned metadata while preserving
//! user edits, or leave the file untouched.  All decision logic is verified;
//! the surrounding binary performs the actual database queries and file
//! writes and hands plain values in and out.

pub mod cli;
pub mod db;
pub mod entry;
pub mod exporter;
pub mod frontmatter;
pub mod index;
pub mod lines;
pub mod naming;
pub mod reconcile;
pub mod text;
pub mod timestamp;
pub mod walk;
