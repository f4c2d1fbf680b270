//! Export a tree of individually encrypted secret entries as one flat CSV
//! table: one row per entry, holding the primary secret, the remaining lines
//! flattened into a single delimited field, and the originating file path.
//!
//! The crate verifies the entry-parsing and export-pipeline logic. File
//! discovery, decryption and the command line live outside the library and
//! hand it plain values.

pub mod csvout;
pub mod entry;
pub mod laws;
pub mod pipeline;
pub mod text;

pub use entry::Entry;
pub use entry::Pass2CSVError;
pub use pipeline::DecryptOutcome;
pub use pipeline::Exporter;
pub use pipeline::FatalError;
pub use text::split_lines;
