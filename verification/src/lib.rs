//! A line-oriented log rotator, split into its verified core:
//! the size-literal parser, the archive-ring rotation engine, and
//! the per-line ingest policy, each stated over a mathematical model
//! of the files on disk.

pub mod history;
pub mod names;
pub mod ring;
pub mod size;
