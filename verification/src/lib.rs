//! Call trees of sampled profiles.
//!
//! The crate turns the samples of a processed Firefox Profiler / samply profile
//! into a top-down call tree keyed by resolved symbol name, lists the visible
//! part of that tree, and drives the state of an interactive viewer.

pub mod aggregate;
pub mod chain;
pub mod cutoff;
pub mod document;
pub mod error;
pub mod forest;
pub mod keys;
pub mod laws;
pub mod listing;
pub mod metadata;
pub mod metadata_laws;
pub mod order;
pub mod paths;
pub mod profile;
pub mod report;
pub mod report_laws;
pub mod resolve;
pub mod resolve_laws;
pub mod row_laws;
pub mod rows;
pub mod sample_laws;
pub mod samples;
pub mod screen;
pub mod stack_laws;
pub mod symbolicate;
pub mod text;
pub mod text_laws;
pub mod tree;
pub mod tree_laws;
pub mod ui;
