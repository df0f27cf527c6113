//! Snapshot-based backup into a plain directory tree that anyone can browse without tools.
//!
//! The library decides what happens and does no input or output of its own: a step of a walk, of
//! storing a file or of a whole run is a question about the file system, and the answer to it gives
//! the next step.

pub mod archive;
pub mod cache;
pub mod catalog;
pub mod cli;
pub mod complete;
pub mod config;
pub mod course;
pub mod engine;
pub mod hash;
pub mod keeping;
pub mod path;
pub mod reindex;
pub mod reorganised;
pub mod run;
pub mod scan;
pub mod sqlite;
pub mod stats;
pub mod store;
pub mod text;

