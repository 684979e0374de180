//! Module lookup over a sorted, one-entry-per-line module index, and the
//! configuration that names module groups.

pub mod document;
pub mod tree;
pub mod modinfo;
pub mod config;
pub mod shell;
