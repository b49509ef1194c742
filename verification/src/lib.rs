//! Reconciles a directory of source files with a directory of files derived
//! from them: a source file is redundant once a file with the same stem,
//! compared without regard to case, exists among the derived files.
//!
//! The library decides and the caller acts. The caller lists the two
//! directories and hands over what it saw ([`listing`]); the files are grouped
//! by the lowercase of their stems ([`stem`], [`index`]); the source files
//! whose key also stands in the destination are selected, to be reported in
//! a dry run and removed in a live run ([`reconcile`]); and what the run has
//! to say is written line by line ([`report`]). Nothing here touches a file.

pub mod index;
pub mod listing;
pub mod reconcile;
pub mod report;
pub mod stem;
