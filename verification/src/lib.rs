//! Gate-count analysis for virtual digital-circuit projects.
//!
//! A project defines named composite chips, each built from references to
//! other chips down to a fixed catalog of built-in blocks.  The library
//! computes, for every custom chip, the number of primitive two-input NAND
//! gates it ultimately expands to, by a memoized depth-first resolution over
//! the chip reference graph.

pub mod chip;
pub mod graph;
pub mod catalog;
pub mod resolver;
pub mod ingest;
pub mod scan;
