//! Disk usage analysis: what a walk of the filesystem counts, and how it is
//! listed, drawn and exported.
//!
//! - [`path`], [`text`], [`order`]: paths as bytes, text, and stable sorting.
//! - [`rounding`], [`numeral`], [`size_arg`], [`formatter`]: sizes as they are
//!   typed and shown, and the views of a scan for people.
//! - [`stat`], [`walker`], [`traversal`], [`scan`]: what the system says of an
//!   entry, what becomes of it, and the walks of one and of many threads.
//! - [`census`], [`pool`], [`agreement`]: what a walk finds on a given disk, how
//!   many threads walk it, and why they find the same.
//! - [`aggregator`], [`breakdown`], [`output`], [`cli`]: the result tree, its
//!   listings, CSV and JSON, and the choices of the command line.

pub mod aggregator;
pub mod agreement;
pub mod breakdown;
pub mod census;
pub mod cli;
pub mod formatter;
pub mod numeral;
pub mod order;
pub mod output;
pub mod path;
pub mod pool;
pub mod rounding;
pub mod scan;
pub mod size_arg;
pub mod stat;
pub mod text;
pub mod traversal;
pub mod walker;
