//! Coverage-aggregation engine for pangenome growth statistics.
//!
//! The library turns per-path item membership (which graph nodes, edges or
//! base-pair spans occur on which paths) into compact per-group coverage
//! structures: a sparse coverage matrix in CSR layout, a per-item total
//! coverage table, and one- and two-dimensional coverage histograms. Growth
//! curves are derived from these histograms by a separate, unverified
//! numerical layer; everything in this crate is integer computation with
//! machine-checked contracts.

pub mod analyses;
pub mod gfa;
pub mod analysis_parameter;
pub mod graph_broker;
pub mod util;
