//! Build-time dependency listing.
//!
//! Turns a flat, already-resolved set of package records (each with a name,
//! a version, and the names of its direct dependencies) into a deduplicated,
//! depth-bounded traversal order suitable for driving a text template:
//!
//! - [`graph::build`] reconstructs the dependency graph, computes how often
//!   each package is referenced, and selects the unreferenced root package;
//! - [`flatten::flatten`] walks the graph from the root in pre-order,
//!   deduplicating by name and honouring an optional maximum depth and an
//!   optional root-inclusion flag.
//!
//! Reading the lock file, rendering the template and writing the output are
//! the host pipeline's business; this crate only computes.

pub mod configuration;
pub mod data;
pub mod flatten;
pub mod graph;
pub mod order;
pub mod package;
pub mod text;
