//! Runtime module lifecycle, the module dependency graph, runtime errors, and the catalog
//! of native functions.
pub mod error;
pub mod graph;
pub mod module;
pub mod native;
