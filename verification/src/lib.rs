//! Import-cycle detection for a project's module graph.

pub mod catalog;
pub mod completeness;
pub mod directory;
pub mod imports;
pub mod laws;
pub mod python_module;
pub mod report;
pub mod text;
pub mod traversal;
pub mod uniqueness;
pub mod util;
