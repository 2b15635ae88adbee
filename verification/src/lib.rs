//! Content graph engine for a static-site generator.
//!
//! The library discovers content records, organizes them into a hierarchy of
//! sections and pages, resolves permalinks, derives tag/category indexes and
//! pagination, and decides what must be recomputed when a single file changes.
//! All I/O (walking the filesystem, parsing front matter, template rendering,
//! writing output) is left to the caller; the library works on plain values.

pub mod config;
pub mod errors;
pub mod index;
pub mod meta;
pub mod page;
pub mod pagination;
pub mod paths;
pub mod permalinks;
pub mod section;
pub mod site;
