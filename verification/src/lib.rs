//! An in-memory query-evaluation engine over document-tree values.
//!
//! The engine filters, sorts, paginates, projects, validates and merges
//! documents held in a transient collection. Every operation is a pure
//! function of its inputs; nothing persists between calls.

pub mod engine;
pub mod laws;
pub mod operators;
pub mod text;
pub mod value;
