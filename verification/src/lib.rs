//! Code-intelligence primitives for a source-tree index: per-file scope
//! graphs over parsed syntax, byte/line offset bookkeeping, literal text
//! search over stored documents, and token-level symbol resolution.
//!
//! The storage engine, file traversal and syntax parsing are external
//! collaborators; this crate holds the logic between them, verified. The
//! parser is consumed only through the `syntax` module's validated tree
//! form; a deployment that wires no parser indexes every file with empty
//! symbol information, exactly as it would on a parse failure, and text
//! search still works.

pub mod builder;
pub mod codec;
pub mod document;
pub mod lang;
pub mod line_index;
pub mod navigation;
pub mod scope_graph;
pub mod search;
pub mod syntax;
