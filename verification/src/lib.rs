//! Merge engine for `use`-declaration trees.
//!
//! A declaration names one or more entries of a hierarchical namespace as a
//! tree: a plain path, a glob, or a path prefix with a braced group of child
//! trees.  The engine decides whether two such declarations can be combined
//! into one without changing the set of names they import and, when they can,
//! builds the combined, canonically ordered tree.  The inputs are never
//! modified: a failed attempt leaves both declarations exactly as they were.
pub mod completion;
pub mod laws;
pub mod merge;
pub mod model;
pub mod order;
pub mod prefix;
