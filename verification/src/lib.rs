//! Literal text search over a directory tree.
//!
//! The crate holds the decisions of a recursive file-content search: how a
//! file's bytes are cut into lines, where a search string first occurs in a
//! line, which match records a file yields, and how a depth-limited walk over
//! directory entries proceeds. Reading the filesystem is left to the caller,
//! who reports what it found for each entry and is told what to visit next.

pub mod matching;
pub mod record;
pub mod decode;
pub mod lines;
pub mod scanner;
pub mod walker;
pub mod traversal;
