//! Finds files with identical content: content digests, the index that groups
//! paths by digest, the worklist that walks a directory tree, the report of
//! duplicate sets and the rules for resolving one interactively.
//!
//! Nothing here touches the file system or the terminal. A caller lists
//! directories, reads files, prints and deletes; every decision is taken here.

pub mod digest;
pub mod grouping;
pub mod record;
pub mod report;
pub mod resolve;
pub mod scan;
pub mod text;
pub mod tree;
