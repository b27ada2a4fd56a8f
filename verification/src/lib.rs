//! In-memory snapshots of a filesystem subtree: every file is classified by
//! signature and extension, its content is digested, ELF binaries have their
//! required libraries resolved against the other entries of the snapshot, and
//! two snapshots can be compared entry by entry.
//!
//! Nothing here touches the filesystem. Callers hand in names, sizes and file
//! contents as plain values and get plain values back; what a pass has to
//! report comes back as a list of findings.
//!
//! - [`file`] classifies a file and reads ELF binaries.
//! - [`hash`] computes the content digest.
//! - [`contents`] is the table of file contents that the passes work from.
//! - [`fstree`] is the snapshot: a tree of nodes, the three passes over it
//!   and the resolution of required libraries.
//! - [`node`] and [`tree`] are the tree that can be compared with another
//!   capture, with its two passes and the comparison.
//! - [`diagnostic`] are the findings of the passes.
//! - [`text`] holds what the other modules need of strings and paths.
//!
//! Every data type has a mathematical value, its view, and every function
//! says in its contract what it returns or changes in terms of these values.
//! A tree is an owned value: a directory owns its children, and a node names
//! its parent by the parent's path.
pub mod contents;
pub mod diagnostic;
pub mod file;
pub mod fstree;
pub mod hash;
pub mod node;
pub mod text;
pub mod tree;
