//! A minimal version-control engine: a content-addressed object store, a
//! staging index, trees built from the index and read back from the store,
//! a commit chain with its references, and the reconciliation of a working
//! directory with stored snapshots (checkout and status).
//!
//! File-system access is left to the caller: the library works on the bytes
//! and texts that a repository holds on disk.

pub mod cl_args;
pub mod commit;
pub mod errors;
pub mod file_system;
pub mod index;
pub mod object;
pub mod object_type;
pub mod store;
pub mod text;
pub mod tree;
pub mod worktree;
