//! A content-addressed object store in the on-disk format of git, with the
//! tree builder, checkout engine and three-way merge built on top of it.
//!
//! Every operation works on in-memory models of the repository (the object
//! store, the refs, the staging index, a snapshot of the working directory);
//! reading those from disk and writing results back is left to the caller.

pub mod bytes;
pub mod cat;
pub mod checkout;
pub mod commit;
pub mod error;
pub mod hexid;
pub mod log;
pub mod ls_files;
pub mod merge;
pub mod object;
pub mod parse_tree;
pub mod refs;
pub mod simple_index;
pub mod status_binary_index;
pub mod status;
pub mod store;
pub mod tab;
pub mod tabs;
pub mod write_tree;
