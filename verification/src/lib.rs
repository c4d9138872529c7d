//! Checkpoint-based incremental backup of a directory tree, as verified
//! logic on values in memory.
//!
//! A run builds a new checkpoint from a source tree: a metadata file for
//! every file, the content of the files that changed since the previous
//! checkpoint, and one archive for each directory into which its metadata
//! files are folded. Directory trees are handed in and out as [`tree::DirNode`]
//! values; reading them from disk and writing them back is left to the
//! caller.
//!
//! - [`record`]: the change record of a file and its stored form.
//! - [`walker`]: the walk that decides, file by file, what is copied.
//! - [`fold`] and [`archive`]: folding metadata files into archives and
//!   unfolding them again.
//! - [`driver`]: a whole run, from the pointer to the latest checkpoint to
//!   the plan of what the run leaves behind.
//! - [`text`], [`hashing`], [`clock`], [`tree`]: what the others are built
//!   from.
//! - [`walker_laws`], [`fold_laws`], [`run_laws`]: what holds of every run.

pub mod archive;
pub mod clock;
pub mod driver;
pub mod fold;
pub mod fold_laws;
pub mod hashing;
pub mod record;
pub mod run_laws;
pub mod text;
pub mod tree;
pub mod walker;
pub mod walker_laws;
