//! Content-addressed snapshots of directory trees.
//!
//! A snapshot is a [`directory::Directory`]: names mapped to file identifiers
//! or to nested snapshots. The bytes of the files live in an
//! [`object_store::ObjectStore`], each under its [`object_id::ObjectId`], the
//! SHA-256 digest of the bytes.
//!
//! * [`directory::Directory::new`] takes a snapshot of what lies on disk and
//!   fills the store;
//! * [`directory::Directory::diff`] says what has to happen to one snapshot
//!   to arrive at another;
//! * [`directory::Directory::write`] writes a snapshot back out.
//!
//! Nothing here touches the disk. What lies on disk comes in and goes out as
//! an [`fs_tree::FsNode`]; a store on disk is laid out by
//! [`object_store::directory::DirectoryObjectStore`], and read and written by
//! its caller.
pub mod directory;
pub mod fs_tree;
pub mod materialize;
pub mod name;
pub mod name_map;
pub mod object_id;
pub mod object_store;
pub mod round_trip;
pub mod snapshot;
