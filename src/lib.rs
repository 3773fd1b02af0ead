//! A small content-addressable object store for a version-control system:
//! canonical object records, a tree builder, and a lockfile-guarded head ref.
pub mod utils;
pub mod object;
pub mod author;
pub mod blob;
pub mod commit;
pub mod database;
pub mod entry;
pub mod tree;
pub mod lockfile;
pub mod refs;
pub mod workspace;
