//! In-memory reconstruction of filesystem state from a stream of low-level
//! mutation commands (subvolume creation, snapshots, file/directory creation,
//! metadata changes, renames, and copy-on-write clones), plus construction of
//! the same representation from records describing an on-disk directory tree,
//! so the two can be compared.

pub mod btrfs;
pub mod dir;
pub mod entry;
pub mod error;
pub mod extent;
pub mod file;
pub mod fs;

pub use btrfs::Command;
pub use btrfs::Subvol;
pub use btrfs::Subvols;
pub use dir::DirRecord;
pub use entry::Directory;
pub use entry::Entry;
pub use entry::Metadata;
pub use error::Error;
pub use extent::Extent;
pub use file::File;
pub use file::FileBuilder;
pub use fs::Filesystem;
