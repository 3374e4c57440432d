//! A read-only flat archive: a builder that packs payloads into one image,
//! and a mounter that serves those payloads back by index from any storage.

pub mod buffer;
pub mod builder;
pub mod codec;
pub mod fs;
pub mod image;
pub mod ram;

pub use builder::{BuilderError, SimpleFsBuilder};
pub use codec::{DirEntry, FilesystemHeader, ENTRY_SIZE, HEADER_SIZE, SIGNATURE};
pub use fs::{Error, File, FileSystem, Storage};
pub use ram::{RamStorage, RamStorageError};
