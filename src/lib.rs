//! Content-addressed, encrypted, compressed archives of directory trees:
//! the archive format, its index and the engines that read and write it.

pub mod builder;
pub mod codec;
pub mod digest;
pub mod error;
pub mod format;
pub mod index;
pub mod locator;
pub mod path;
pub mod vfs;
