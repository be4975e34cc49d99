//! A small virtual file system kept inside one host file: a header that holds
//! the directory tree and a table of names, followed by fixed-size data blocks.
//! This crate holds the verified core: the binary formats, the name table, the
//! directory tree and the block bookkeeping.
use vstd::prelude::*;

pub mod fs_base;
pub mod errors;
pub mod serde;
pub mod util;
pub mod string_buffer;
pub mod traits;
pub mod inode;
pub mod directory;
pub mod file;
pub mod header;
pub mod block_device;
pub mod ops;
pub mod vfs;
pub mod printer;
pub mod image;
pub mod probe;
