//! A small block-structured filesystem kept in a single host file: a bitmap of
//! free blocks, inodes with a three-tier block index, a flat directory, and an
//! adaptive replacement cache in front of the block device.
use vstd::prelude::*;

pub mod bitmap;
pub mod block;
pub mod buffer_cache;
pub mod codec;
pub mod directory;
pub mod filesys;
pub mod free_map;
pub mod inode;
pub mod vfile;

verus! {

/// Block numbers, lengths and counts of blocks.
pub type Size = u64;

/// Signed byte offsets, as handed to and returned by file reads and writes.
pub type Ofs = i64;

} // verus!
