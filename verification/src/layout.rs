//! Fixed geometry of a volume.
//!
//! | block | contents                      |
//! |-------|-------------------------------|
//! | 0     | superblock                    |
//! | 1     | data-region allocation bitmap |
//! | 2     | inode allocation bitmap       |
//! | 3..8  | inode table, 16 inodes each   |
//! | 8..64 | data region                   |

use vstd::prelude::*;

verus! {

/// Bytes in one block.
pub const BLOCK_SIZE: usize = 4096;

/// Bytes in one inode record.
pub const NODE_SIZE: usize = 256;

/// Inode records held by one block of the inode table.
pub const NODES_PER_BLOCK: u32 = 16;

/// Bytes of a serialized superblock.
pub const SUPERBLOCK_SIZE: usize = 28;

/// The identifying constant of a formatted volume, "SFSB".
pub const SB_MAGIC: u32 = 0x5346_5342;

/// Block that holds the superblock.
pub const SUPERBLOCK_INDEX: usize = 0;

/// Block that holds the allocation bitmap of the data region.
pub const DATA_REGION_BMP: usize = 1;

/// Block that holds the allocation bitmap of the inode table.
pub const INODE_BMP: usize = 2;

/// First block of the inode table.
pub const INODE_START: usize = 3;

/// Blocks in the inode table.
pub const INODE_BLOCKS: u32 = 5;

/// Inodes in a volume.
pub const INODE_COUNT: u32 = 80;

/// First block of the data region.
pub const DATA_START: u32 = 8;

/// Blocks in the data region.
pub const DATA_BLOCKS: u32 = 56;

/// Blocks in a volume.
pub const TOTAL_BLOCKS: usize = 64;

/// Direct block pointers in one inode.
pub const DIRECT_POINTERS: usize = 15;

/// Bits in one bitmap block.
pub const BITMAP_BITS: usize = 32768;

} // verus!
