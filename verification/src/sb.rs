//! The superblock: the record in block 0 that identifies a formatted volume
//! and keeps its accounting.

use crate::codec;
use crate::layout::{DATA_BLOCKS, INODE_COUNT, SB_MAGIC, SUPERBLOCK_SIZE};
use vstd::prelude::*;

verus! {

/// The first block of the file system. On disk it is seven little-endian
/// `u32` fields in declaration order, 28 bytes, with no padding.
#[derive(Debug, PartialEq, Eq, Structural, Clone, Copy)]
pub struct SuperBlock {
    /// A 32-bit identifying constant.
    pub sb_magic: u32,
    /// Total inodes of the volume.
    pub inodes_count: u32,
    /// Blocks of the data region.
    pub blocks_count: u32,
    /// Blocks currently in use by the file system.
    pub reserved_blocks_count: u32,
    /// Blocks available to be allocated.
    pub free_blocks_count: u32,
    /// Inodes still available.
    pub free_inodes_count: u32,
    /// Index of the next free block, as a hint.
    pub free_list: u32,
}

impl SuperBlock {
    /// The on-disk image of the record.
    pub open spec fn encode(self) -> Seq<u8> {
        codec::u32_le(self.sb_magic) + codec::u32_le(self.inodes_count) + codec::u32_le(
            self.blocks_count,
        ) + codec::u32_le(self.reserved_blocks_count) + codec::u32_le(self.free_blocks_count)
            + codec::u32_le(self.free_inodes_count) + codec::u32_le(self.free_list)
    }

    /// The record that the first 28 bytes of `bytes` hold.
    pub open spec fn decode(bytes: Seq<u8>) -> SuperBlock {
        SuperBlock {
            sb_magic: codec::u32_at(bytes, 0),
            inodes_count: codec::u32_at(bytes, 4),
            blocks_count: codec::u32_at(bytes, 8),
            reserved_blocks_count: codec::u32_at(bytes, 12),
            free_blocks_count: codec::u32_at(bytes, 16),
            free_inodes_count: codec::u32_at(bytes, 20),
            free_list: codec::u32_at(bytes, 24),
        }
    }

    /// The record with every field zero; its magic is deliberately invalid.
    pub open spec fn zeroed() -> SuperBlock {
        SuperBlock {
            sb_magic: 0,
            inodes_count: 0,
            blocks_count: 0,
            reserved_blocks_count: 0,
            free_blocks_count: 0,
            free_inodes_count: 0,
            free_list: 0,
        }
    }

    /// The record of a freshly formatted volume: the magic, 80 inodes, all of
    /// them free, and 56 data blocks.
    pub open spec fn formatted() -> SuperBlock {
        SuperBlock {
            sb_magic: SB_MAGIC,
            inodes_count: INODE_COUNT,
            blocks_count: DATA_BLOCKS,
            reserved_blocks_count: 0,
            free_blocks_count: 0,
            free_inodes_count: INODE_COUNT,
            free_list: 0,
        }
    }

    /// A record with every field zero.
    pub fn new() -> (sb: Self)
        ensures
            sb == Self::zeroed(),
    {
        Self {
            sb_magic: 0,
            inodes_count: 0,
            blocks_count: 0,
            reserved_blocks_count: 0,
            free_blocks_count: 0,
            free_inodes_count: 0,
            free_list: 0,
        }
    }

    /// Reads a superblock from the start of `buf`. The caller has to know
    /// that the buffer carries the magic it expects.
    pub fn parse(buf: &[u8], magic: u32) -> (sb: Self)
        requires
            buf@.len() >= SUPERBLOCK_SIZE,
            codec::u32_at(buf@, 0) == magic,
        ensures
            sb == Self::decode(buf@),
            sb.sb_magic == magic,
    {
        Self {
            sb_magic: codec::read_u32(buf, 0),
            inodes_count: codec::read_u32(buf, 4),
            blocks_count: codec::read_u32(buf, 8),
            reserved_blocks_count: codec::read_u32(buf, 12),
            free_blocks_count: codec::read_u32(buf, 16),
            free_inodes_count: codec::read_u32(buf, 20),
            free_list: codec::read_u32(buf, 24),
        }
    }

    /// The 28 bytes that represent the record on disk.
    pub fn serialize(&self) -> (out: Vec<u8>)
        ensures
            out@ == self.encode(),
            out@.len() == SUPERBLOCK_SIZE,
    {
        let mut out: Vec<u8> = Vec::new();
        codec::push_u32(&mut out, self.sb_magic);
        codec::push_u32(&mut out, self.inodes_count);
        codec::push_u32(&mut out, self.blocks_count);
        codec::push_u32(&mut out, self.reserved_blocks_count);
        codec::push_u32(&mut out, self.free_blocks_count);
        codec::push_u32(&mut out, self.free_inodes_count);
        codec::push_u32(&mut out, self.free_list);
        assert(out@ =~= self.encode());
        out
    }

    /// Parsing a serialized superblock with its own magic gives it back: the
    /// serialized form carries the magic in its first four bytes, so `parse`
    /// accepts it, and every field reads back unchanged.
    pub proof fn lemma_round_trip(self)
        ensures
            self.encode().len() == SUPERBLOCK_SIZE,
            codec::u32_at(self.encode(), 0) == self.sb_magic,
            Self::decode(self.encode()) == self,
    {
        let e = self.encode();
        codec::lemma_u32_round_trip(self.sb_magic);
        codec::lemma_u32_round_trip(self.inodes_count);
        codec::lemma_u32_round_trip(self.blocks_count);
        codec::lemma_u32_round_trip(self.reserved_blocks_count);
        codec::lemma_u32_round_trip(self.free_blocks_count);
        codec::lemma_u32_round_trip(self.free_inodes_count);
        codec::lemma_u32_round_trip(self.free_list);
        assert(e.subrange(0, 4) =~= codec::u32_le(self.sb_magic));
        assert(e.subrange(4, 8) =~= codec::u32_le(self.inodes_count));
        assert(e.subrange(8, 12) =~= codec::u32_le(self.blocks_count));
        assert(e.subrange(12, 16) =~= codec::u32_le(self.reserved_blocks_count));
        assert(e.subrange(16, 20) =~= codec::u32_le(self.free_blocks_count));
        assert(e.subrange(20, 24) =~= codec::u32_le(self.free_inodes_count));
        assert(e.subrange(24, 28) =~= codec::u32_le(self.free_list));
        Self::lemma_field_at(e, 0);
        Self::lemma_field_at(e, 4);
        Self::lemma_field_at(e, 8);
        Self::lemma_field_at(e, 12);
        Self::lemma_field_at(e, 16);
        Self::lemma_field_at(e, 20);
        Self::lemma_field_at(e, 24);
    }

    proof fn lemma_field_at(e: Seq<u8>, i: int)
        requires
            0 <= i,
            i + 4 <= e.len(),
        ensures
            codec::u32_at(e, i) == codec::u32_at(e.subrange(i, i + 4), 0),
    {
    }
}

impl Default for SuperBlock {
    /// The superblock that `create` writes.
    fn default() -> (sb: Self)
        ensures
            sb == SuperBlock::formatted(),
    {
        let mut sb = SuperBlock::new();
        sb.sb_magic = SB_MAGIC;
        sb.inodes_count = INODE_COUNT;
        sb.blocks_count = DATA_BLOCKS;
        sb.reserved_blocks_count = 0;
        sb.free_blocks_count = 0;
        sb.free_inodes_count = sb.inodes_count;
        sb
    }
}

} // verus!
