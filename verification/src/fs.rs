//! The file system core: formatting a device, mounting it, and opening files
//! by path.

use crate::allocation::{
    lemma_first_free, lemma_first_free_unique, lemma_with_bit, Bitmap, NextAvailableAllocation,
};
use crate::codec;
use crate::dir::{is_absolute, parse_path, parse_path_spec, storable, Directory};
use crate::io::block::{lemma_overwritten_whole, BlockError, BlockStorage};
use crate::layout::{
    BLOCK_SIZE, DATA_BLOCKS, DATA_REGION_BMP, DATA_START, DIRECT_POINTERS, INODE_BLOCKS, INODE_BMP,
    INODE_START, SB_MAGIC, SUPERBLOCK_INDEX, SUPERBLOCK_SIZE, TOTAL_BLOCKS,
};
use crate::node::{
    data_pointers, lemma_data_pointers, lemma_words_array, words_array, Inode, InodeGroup,
};
use crate::sb::SuperBlock;
use crate::text::views;
use crate::volume::{
    chunk, file_bytes, grow, needed_blocks, pointers, table_nodes, write_chunks, write_table,
    Opened, Volume,
};
use vstd::prelude::*;

verus! {

/// How a file is to be opened. Only `CREATE` makes a file that is not there;
/// with every other mode the file has to exist.
#[derive(Debug, Clone, Copy)]
pub enum OpenMode {
    RO,
    WO,
    RW,
    DIRECTORY,
    CREATE,
}

/// Why an operation of the file system failed.
#[derive(Debug)]
pub enum SFSError {
    /// The path is malformed; the text says how.
    InvalidArgument(String),
    /// A component of the path is not there, or an inumber has no inode.
    DoesNotExist,
    /// A block could not be read, written or used; the cause says why.
    InvalidBlock(BlockError),
}

/// Whether `res` is the answer that `open_file` gives where opening ends as
/// `opened`.
pub open spec fn answers(res: Result<u32, SFSError>, opened: Opened) -> bool {
    match opened {
        Opened::File(inum) => res == Ok::<u32, SFSError>(inum),
        Opened::Absent => res matches Err(SFSError::DoesNotExist),
        Opened::Damaged => res matches Err(SFSError::InvalidBlock(BlockError::InvalidData)),
        Opened::Full => res matches Err(SFSError::InvalidBlock(BlockError::StorageFull)),
    }
}

/// Whether `res` reports a fault of the device.
pub open spec fn is_fault<R>(res: Result<R, SFSError>) -> bool {
    res matches Err(SFSError::InvalidBlock(BlockError::Io(_)))
}

/// The bytes of a path: its text in UTF-8.
pub open spec fn path_bytes(path: &str) -> Seq<u8> {
    vstd::utf8::encode_utf8(path@)
}

/// What `open_file` says of a path that it does not accept.
pub open spec fn path_complaint(path: Seq<u8>) -> Seq<char> {
    if is_absolute(path) {
        "path holds a name with ':', a line break or a zero byte"@
    } else {
        "path must start with \"/\""@
    }
}

/// A file system of 64 blocks of 4 KiB on a block device: one superblock,
/// one bitmap for the data region, one bitmap for the inodes, five blocks
/// of inodes and 56 blocks of data.
pub struct SFS<T: BlockStorage> {
    dev: T,
    super_block: SuperBlock,
    data_map: Bitmap,
    inodes: InodeGroup,
}

impl<T: BlockStorage> View for SFS<T> {
    type V = Volume;

    /// What the device and the state in memory hold.
    closed spec fn view(&self) -> Volume {
        Volume {
            blocks: self.dev.blocks(),
            super_block: self.super_block,
            data_map: self.data_map.bytes(),
            inode_map: self.inodes.tracker().bytes(),
            nodes: self.inodes.nodes(),
        }
    }
}

/// The blocks of the data region that `node` points to, in the order of its
/// pointers.
pub fn owned_blocks(node: &Inode) -> (owned: Vec<u32>)
    ensures
        owned@ == node.owned(),
        owned@.len() <= DIRECT_POINTERS,
        forall|k: int| 0 <= k < owned@.len() ==> DATA_START <= #[trigger] owned@[k] < TOTAL_BLOCKS,
{
    let mut owned: Vec<u32> = Vec::new();
    let mut k: usize = 0;
    assert(node.blocks@.take(0) =~= Seq::<u32>::empty());
    while k < DIRECT_POINTERS
        invariant
            k <= DIRECT_POINTERS,
            owned@ == data_pointers(node.blocks@.take(k as int)),
        decreases DIRECT_POINTERS - k,
    {
        let p: u32 = node.blocks[k];
        assert(node.blocks@.take(k + 1).drop_last() =~= node.blocks@.take(k as int));
        if DATA_START <= p && p < TOTAL_BLOCKS as u32 {
            owned.push(p);
        }
        k += 1;
    }
    proof {
        assert(node.blocks@.take(k as int) =~= node.blocks@);
        lemma_data_pointers(node.blocks@);
    }
    owned
}

/// Finds the blocks for a file that owns `owned` and needs `needed`: while
/// the file has too few, it gets the lowest free block of the data region,
/// which is marked reserved in the bitmap. Returns the blocks of the file
/// and the bitmap, or `None` where the data region runs out.
pub fn plan_blocks(owned: Vec<u32>, map: Bitmap, needed: usize) -> (plan: Option<(Vec<u32>, Bitmap)>)
    ensures
        match plan {
            Some((all, marked)) => grow(owned@, map.bytes(), needed as nat) == Some(
                (all@, marked.bytes()),
            ),
            None => grow(owned@, map.bytes(), needed as nat) is None,
        },
{
    let mut alloc_gen = NextAvailableAllocation::new(map, Some(DATA_BLOCKS as usize));
    let mut marked = map;
    let mut all = owned;
    while all.len() < needed
        invariant
            grow(owned@, map.bytes(), needed as nat) == grow(all@, marked.bytes(), needed as nat),
            alloc_gen.bits() == map@,
            alloc_gen.cap() == DATA_BLOCKS,
            0 <= alloc_gen.marker() <= DATA_BLOCKS,
            forall|i: int| 0 <= i < alloc_gen.marker() ==> marked@[i],
            forall|i: int| alloc_gen.marker() <= i < DATA_BLOCKS ==> marked@[i] == map@[i],
        decreases DATA_BLOCKS - alloc_gen.marker(),
    {
        let ghost from = alloc_gen.marker();
        proof {
            marked.lemma_len();
            map.lemma_len();
            lemma_first_free(map@, from, DATA_BLOCKS as int);
        }
        match alloc_gen.next() {
            Some(j) => {
                proof {
                    lemma_first_free_unique(marked@, 0, DATA_BLOCKS as int, j as int);
                }
                marked.set_reserved(j);
                all.push(DATA_START + j as u32);
            },
            None => {
                proof {
                    lemma_first_free_unique(marked@, 0, DATA_BLOCKS as int, 0);
                }
                return None;
            },
        }
    }
    Some((all, marked))
}

/// The pointers of an inode that owns `owned`: the blocks, then zeros.
pub fn pointer_block(owned: &Vec<u32>) -> (blocks: [u32; 15])
    ensures
        blocks == words_array::<15>(pointers(owned@), 15),
        blocks@ == pointers(owned@),
{
    let mut blocks = [0u32; 15];
    let mut k: usize = 0;
    while k < DIRECT_POINTERS
        invariant
            k <= DIRECT_POINTERS,
            forall|j: int| 0 <= j < k ==> blocks@[j] == pointers(owned@)[j],
        decreases DIRECT_POINTERS - k,
    {
        if k < owned.len() {
            blocks[k] = owned[k];
        } else {
            blocks[k] = 0;
        }
        k += 1;
    }
    proof {
        lemma_words_array::<15>(pointers(owned@), 15);
        assert(blocks =~= words_array::<15>(pointers(owned@), 15));
        assert(blocks@ =~= pointers(owned@));
    }
    blocks
}

impl<T: BlockStorage> SFS<T> {
    /// The device that carries the volume.
    pub closed spec fn device(&self) -> T {
        self.dev
    }

    /// The device and the state in memory are in good order.
    pub open spec fn wf(&self) -> bool {
        &&& self.device().inv()
        &&& self@.sound()
    }

    /// Whether the device is known never to report a fault.
    pub open spec fn reliable(&self) -> bool {
        self.device().reliable()
    }

    /// The inodes of the volume.
    pub fn inodes(&self) -> (group: &InodeGroup)
        ensures
            group.nodes() == self@.nodes,
            group.tracker().bytes() == self@.inode_map,
    {
        &self.inodes
    }

    /// Gives the device back to the caller, with what the volume wrote to it.
    pub fn into_device(self) -> (dev: T)
        ensures
            dev == self.device(),
            dev.blocks() == self@.blocks,
            self.wf() ==> dev.inv(),
    {
        self.dev
    }

    /// Whether a payload of `len` bytes can be stored in the directory
    /// `dir`. Nothing is changed.
    pub fn room_for(&self, dir: u32, len: usize) -> (room: bool)
        ensures
            room == (self@.nodes.contains_key(dir) && self@.has_room(dir, len as nat)),
    {
        let needed: usize = 1 + len / BLOCK_SIZE;
        match self.inodes.get(dir) {
            Some(node) => needed <= DIRECT_POINTERS && plan_blocks(
                owned_blocks(node),
                self.data_map,
                needed,
            ).is_some(),
            None => false,
        }
    }

    /// Formats the device and mounts the new volume.
    ///
    /// Writes the superblock to block 0, an empty bitmap for the data
    /// region to block 1, the bitmap of the inodes, with only the root
    /// reserved, to block 2, and the first block of the inode table, with
    /// the root directory, to block 3; then has the device flush. Every
    /// other block keeps what it held.
    pub fn create(dev: T) -> (res: Result<Self, SFSError>)
        requires
            dev.inv(),
            dev.blocks().len() >= TOTAL_BLOCKS,
        ensures
            match res {
                Ok(fs) => {
                    &&& fs.wf()
                    &&& fs.reliable() == dev.reliable()
                    &&& fs@ == Volume::formatted(dev.blocks())
                    &&& fs@.consistent()
                    &&& fs@.durable()
                },
                Err(SFSError::InvalidBlock(BlockError::Io(_))) => !dev.reliable(),
                Err(_) => false,
            },
    {
        let mut device = dev;
        let ghost blocks = device.blocks();
        proof {
            device.lemma_blocks_well_formed();
        }
        // The superblock, padded with zeros to a whole block.
        let super_block = SuperBlock::default();
        let mut block_buffer = super_block.serialize();
        codec::push_zeros(&mut block_buffer, BLOCK_SIZE - SUPERBLOCK_SIZE);
        let written = device.write_block(SUPERBLOCK_INDEX, block_buffer.as_mut_slice());
        match written {
            Ok(()) => {},
            Err(e) => {
                return Err(SFSError::InvalidBlock(e));
            },
        }
        proof {
            device.lemma_blocks_well_formed();
            lemma_overwritten_whole(blocks[SUPERBLOCK_INDEX as int], block_buffer@);
        }
        let ghost blocks0 = device.blocks();

        // The allocation map of the data region.
        let data_map = Bitmap::new();
        let mut block_buffer = vstd::slice::slice_to_vec(data_map.serialize());
        let written = device.write_block(DATA_REGION_BMP, block_buffer.as_mut_slice());
        match written {
            Ok(()) => {},
            Err(e) => {
                return Err(SFSError::InvalidBlock(e));
            },
        }
        proof {
            device.lemma_blocks_well_formed();
            lemma_overwritten_whole(blocks0[DATA_REGION_BMP as int], block_buffer@);
        }
        let ghost blocks1 = device.blocks();

        // The inodes, with the root directory.
        let inodes = InodeGroup::new(Bitmap::new());
        let mut block_buffer = vstd::slice::slice_to_vec(inodes.allocations().serialize());
        let written = device.write_block(INODE_BMP, block_buffer.as_mut_slice());
        match written {
            Ok(()) => {},
            Err(e) => {
                return Err(SFSError::InvalidBlock(e));
            },
        }
        proof {
            device.lemma_blocks_well_formed();
            lemma_overwritten_whole(blocks1[INODE_BMP as int], block_buffer@);
        }
        let ghost blocks2 = device.blocks();
        let mut block_buffer = inodes.serialize_block(0);
        let written = device.write_block(INODE_START, block_buffer.as_mut_slice());
        match written {
            Ok(()) => {},
            Err(e) => {
                return Err(SFSError::InvalidBlock(e));
            },
        }
        proof {
            device.lemma_blocks_well_formed();
            lemma_overwritten_whole(blocks2[INODE_START as int], block_buffer@);
        }
        match device.sync_disk() {
            Ok(()) => {},
            Err(e) => {
                return Err(SFSError::InvalidBlock(e));
            },
        }
        proof {
            device.lemma_blocks_well_formed();
            inodes.lemma_wf();
            inodes.tracker().lemma_len();
            data_map.lemma_len();
        }
        let fs = SFS { dev: device, inodes, data_map, super_block };
        assert(fs@.blocks =~= Volume::formatted(blocks).blocks);
        proof {
            crate::theorems::lemma_formatted_consistent(blocks);
        }
        Ok(fs)
    }

    /// Mounts the volume that the device carries.
    ///
    /// Reads the superblock from block 0 and checks its magic, reads the
    /// two bitmaps from blocks 1 and 2, and loads every inode whose bit is
    /// set from the five blocks of the inode table. The device is not
    /// changed. A device without the magic is refused with `InvalidData`.
    pub fn open(dev: T) -> (res: Result<Self, SFSError>)
        requires
            dev.inv(),
            dev.blocks().len() >= TOTAL_BLOCKS,
        ensures
            match res {
                Ok(fs) => {
                    &&& Volume::has_magic(dev.blocks())
                    &&& fs.wf()
                    &&& fs.reliable() == dev.reliable()
                    &&& fs@ == Volume::mounted(dev.blocks())
                    &&& fs@.durable()
                },
                Err(SFSError::InvalidBlock(BlockError::InvalidData)) => !Volume::has_magic(
                    dev.blocks(),
                ),
                Err(SFSError::InvalidBlock(BlockError::Io(_))) => !dev.reliable(),
                Err(_) => false,
            },
    {
        let mut device = dev;
        let ghost blocks = device.blocks();
        proof {
            device.lemma_blocks_well_formed();
        }
        let mut block_buf: Vec<u8> = Vec::new();
        codec::push_zeros(&mut block_buf, BLOCK_SIZE);

        // The superblock, in the first block.
        match device.read_block(SUPERBLOCK_INDEX, block_buf.as_mut_slice()) {
            Ok(()) => {},
            Err(e) => {
                return Err(SFSError::InvalidBlock(e));
            },
        }
        assert(block_buf@ =~= blocks[SUPERBLOCK_INDEX as int]);
        if codec::read_u32(block_buf.as_slice(), 0) != SB_MAGIC {
            return Err(SFSError::InvalidBlock(BlockError::InvalidData));
        }
        let super_block = SuperBlock::parse(block_buf.as_slice(), SB_MAGIC);

        match device.read_block(DATA_REGION_BMP, block_buf.as_mut_slice()) {
            Ok(()) => {},
            Err(e) => {
                return Err(SFSError::InvalidBlock(e));
            },
        }
        assert(block_buf@ =~= blocks[DATA_REGION_BMP as int]);
        let data_map = Bitmap::parse(block_buf.as_slice());
        assert(data_map.bytes() =~= blocks[DATA_REGION_BMP as int]);

        match device.read_block(INODE_BMP, block_buf.as_mut_slice()) {
            Ok(()) => {},
            Err(e) => {
                return Err(SFSError::InvalidBlock(e));
            },
        }
        assert(block_buf@ =~= blocks[INODE_BMP as int]);
        let inode_allocs = Bitmap::parse(block_buf.as_slice());
        assert(inode_allocs.bytes() =~= blocks[INODE_BMP as int]);
        let mut inodes = InodeGroup::open(inode_allocs);

        let mut k: u32 = 0;
        while k < INODE_BLOCKS
            invariant
                k <= INODE_BLOCKS,
                device.inv(),
                device.blocks() == blocks,
                device.reliable() == dev.reliable(),
                blocks.len() >= TOTAL_BLOCKS,
                crate::io::block::well_formed(blocks),
                block_buf@.len() == BLOCK_SIZE,
                inodes.wf(),
                inodes.tracker() == inode_allocs,
                inode_allocs.bytes() == blocks[INODE_BMP as int],
                inodes.nodes() == table_nodes(blocks, k as nat),
            decreases INODE_BLOCKS - k,
        {
            match device.read_block(INODE_START + k as usize, block_buf.as_mut_slice()) {
                Ok(()) => {},
                Err(e) => {
                    return Err(SFSError::InvalidBlock(e));
                },
            }
            assert(block_buf@ =~= blocks[INODE_START + k]);
            inodes.load_block(k, block_buf.as_slice());
            k += 1;
        }
        proof {
            inodes.lemma_wf();
            assert forall|i: u32| #[trigger]
                inodes.nodes().contains_key(i) <==> i < crate::layout::INODE_COUNT
                    && inode_allocs@[i as int] by {
                crate::theorems::lemma_table_nodes(blocks, INODE_BLOCKS as nat, i);
            }
        }
        Ok(SFS { dev: device, inodes, data_map, super_block })
    }

    /// Reads the payload of the file `inum`: each block the inode points to
    /// in the data region, whole and in order.
    pub fn read_file(&mut self, inum: u32) -> (res: Result<Vec<u8>, SFSError>)
        requires
            old(self).wf(),
        ensures
            final(self).wf(),
            final(self)@ == old(self)@,
            final(self).reliable() == old(self).reliable(),
            match res {
                Ok(content) => {
                    &&& old(self)@.nodes.contains_key(inum)
                    &&& content@ == old(self)@.file(inum)
                },
                Err(SFSError::DoesNotExist) => !old(self)@.nodes.contains_key(inum),
                Err(SFSError::InvalidBlock(BlockError::Io(_))) => {
                    &&& old(self)@.nodes.contains_key(inum)
                    &&& !old(self).reliable()
                },
                Err(_) => false,
            },
    {
        let node: Inode = match self.inodes.get(inum) {
            Some(n) => *n,
            None => {
                return Err(SFSError::DoesNotExist);
            },
        };
        let allocated_blocks = owned_blocks(&node);
        let mut content: Vec<u8> = Vec::new();
        let mut i: usize = 0;
        assert(allocated_blocks@.take(0) =~= Seq::<u32>::empty());
        while i < allocated_blocks.len()
            invariant
                i <= allocated_blocks@.len(),
                self.wf(),
                self@ == old(self)@,
                self.reliable() == old(self).reliable(),
                old(self)@.nodes.contains_key(inum),
                forall|k: int|
                    0 <= k < allocated_blocks@.len() ==> DATA_START <= #[trigger] allocated_blocks@[k]
                        < TOTAL_BLOCKS,
                content@ == file_bytes(self@.blocks, allocated_blocks@.take(i as int)),
            decreases allocated_blocks@.len() - i,
        {
            let block: u32 = allocated_blocks[i];
            let mut buf: Vec<u8> = Vec::new();
            codec::push_zeros(&mut buf, BLOCK_SIZE);
            assert(allocated_blocks@.take(i + 1).drop_last() =~= allocated_blocks@.take(i as int));
            match self.dev.read_block(block as usize, buf.as_mut_slice()) {
                Ok(()) => {},
                Err(e) => {
                    return Err(SFSError::InvalidBlock(e));
                },
            }
            proof {
                self.dev.lemma_blocks_well_formed();
                assert(buf@ =~= self@.blocks[block as int]);
            }
            content.append(&mut buf);
            i += 1;
        }
        assert(allocated_blocks@.take(i as int) =~= allocated_blocks@);
        Ok(content)
    }

    /// Reads the entries of the directory `inum`.
    pub fn read_dir(&mut self, inum: u32) -> (res: Result<Directory, SFSError>)
        requires
            old(self).wf(),
        ensures
            final(self).wf(),
            final(self)@ == old(self)@,
            final(self).reliable() == old(self).reliable(),
            match res {
                Ok(dir) => {
                    &&& old(self)@.nodes.contains_key(inum)
                    &&& dir.wf()
                    &&& old(self)@.listing(inum) == Some(dir.list())
                },
                Err(SFSError::DoesNotExist) => !old(self)@.nodes.contains_key(inum),
                Err(SFSError::InvalidBlock(BlockError::InvalidData)) => {
                    &&& old(self)@.nodes.contains_key(inum)
                    &&& old(self)@.listing(inum) is None
                },
                Err(SFSError::InvalidBlock(BlockError::Io(_))) => {
                    &&& old(self)@.nodes.contains_key(inum)
                    &&& !old(self).reliable()
                },
                Err(_) => false,
            },
    {
        let content = match self.read_file(inum) {
            Ok(c) => c,
            Err(e) => {
                return Err(e);
            },
        };
        match Directory::parse(content.as_slice()) {
            Some(dir) => Ok(dir),
            None => Err(SFSError::InvalidBlock(BlockError::InvalidData)),
        }
    }

    /// Writes both bitmaps and the inode table from memory to the device
    /// and has the device flush.
    pub fn flush(&mut self) -> (res: Result<(), SFSError>)
        requires
            old(self).wf(),
        ensures
            final(self).wf(),
            final(self).reliable() == old(self).reliable(),
            match res {
                Ok(()) => final(self)@ == old(self)@.flushed(),
                Err(SFSError::InvalidBlock(BlockError::Io(_))) => !old(self).reliable(),
                Err(_) => false,
            },
    {
        let mut buf = vstd::slice::slice_to_vec(self.data_map.serialize());
        let written = self.dev.write_block(DATA_REGION_BMP, buf.as_mut_slice());
        proof {
            old(self).dev.lemma_blocks_well_formed();
            self.dev.lemma_blocks_well_formed();
            assert(self@.nodes == old(self)@.nodes);
            assert(self@.inode_map == old(self)@.inode_map);
        }
        match written {
            Ok(()) => {},
            Err(e) => {
                return Err(SFSError::InvalidBlock(e));
            },
        }
        proof {
            lemma_overwritten_whole(old(self)@.blocks[DATA_REGION_BMP as int], buf@);
        }
        assert(self@.blocks =~= old(self)@.blocks.update(DATA_REGION_BMP as int, self@.data_map));
        let ghost first = self@.blocks;
        let mut buf = vstd::slice::slice_to_vec(self.inodes.allocations().serialize());
        let written = self.dev.write_block(INODE_BMP, buf.as_mut_slice());
        proof {
            self.dev.lemma_blocks_well_formed();
            assert(self@.nodes == old(self)@.nodes);
            assert(self@.inode_map == old(self)@.inode_map);
        }
        match written {
            Ok(()) => {},
            Err(e) => {
                return Err(SFSError::InvalidBlock(e));
            },
        }
        let ghost base = old(self)@.blocks.update(DATA_REGION_BMP as int, self@.data_map).update(
            INODE_BMP as int,
            self@.inode_map,
        );
        proof {
            lemma_overwritten_whole(first[INODE_BMP as int], buf@);
        }
        assert(self@.blocks =~= base);
        let mut k: u32 = 0;
        while k < INODE_BLOCKS
            invariant
                k <= INODE_BLOCKS,
                self.wf(),
                self.reliable() == old(self).reliable(),
                self@.blocks == write_table(base, self@.nodes, k as nat),
                self@.data_map == old(self)@.data_map,
                self@.inode_map == old(self)@.inode_map,
                self@.nodes == old(self)@.nodes,
                self@.super_block == old(self)@.super_block,
                old(self)@.blocks.len() >= TOTAL_BLOCKS,
                base == old(self)@.blocks.update(DATA_REGION_BMP as int, self@.data_map).update(
                    INODE_BMP as int,
                    self@.inode_map,
                ),
            decreases INODE_BLOCKS - k,
        {
            let mut buf = self.inodes.serialize_block(k);
            let ghost before = self@.blocks;
            let written = self.dev.write_block(INODE_START + k as usize, buf.as_mut_slice());
            proof {
                self.dev.lemma_blocks_well_formed();
            }
            match written {
                Ok(()) => {},
                Err(e) => {
                    return Err(SFSError::InvalidBlock(e));
                },
            }
            proof {
                lemma_overwritten_whole(before[INODE_START + k], buf@);
            }
            assert(self@.blocks =~= before.update(INODE_START + k, buf@));
            k += 1;
        }
        match self.dev.sync_disk() {
            Ok(()) => {},
            Err(e) => {
                proof {
                    self.dev.lemma_blocks_well_formed();
                }
                return Err(SFSError::InvalidBlock(e));
            },
        }
        proof {
            self.dev.lemma_blocks_well_formed();
        }
        assert(self@ == old(self)@.flushed());
        Ok(())
    }

    /// Creates a regular file under `name` in the directory `parent`, whose
    /// entries are `entries`, and returns its inumber, the lowest free one.
    ///
    /// The new entry is stored in the directory, and both bitmaps and the
    /// inode table are written to the device before the call returns.
    /// Nothing is changed where no inumber is free or the directory has no
    /// room for the entry.
    pub fn create_file(&mut self, parent: u32, entries: Directory, name: Vec<u8>) -> (res: Result<
        u32,
        SFSError,
    >)
        requires
            old(self).wf(),
            entries.wf(),
            storable(name@),
            old(self)@.nodes.contains_key(parent),
            old(self)@.listing(parent) == Some(entries.list()),
        ensures
            final(self).wf(),
            final(self).reliable() == old(self).reliable(),
            match res {
                Ok(inum) => {
                    &&& old(self)@.creation(parent, name@) == Some((final(self)@, inum))
                    &&& old(self)@.consistent() ==> final(self)@.consistent()
                    &&& old(self)@.consistent() && old(self)@.durable() ==> final(self)@.durable()
                },
                Err(SFSError::InvalidBlock(BlockError::StorageFull)) => {
                    &&& old(self)@.creation(parent, name@) is None
                    &&& final(self)@ == old(self)@
                },
                Err(SFSError::InvalidBlock(BlockError::Io(_))) => !old(self).reliable(),
                Err(_) => false,
            },
    {
        let inum: u32 = match self.inodes.next_free() {
            Some(i) => i,
            None => {
                return Err(SFSError::InvalidBlock(BlockError::StorageFull));
            },
        };
        let mut content = entries;
        content.insert(name, inum);
        proof {
            self.inodes.lemma_wf();
            lemma_first_free(self@.inode_map_bits(), 0, crate::layout::INODE_COUNT as int);
        }
        if !self.room_for(parent, content.serialize().len()) {
            return Err(SFSError::InvalidBlock(BlockError::StorageFull));
        }
        let created_file = self.inodes.new_file();
        proof {
            self.inodes.lemma_wf();
            self.dev.lemma_blocks_well_formed();
            lemma_with_bit(old(self)@.inode_map, inum as int, true);
        }
        match self.write_dir(parent, content) {
            Ok(()) => {},
            Err(e) => {
                return Err(e);
            },
        }
        match self.flush() {
            Ok(()) => {},
            Err(e) => {
                return Err(e);
            },
        }
        proof {
            if old(self)@.consistent() {
                crate::theorems::lemma_creation(old(self)@, parent, name@);
            }
        }
        Ok(created_file)
    }

    /// Opens the file at `path` and returns its inumber.
    ///
    /// The path has to start with `/`. Its components are the names between
    /// `/`; empty ones and `.` are passed over, so `/` alone is the root,
    /// inumber 0. Each component is looked up in the directory that the
    /// walk has reached. Where the last component is missing and `mode` is
    /// `CREATE`, a regular file is created under that name; a missing
    /// component fails with `DoesNotExist` in every other case.
    pub fn open_file(&mut self, path: &str, mode: OpenMode) -> (res: Result<u32, SFSError>)
        requires
            old(self).wf(),
        ensures
            final(self).wf(),
            final(self).reliable() == old(self).reliable(),
            is_fault(res) ==> !old(self).reliable(),
            !is_fault(res) && old(self)@.consistent() ==> final(self)@.consistent(),
            !is_fault(res) && old(self)@.consistent() && old(self)@.durable() ==> final(self)@.durable(),
            match parse_path_spec(path_bytes(path)) {
                None => {
                    &&& res matches Err(SFSError::InvalidArgument(text))
                    &&& text@ == path_complaint(path_bytes(path))
                    &&& final(self)@ == old(self)@
                },
                Some(names) => {
                    &&& names.len() == 0 ==> res == Ok::<u32, SFSError>(0)
                    &&& !is_fault(res) ==> {
                        &&& answers(res, old(self)@.open(names, mode is CREATE).0)
                        &&& final(self)@ == old(self)@.open(names, mode is CREATE).1
                    }
                },
            },
    {
        let bytes = path.as_bytes();
        let names = match parse_path(bytes) {
            Some(names) => names,
            None => {
                if bytes.len() > 0 && bytes[0] == crate::dir::SLASH {
                    return Err(
                        SFSError::InvalidArgument(
                            "path holds a name with ':', a line break or a zero byte".to_owned(),
                        ),
                    );
                }
                return Err(SFSError::InvalidArgument("path must start with \"/\"".to_owned()));
            },
        };
        let ghost all = views(names@);
        let mut inum: u32 = 0;
        let mut k: usize = 0;
        assert(all.skip(0) =~= all);
        while k < names.len()
            invariant
                k <= names@.len(),
                all == views(names@),
                parse_path_spec(path_bytes(path)) == Some(all),
                self.wf(),
                self@ == old(self)@,
                self.reliable() == old(self).reliable(),
                old(self)@.walk(0, all) == old(self)@.walk(inum, all.skip(k as int)),
            decreases names@.len() - k,
        {
            let ghost rest = all.skip(k as int);
            assert(rest[0] == names@[k as int]@);
            assert(rest.skip(1) =~= all.skip(k + 1));
            let content = match self.read_dir(inum) {
                Ok(content) => content,
                Err(e) => {
                    return Err(e);
                },
            };
            match content.get(names[k].as_slice()) {
                Some(next) => {
                    inum = next;
                },
                None => {
                    match mode {
                        OpenMode::CREATE => {
                            if k + 1 == names.len() {
                                let name = crate::text::copy_range(
                                    names[k].as_slice(),
                                    0,
                                    names[k].len(),
                                );
                                assert(name@ =~= names@[k as int]@);
                                assert(crate::dir::permitted(all[k as int]));
                                return self.create_file(inum, content, name);
                            }
                            return Err(SFSError::DoesNotExist);
                        },
                        _ => {
                            return Err(SFSError::DoesNotExist);
                        },
                    }
                },
            }
            k += 1;
        }
        assert(all.skip(k as int) =~= Seq::<Seq<u8>>::empty());
        Ok(inum)
    }

    /// Stores `entries` as the payload of the directory `dir`: the lines of
    /// the entries, closed by `\0`.
    ///
    /// The payload gets `1 + len / BLOCK_SIZE` blocks. Where the directory
    /// owns fewer, it is given free blocks of the data region, each marked
    /// reserved at once, and its inode gets the new pointers. The inode
    /// gets the length of the payload as its size. The payload is then
    /// written block by block; the last block keeps what it held beyond the
    /// payload. Nothing is changed where the directory is not there, or where
    /// no room is left for the payload.
    pub fn write_dir(&mut self, dir: u32, entries: Directory) -> (res: Result<(), SFSError>)
        requires
            old(self).wf(),
            entries.wf(),
        ensures
            final(self).wf(),
            final(self).reliable() == old(self).reliable(),
            match res {
                Ok(()) => {
                    &&& old(self)@.nodes.contains_key(dir)
                    &&& old(self)@.stored(dir, crate::dir::payload_of(entries.list())) == Some(
                        final(self)@,
                    )
                },
                Err(SFSError::DoesNotExist) => {
                    &&& !old(self)@.nodes.contains_key(dir)
                    &&& final(self)@ == old(self)@
                },
                Err(SFSError::InvalidBlock(BlockError::StorageFull)) => {
                    &&& old(self)@.nodes.contains_key(dir)
                    &&& old(self)@.stored(dir, crate::dir::payload_of(entries.list())) is None
                    &&& final(self)@ == old(self)@
                },
                Err(SFSError::InvalidBlock(BlockError::Io(_))) => {
                    &&& old(self)@.nodes.contains_key(dir)
                    &&& old(self)@.stored(dir, crate::dir::payload_of(entries.list())) is Some
                    &&& !old(self).reliable()
                },
                Err(_) => false,
            },
    {
        let node: Inode = match self.inodes.get(dir) {
            Some(n) => *n,
            None => {
                return Err(SFSError::DoesNotExist);
            },
        };
        let contents = entries.serialize();
        let needed: usize = 1 + contents.len() / BLOCK_SIZE;
        if needed > DIRECT_POINTERS {
            return Err(SFSError::InvalidBlock(BlockError::StorageFull));
        }
        let allocated_blocks = owned_blocks(&node);
        let have: usize = allocated_blocks.len();
        let (all_blocks, marked) = match plan_blocks(allocated_blocks, self.data_map, needed) {
            Some(plan) => plan,
            None => {
                return Err(SFSError::InvalidBlock(BlockError::StorageFull));
            },
        };
        proof {
            crate::volume::lemma_grow(node.owned(), old(self)@.data_map, needed as nat);
            self.dev.lemma_blocks_well_formed();
            self.inodes.lemma_wf();
        }
        let mut updated = node;
        if have < needed {
            self.data_map = marked;
            updated.blocks = pointer_block(&all_blocks);
            assert(updated == node.with_blocks(pointers(all_blocks@)));
        }
        updated.size = contents.len() as u32;
        self.inodes.replace(dir, updated);
        proof {
            self.inodes.lemma_wf();
        }
        let ghost target = old(self)@.stored(dir, crate::dir::payload_of(entries.list())).unwrap();
        let mut k: usize = 0;
        while k < needed
            invariant
                k <= needed,
                needed == needed_blocks(contents@.len()),
                needed <= all_blocks@.len(),
                forall|j: int|
                    0 <= j < all_blocks@.len() ==> DATA_START <= #[trigger] all_blocks@[j] < TOTAL_BLOCKS,
                self.wf(),
                self.reliable() == old(self).reliable(),
                contents@ == crate::dir::payload_of(entries.list()),
                self@.blocks == write_chunks(old(self)@.blocks, all_blocks@, contents@, k as nat),
                self@.data_map == target.data_map,
                self@.nodes == target.nodes,
                self@.inode_map == target.inode_map,
                self@.super_block == target.super_block,
                target.blocks == write_chunks(
                    old(self)@.blocks,
                    all_blocks@,
                    contents@,
                    needed as nat,
                ),
                old(self)@.nodes.contains_key(dir),
                old(self)@.stored(dir, contents@) == Some(target),
            decreases needed - k,
        {
            let start: usize = k * BLOCK_SIZE;
            let end: usize = if start + BLOCK_SIZE < contents.len() {
                start + BLOCK_SIZE
            } else {
                contents.len()
            };
            let mut piece = crate::text::copy_range(contents.as_slice(), start, end);
            assert(piece@ == chunk(contents@, k as int));
            let block: u32 = all_blocks[k];
            let written = self.dev.write_block(block as usize, piece.as_mut_slice());
            proof {
                self.dev.lemma_blocks_well_formed();
            }
            match written {
                Ok(()) => {},
                Err(e) => {
                    return Err(SFSError::InvalidBlock(e));
                },
            }
            k += 1;
        }
        assert(self@ == target);
        Ok(())
    }
}

} // verus!
