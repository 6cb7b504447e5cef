//! The mathematical model of a mounted volume: what the device and the
//! in-memory state hold, and what each operation of the file system makes of
//! them.

use crate::allocation::{bits_of, first_free, lemma_first_free, lemma_with_bit, with_bit};
use crate::codec;
use crate::dir::{mapping, parse_listing, payload_of};
use crate::io::block::{overwritten, well_formed};
use crate::layout::{
    BLOCK_SIZE, DATA_BLOCKS, DATA_REGION_BMP, DATA_START, DIRECT_POINTERS, INODE_BLOCKS, INODE_BMP,
    INODE_COUNT, INODE_START, SUPERBLOCK_INDEX, SUPERBLOCK_SIZE, TOTAL_BLOCKS,
};
use crate::node::{is_data_pointer, loaded, table_block, Inode, DEFAULT_MODE, ROOT_DEFAULT_MODE};
use crate::sb::SuperBlock;
use vstd::prelude::*;

verus! {

/// The blocks `owned`, read one after another.
pub open spec fn file_bytes(blocks: Seq<Seq<u8>>, owned: Seq<u32>) -> Seq<u8>
    decreases owned.len(),
{
    if owned.len() == 0 {
        Seq::empty()
    } else {
        file_bytes(blocks, owned.drop_last()) + blocks[owned.last() as int]
    }
}

/// The number of blocks that a payload of `len` bytes is given.
pub open spec fn needed_blocks(len: nat) -> nat {
    1 + len / (BLOCK_SIZE as nat)
}

/// The blocks of a file that has `owned` and needs `needed`: while it has
/// too few, the lowest free block of the data region is added and marked
/// reserved in `map`. `None` where the data region runs out.
pub open spec fn grow(owned: Seq<u32>, map: Seq<u8>, needed: nat) -> Option<(Seq<u32>, Seq<u8>)>
    decreases needed - owned.len(),
{
    if owned.len() >= needed {
        Some((owned, map))
    } else {
        match first_free(bits_of(map), 0, DATA_BLOCKS as int) {
            Some(j) => grow(owned.push((DATA_START + j) as u32), with_bit(map, j, true), needed),
            None => None,
        }
    }
}

/// Growing keeps the blocks that were there, adds only blocks of the data
/// region, gives as many blocks as were needed where more were needed, and
/// keeps the bitmap one block long.
pub proof fn lemma_grow(owned: Seq<u32>, map: Seq<u8>, needed: nat)
    requires
        map.len() == BLOCK_SIZE,
        forall|j: int| 0 <= j < owned.len() ==> is_data_pointer(#[trigger] owned[j]),
    ensures
        match grow(owned, map, needed) {
            Some((all, marked)) => {
                &&& marked.len() == BLOCK_SIZE
                &&& all.len() == if owned.len() < needed {
                    needed
                } else {
                    owned.len()
                }
                &&& forall|j: int| 0 <= j < all.len() ==> is_data_pointer(#[trigger] all[j])
                &&& owned.len() >= needed ==> all == owned && marked == map
            },
            None => true,
        },
    decreases needed - owned.len(),
{
    if owned.len() < needed {
        let bits = bits_of(map);
        lemma_first_free(bits, 0, DATA_BLOCKS as int);
        match first_free(bits, 0, DATA_BLOCKS as int) {
            Some(j) => {
                lemma_with_bit(map, j, true);
                lemma_grow(
                    owned.push((DATA_START + j) as u32),
                    with_bit(map, j, true),
                    needed,
                );
            },
            None => {},
        }
    }
}

/// The 15 pointers of an inode that owns `owned`: the blocks, then zeros.
pub open spec fn pointers(owned: Seq<u32>) -> Seq<u32> {
    Seq::new(
        DIRECT_POINTERS as nat,
        |k: int|
            if k < owned.len() {
                owned[k]
            } else {
                0u32
            },
    )
}

/// Where chunk `k` of a payload of `len` bytes ends.
pub open spec fn chunk_end(len: int, k: int) -> int {
    if (k + 1) * BLOCK_SIZE < len {
        (k + 1) * BLOCK_SIZE
    } else {
        len
    }
}

/// Chunk `k` of `payload`: its bytes from `k * BLOCK_SIZE` on, one block of
/// them at most.
pub open spec fn chunk(payload: Seq<u8>, k: int) -> Seq<u8> {
    payload.subrange(k * BLOCK_SIZE, chunk_end(payload.len() as int, k))
}

/// The blocks after the first `count` chunks of `payload` were written, chunk
/// `k` to the start of block `owned[k]`.
pub open spec fn write_chunks(
    blocks: Seq<Seq<u8>>,
    owned: Seq<u32>,
    payload: Seq<u8>,
    count: nat,
) -> Seq<Seq<u8>>
    decreases count,
{
    if count == 0 {
        blocks
    } else {
        let before = write_chunks(blocks, owned, payload, (count - 1) as nat);
        let b = owned[count - 1] as int;
        before.update(b, overwritten(before[b], chunk(payload, count - 1)))
    }
}

/// The inodes that the first `count` blocks of the inode table hold.
pub open spec fn table_nodes(blocks: Seq<Seq<u8>>, count: nat) -> Map<u32, Inode>
    decreases count,
{
    if count == 0 {
        Map::empty()
    } else {
        loaded(
            table_nodes(blocks, (count - 1) as nat),
            bits_of(blocks[INODE_BMP as int]),
            (count - 1) as u32,
            blocks[INODE_START + count - 1],
            16,
        )
    }
}

/// The blocks with the first `count` blocks of the inode table written from
/// `nodes`.
pub open spec fn write_table(blocks: Seq<Seq<u8>>, nodes: Map<u32, Inode>, count: nat) -> Seq<
    Seq<u8>,
>
    decreases count,
{
    if count == 0 {
        blocks
    } else {
        write_table(blocks, nodes, (count - 1) as nat).update(
            INODE_START + count - 1,
            table_block(nodes, (count - 1) as u32),
        )
    }
}

/// Every block pointer of every inode is `0` or addresses the data region.
pub open spec fn pointers_in_range(nodes: Map<u32, Inode>) -> bool {
    forall|i: u32, s: int|
        nodes.contains_key(i) && 0 <= s < DIRECT_POINTERS ==> {
            let p = #[trigger] nodes[i].blocks@[s];
            p == 0 || is_data_pointer(p)
        }
}

/// No block of the data region is pointed to twice, by two inodes or by
/// one.
pub open spec fn blocks_unshared(nodes: Map<u32, Inode>) -> bool {
    forall|i: u32, a: int, j: u32, b: int|
        nodes.contains_key(i) && nodes.contains_key(j) && 0 <= a < nodes[i].owned().len() && 0 <= b
            < nodes[j].owned().len() && (i != j || a != b) ==> #[trigger] nodes[i].owned()[a]
            != #[trigger] nodes[j].owned()[b]
}

/// Every block that an inode points to is marked reserved in `bits`, where
/// bit `j` stands for block `DATA_START + j`.
pub open spec fn blocks_marked(nodes: Map<u32, Inode>, bits: Seq<bool>) -> bool {
    forall|i: u32, a: int|
        nodes.contains_key(i) && 0 <= a < nodes[i].owned().len() ==> bits[(
        #[trigger] nodes[i].owned()[a]) - DATA_START]
}

/// Every block of the data region that is marked reserved in `bits` is
/// pointed to by an inode.
pub open spec fn marks_cited(nodes: Map<u32, Inode>, bits: Seq<bool>) -> bool {
    forall|j: int|
        0 <= j < DATA_BLOCKS && #[trigger] bits[j] ==> exists|i: u32, a: int|
            nodes.contains_key(i) && 0 <= a < nodes[i].owned().len() && #[trigger] nodes[i].owned()[a]
                == DATA_START + j
}

/// Where a walk along a path ends.
pub enum Lookup {
    /// Every component was found; the last one is this inode.
    Found(u32),
    /// Every component but the last was found, and the directory with this
    /// inumber has no entry for the last one, this name.
    Vacant(u32, Seq<u8>),
    /// A component before the last one is not there, or a component leads
    /// to an inumber that has no inode.
    Missing,
    /// The payload of a directory on the way is no list of entries.
    Damaged,
}

/// How opening a file ends, unless the device reports a fault.
pub enum Opened {
    /// The file is there, or was created; this is its inumber.
    File(u32),
    /// The file is not there.
    Absent,
    /// A directory on the way could not be read as one.
    Damaged,
    /// The file was to be created and the volume has no room for it.
    Full,
}

/// A mounted volume.
pub struct Volume {
    /// The blocks of the device.
    pub blocks: Seq<Seq<u8>>,
    /// The superblock in memory.
    pub super_block: SuperBlock,
    /// The allocation bitmap of the data region in memory, as the bytes of
    /// its block. Bit `j` stands for block `DATA_START + j`.
    pub data_map: Seq<u8>,
    /// The allocation bitmap of the inodes in memory.
    pub inode_map: Seq<u8>,
    /// The inodes in memory.
    pub nodes: Map<u32, Inode>,
}

impl Volume {
    /// What holds of every mounted volume: the device has whole blocks, 64
    /// at least, both bitmaps are one block long, and the inodes in memory
    /// are those of the 80 inumbers that are marked reserved.
    pub open spec fn sound(self) -> bool {
        &&& self.blocks.len() >= TOTAL_BLOCKS
        &&& well_formed(self.blocks)
        &&& self.data_map.len() == BLOCK_SIZE
        &&& self.inode_map.len() == BLOCK_SIZE
        &&& forall|i: u32| #[trigger]
            self.nodes.contains_key(i) <==> i < INODE_COUNT && self.inode_map_bits()[i as int]
    }

    /// The bits of the inode bitmap.
    pub open spec fn inode_map_bits(self) -> Seq<bool> {
        bits_of(self.inode_map)
    }

    /// The bits of the bitmap of the data region.
    pub open spec fn data_map_bits(self) -> Seq<bool> {
        bits_of(self.data_map)
    }

    /// The blocks of the data region that the inode `inum` points to.
    pub open spec fn owned(self, inum: u32) -> Seq<u32> {
        self.nodes[inum].owned()
    }

    /// The volume is consistent: the root is reserved, block pointers are
    /// in range, no data block is shared, every block pointed to is marked
    /// reserved, and every block marked reserved is pointed to. That every
    /// inumber marked reserved has its inode is part of `sound`.
    pub open spec fn consistent(self) -> bool {
        &&& self.inode_map_bits()[0]
        &&& pointers_in_range(self.nodes)
        &&& blocks_unshared(self.nodes)
        &&& blocks_marked(self.nodes, self.data_map_bits())
        &&& marks_cited(self.nodes, self.data_map_bits())
    }

    /// Whether mounting the device gives the volume as it is in memory.
    pub open spec fn durable(self) -> bool {
        Volume::mounted(self.blocks) == self
    }

    /// The payload of the file `inum`: all of each block it owns. The size
    /// field is not consulted.
    pub open spec fn file(self, inum: u32) -> Seq<u8> {
        file_bytes(self.blocks, self.nodes[inum].owned())
    }

    /// The entries of the directory `inum`, if its payload is a list of
    /// entries.
    pub open spec fn listing(self, inum: u32) -> Option<Seq<(Seq<u8>, u32)>> {
        parse_listing(self.file(inum))
    }

    /// Where the walk from the directory `cur` along `names` ends.
    pub open spec fn walk(self, cur: u32, names: Seq<Seq<u8>>) -> Lookup
        decreases names.len(),
    {
        if names.len() == 0 {
            Lookup::Found(cur)
        } else if !self.nodes.contains_key(cur) {
            Lookup::Missing
        } else {
            match self.listing(cur) {
                None => Lookup::Damaged,
                Some(list) => {
                    if mapping(list).contains_key(names[0]) {
                        self.walk(mapping(list)[names[0]], names.skip(1))
                    } else if names.len() == 1 {
                        Lookup::Vacant(cur, names[0])
                    } else {
                        Lookup::Missing
                    }
                },
            }
        }
    }

    /// How opening the file at the end of `names` ends, and what the volume
    /// is after it. The walk starts at the root, inumber 0. A file that is
    /// not there is created where `create` holds and only its last name is
    /// missing; nothing else changes the volume.
    pub open spec fn open(self, names: Seq<Seq<u8>>, create: bool) -> (Opened, Volume) {
        match self.walk(0, names) {
            Lookup::Found(inum) => (Opened::File(inum), self),
            Lookup::Missing => (Opened::Absent, self),
            Lookup::Damaged => (Opened::Damaged, self),
            Lookup::Vacant(parent, name) => {
                if create {
                    match self.creation(parent, name) {
                        Some((after, inum)) => (Opened::File(inum), after),
                        None => (Opened::Full, self),
                    }
                } else {
                    (Opened::Absent, self)
                }
            },
        }
    }

    /// Whether a payload of `len` bytes can be stored in the file `dir`: it
    /// needs no more blocks than an inode can point to, and the blocks that
    /// the file lacks are free.
    pub open spec fn has_room(self, dir: u32, len: nat) -> bool {
        &&& needed_blocks(len) <= DIRECT_POINTERS
        &&& grow(self.nodes[dir].owned(), self.data_map, needed_blocks(len)) is Some
    }

    /// The volume after `payload` was stored as the payload of the file
    /// `dir`. The file gets `1 + len / BLOCK_SIZE` blocks; where it owns
    /// fewer, free blocks are added and its inode gets the new pointers.
    /// The inode gets the length of the payload as its size. `None` where
    /// the payload needs more blocks than an inode can point to, or more
    /// than are free.
    pub open spec fn stored(self, dir: u32, payload: Seq<u8>) -> Option<Volume> {
        let node = self.nodes[dir];
        let needed = needed_blocks(payload.len());
        if needed > DIRECT_POINTERS {
            None
        } else {
            match grow(node.owned(), self.data_map, needed) {
                None => None,
                Some((owned, map)) => {
                    let grown = if node.owned().len() < needed {
                        node.with_blocks(pointers(owned))
                    } else {
                        node
                    };
                    Some(
                        Volume {
                            blocks: write_chunks(self.blocks, owned, payload, needed),
                            data_map: map,
                            nodes: self.nodes.insert(dir, grown.with_size(payload.len() as u32)),
                            ..self
                        },
                    )
                },
            }
        }
    }

    /// The volume after both bitmaps and the inode table were written to the
    /// device.
    pub open spec fn flushed(self) -> Volume {
        Volume {
            blocks: write_table(
                self.blocks.update(DATA_REGION_BMP as int, self.data_map).update(
                    INODE_BMP as int,
                    self.inode_map,
                ),
                self.nodes,
                INODE_BLOCKS as nat,
            ),
            ..self
        }
    }

    /// The volume after a regular file was created under `name` in the
    /// directory `parent`, and the inumber of the file: the lowest free one.
    /// `None` where no inumber is free or the directory cannot be stored.
    pub open spec fn creation(self, parent: u32, name: Seq<u8>) -> Option<(Volume, u32)> {
        match (first_free(bits_of(self.inode_map), 0, INODE_COUNT as int), self.listing(parent)) {
            (Some(i), Some(list)) => {
                let inum = i as u32;
                let with_file = Volume {
                    nodes: self.nodes.insert(inum, Inode::blank(DEFAULT_MODE)),
                    inode_map: with_bit(self.inode_map, i, true),
                    ..self
                };
                match with_file.stored(parent, payload_of(list.push((name, inum)))) {
                    Some(v) => Some((v.flushed(), inum)),
                    None => None,
                }
            },
            _ => None,
        }
    }

    /// The volume that `create` makes of a device with the given blocks: the
    /// superblock in block 0, an empty bitmap in block 1, a bitmap with only
    /// inumber 0 reserved in block 2, and the root directory in the first
    /// block of the inode table.
    pub open spec fn formatted(blocks: Seq<Seq<u8>>) -> Volume {
        let data_map = codec::zeros(BLOCK_SIZE as nat);
        let inode_map = with_bit(codec::zeros(BLOCK_SIZE as nat), 0, true);
        let nodes = Map::<u32, Inode>::empty().insert(0, Inode::blank(ROOT_DEFAULT_MODE));
        Volume {
            blocks: blocks.update(
                SUPERBLOCK_INDEX as int,
                SuperBlock::formatted().encode() + codec::zeros((BLOCK_SIZE - SUPERBLOCK_SIZE) as nat),
            ).update(DATA_REGION_BMP as int, data_map).update(INODE_BMP as int, inode_map).update(
                INODE_START as int,
                table_block(nodes, 0),
            ),
            super_block: SuperBlock::formatted(),
            data_map,
            inode_map,
            nodes,
        }
    }

    /// The volume that `open` reads from a device with the given blocks.
    pub open spec fn mounted(blocks: Seq<Seq<u8>>) -> Volume {
        Volume {
            blocks,
            super_block: SuperBlock::decode(blocks[SUPERBLOCK_INDEX as int]),
            data_map: blocks[DATA_REGION_BMP as int],
            inode_map: blocks[INODE_BMP as int],
            nodes: table_nodes(blocks, INODE_BLOCKS as nat),
        }
    }

    /// Whether the device carries the magic of a formatted volume.
    pub open spec fn has_magic(blocks: Seq<Seq<u8>>) -> bool {
        codec::u32_at(blocks[SUPERBLOCK_INDEX as int], 0) == crate::layout::SB_MAGIC
    }
}

} // verus!
