//! Inodes and the inode group: the in-memory copy of the inode table with
//! the bitmap that says which inodes are taken.

use crate::allocation::{first_free, lemma_first_free, Bitmap, State};
use crate::codec;
use crate::layout::{
    BITMAP_BITS, BLOCK_SIZE, DATA_START, INODE_COUNT, INODE_START, NODES_PER_BLOCK, NODE_SIZE,
    TOTAL_BLOCKS,
};
use std::collections::BTreeMap;
use vstd::prelude::*;

verus! {

/// The mode of a directory.
pub const ROOT_DEFAULT_MODE: u16 = 0x4000;

/// The mode of a regular file.
pub const DEFAULT_MODE: u16 = 0x2000;

/// One file-system object. On disk it is 256 bytes, packed, little-endian:
/// four `u16`, four `u32`, 43 reserved words, 15 block pointers.
#[derive(Debug, Clone, Copy)]
pub struct Inode {
    /// The file mode: `0x4000` for a directory, `0x2000` for a regular file.
    pub mode: u16,
    /// The id of the owning user.
    pub uid: u16,
    /// The id of the owning group.
    pub gid: u16,
    /// The number of links to this file.
    pub links_count: u16,
    /// The size of the file in bytes.
    pub size: u32,
    /// When the file was created, in milliseconds since the epoch.
    pub create_time: u32,
    /// When the file was last updated.
    pub update_time: u32,
    /// When the file was last accessed.
    pub access_time: u32,
    /// Reserved for more attributes.
    pub padding: [u32; 43],
    /// Direct pointers to the blocks of the file. `0` marks an unused slot;
    /// a pointer is valid only where it addresses the data region.
    pub blocks: [u32; 15],
}

/// Whether `p` addresses a block of the data region.
pub open spec fn is_data_pointer(p: u32) -> bool {
    DATA_START <= p && p < TOTAL_BLOCKS
}

/// The pointers among `ps` that address the data region, in their order.
pub open spec fn data_pointers(ps: Seq<u32>) -> Seq<u32>
    decreases ps.len(),
{
    if ps.len() == 0 {
        Seq::empty()
    } else if is_data_pointer(ps.last()) {
        data_pointers(ps.drop_last()).push(ps.last())
    } else {
        data_pointers(ps.drop_last())
    }
}

/// No more data pointers than pointers, and each addresses the data region.
pub proof fn lemma_data_pointers(ps: Seq<u32>)
    ensures
        data_pointers(ps).len() <= ps.len(),
        forall|k: int|
            0 <= k < data_pointers(ps).len() ==> is_data_pointer(#[trigger] data_pointers(ps)[k]),
        forall|k: int|
            0 <= k < data_pointers(ps).len() ==> ps.contains(#[trigger] data_pointers(ps)[k]),
    decreases ps.len(),
{
    if ps.len() > 0 {
        lemma_data_pointers(ps.drop_last());
        let d = data_pointers(ps);
        assert forall|k: int| 0 <= k < d.len() implies ps.contains(#[trigger] d[k]) by {
            if k < data_pointers(ps.drop_last()).len() {
                let j = choose|j: int|
                    0 <= j < ps.drop_last().len() && ps.drop_last()[j] == data_pointers(
                        ps.drop_last(),
                    )[k];
                assert(ps[j] == d[k]);
            } else {
                assert(ps[ps.len() - 1] == d[k]);
            }
        }
    }
}

/// The array that holds the first `k` of `ws` and zero after them.
pub open spec fn words_array<const N: usize>(ws: Seq<u32>, k: nat) -> [u32; N]
    decreases k,
{
    if k == 0 {
        vstd::array::spec_array_fill_for_copy_type::<u32, N>(0u32)
    } else {
        vstd::array::spec_array_update(words_array::<N>(ws, (k - 1) as nat), k - 1, ws[k - 1])
    }
}

/// `words_array` holds what it was given.
pub proof fn lemma_words_array<const N: usize>(ws: Seq<u32>, k: nat)
    requires
        k <= N,
        k <= ws.len(),
    ensures
        forall|j: int| 0 <= j < k ==> words_array::<N>(ws, k)@[j] == ws[j],
        forall|j: int| k <= j < N ==> words_array::<N>(ws, k)@[j] == 0,
    decreases k,
{
    if k > 0 {
        lemma_words_array::<N>(ws, (k - 1) as nat);
        let prev = words_array::<N>(ws, (k - 1) as nat);
        let cur = vstd::array::spec_array_update(prev, k - 1, ws[k - 1]);
        assert(words_array::<N>(ws, k) == cur);
        assert(cur@ == prev@.update(k - 1, ws[k - 1]));
    } else {
        let z = vstd::array::spec_array_fill_for_copy_type::<u32, N>(0u32);
        assert(words_array::<N>(ws, k) == z);
        assert forall|j: int| 0 <= j < N implies z@[j] == 0 by {}
    }
}

/// The `count` words that lie little-endian in `bytes` from `base` on.
pub open spec fn words_at(bytes: Seq<u8>, base: int, count: nat) -> Seq<u32> {
    Seq::new(count, |k: int| codec::u32_at(bytes, base + 4 * k))
}

impl Inode {
    /// The record with the given mode that is zero everywhere else.
    pub open spec fn blank(mode: u16) -> Inode {
        Inode {
            mode,
            uid: 0,
            gid: 0,
            links_count: 0,
            size: 0,
            create_time: 0,
            update_time: 0,
            access_time: 0,
            padding: vstd::array::spec_array_fill_for_copy_type::<u32, 43>(0u32),
            blocks: vstd::array::spec_array_fill_for_copy_type::<u32, 15>(0u32),
        }
    }

    /// The record with the 15 block pointers `ptrs` in place of its own.
    pub open spec fn with_blocks(self, ptrs: Seq<u32>) -> Inode {
        Inode { blocks: words_array::<15>(ptrs, 15), ..self }
    }

    /// The record with the size `size` in place of its own.
    pub open spec fn with_size(self, size: u32) -> Inode {
        Inode { size, ..self }
    }

    /// The record that the first 256 bytes of `bytes` hold.
    #[verifier::opaque]
    pub open spec fn decode(bytes: Seq<u8>) -> Inode {
        Inode {
            mode: codec::u16_at(bytes, 0),
            uid: codec::u16_at(bytes, 2),
            gid: codec::u16_at(bytes, 4),
            links_count: codec::u16_at(bytes, 6),
            size: codec::u32_at(bytes, 8),
            create_time: codec::u32_at(bytes, 12),
            update_time: codec::u32_at(bytes, 16),
            access_time: codec::u32_at(bytes, 20),
            padding: words_array::<43>(words_at(bytes, 24, 43), 43),
            blocks: words_array::<15>(words_at(bytes, 196, 15), 15),
        }
    }

    /// The on-disk image of the record.
    pub open spec fn encode(self) -> Seq<u8> {
        codec::u16_le(self.mode) + codec::u16_le(self.uid) + codec::u16_le(self.gid)
            + codec::u16_le(self.links_count) + codec::u32_le(self.size) + codec::u32_le(
            self.create_time,
        ) + codec::u32_le(self.update_time) + codec::u32_le(self.access_time) + codec::words_le(
            self.padding@,
        ) + codec::words_le(self.blocks@)
    }

    /// The blocks that belong to the file, in the order of the pointers.
    pub open spec fn owned(self) -> Seq<u32> {
        data_pointers(self.blocks@)
    }

    /// The inode of the root directory: a directory with no blocks.
    pub fn root() -> (node: Self)
        ensures
            node == Self::blank(ROOT_DEFAULT_MODE),
    {
        let node = Self {
            mode: ROOT_DEFAULT_MODE,
            uid: 0,
            gid: 0,
            links_count: 0,
            size: 0,
            create_time: 0,
            update_time: 0,
            access_time: 0,
            padding: [0u32; 43],
            blocks: [0u32; 15],
        };
        assert(node.padding =~= Self::blank(node.mode).padding);
        assert(node.blocks =~= Self::blank(node.mode).blocks);
        node
    }

    /// The inode of a new regular file: no blocks, no size, times zero.
    pub fn default() -> (node: Self)
        ensures
            node == Self::blank(DEFAULT_MODE),
    {
        let node = Self {
            mode: DEFAULT_MODE,
            uid: 0,
            gid: 0,
            links_count: 0,
            size: 0,
            create_time: 0,
            update_time: 0,
            access_time: 0,
            padding: [0u32; 43],
            blocks: [0u32; 15],
        };
        assert(node.padding =~= Self::blank(node.mode).padding);
        assert(node.blocks =~= Self::blank(node.mode).blocks);
        node
    }

    /// Reads an inode from the first 256 bytes of `buf`.
    pub fn parse(buf: &[u8]) -> (node: Self)
        requires
            buf@.len() >= NODE_SIZE,
        ensures
            node == Self::decode(buf@),
            node.encode() == buf@.subrange(0, NODE_SIZE as int),
    {
        let mut padding = [0u32; 43];
        let mut k: usize = 0;
        while k < 43
            invariant
                k <= 43,
                buf@.len() >= 256,
                forall|j: int| 0 <= j < k ==> padding@[j] == codec::u32_at(buf@, 24 + 4 * j),
            decreases 43 - k,
        {
            padding[k] = codec::read_u32(buf, 24 + 4 * k);
            k += 1;
        }
        let mut blocks = [0u32; 15];
        let mut k: usize = 0;
        while k < 15
            invariant
                k <= 15,
                buf@.len() >= 256,
                forall|j: int| 0 <= j < k ==> blocks@[j] == codec::u32_at(buf@, 196 + 4 * j),
            decreases 15 - k,
        {
            blocks[k] = codec::read_u32(buf, 196 + 4 * k);
            k += 1;
        }
        let node = Self {
            mode: codec::read_u16(buf, 0),
            uid: codec::read_u16(buf, 2),
            gid: codec::read_u16(buf, 4),
            links_count: codec::read_u16(buf, 6),
            size: codec::read_u32(buf, 8),
            create_time: codec::read_u32(buf, 12),
            update_time: codec::read_u32(buf, 16),
            access_time: codec::read_u32(buf, 20),
            padding,
            blocks,
        };
        proof {
            codec::lemma_u16_bytes_round_trip(buf@, 0);
            codec::lemma_u16_bytes_round_trip(buf@, 2);
            codec::lemma_u16_bytes_round_trip(buf@, 4);
            codec::lemma_u16_bytes_round_trip(buf@, 6);
            codec::lemma_u32_bytes_round_trip(buf@, 8);
            codec::lemma_u32_bytes_round_trip(buf@, 12);
            codec::lemma_u32_bytes_round_trip(buf@, 16);
            codec::lemma_u32_bytes_round_trip(buf@, 20);
            codec::lemma_words_le_of_bytes(padding@, buf@, 24);
            codec::lemma_words_le_of_bytes(blocks@, buf@, 196);
            assert(node.encode() =~= buf@.subrange(0, NODE_SIZE as int));
        }
        proof {
            Self::lemma_bytes_round_trip(buf@);
            node.lemma_encode_injective(Self::decode(buf@));
        }
        node
    }

    /// The 256 bytes that represent the record on disk.
    pub fn serialize(&self) -> (out: Vec<u8>)
        ensures
            out@ == self.encode(),
            out@.len() == NODE_SIZE,
    {
        let mut out: Vec<u8> = Vec::new();
        codec::push_u16(&mut out, self.mode);
        codec::push_u16(&mut out, self.uid);
        codec::push_u16(&mut out, self.gid);
        codec::push_u16(&mut out, self.links_count);
        codec::push_u32(&mut out, self.size);
        codec::push_u32(&mut out, self.create_time);
        codec::push_u32(&mut out, self.update_time);
        codec::push_u32(&mut out, self.access_time);
        let ghost head = out@;
        let mut k: usize = 0;
        while k < 43
            invariant
                k <= 43,
                out@ == head + codec::words_le(self.padding@.take(k as int)),
            decreases 43 - k,
        {
            codec::push_u32(&mut out, self.padding[k]);
            k += 1;
            assert(self.padding@.take(k as int).drop_last() =~= self.padding@.take(k - 1));
            assert(out@ =~= head + codec::words_le(self.padding@.take(k as int)));
        }
        assert(self.padding@.take(43) =~= self.padding@);
        let ghost head = out@;
        let mut k: usize = 0;
        while k < 15
            invariant
                k <= 15,
                out@ == head + codec::words_le(self.blocks@.take(k as int)),
            decreases 15 - k,
        {
            codec::push_u32(&mut out, self.blocks[k]);
            k += 1;
            assert(self.blocks@.take(k as int).drop_last() =~= self.blocks@.take(k - 1));
            assert(out@ =~= head + codec::words_le(self.blocks@.take(k as int)));
        }
        assert(self.blocks@.take(15) =~= self.blocks@);
        proof {
            self.lemma_encode_parts();
        }
        out
    }

    /// Where each field lies in the encoded record.
    pub proof fn lemma_encode_parts(self)
        ensures
            self.encode().len() == NODE_SIZE,
            self.encode().subrange(0, 2) == codec::u16_le(self.mode),
            self.encode().subrange(2, 4) == codec::u16_le(self.uid),
            self.encode().subrange(4, 6) == codec::u16_le(self.gid),
            self.encode().subrange(6, 8) == codec::u16_le(self.links_count),
            self.encode().subrange(8, 12) == codec::u32_le(self.size),
            self.encode().subrange(12, 16) == codec::u32_le(self.create_time),
            self.encode().subrange(16, 20) == codec::u32_le(self.update_time),
            self.encode().subrange(20, 24) == codec::u32_le(self.access_time),
            self.encode().subrange(24, 196) == codec::words_le(self.padding@),
            self.encode().subrange(196, 256) == codec::words_le(self.blocks@),
    {
        let e = self.encode();
        codec::lemma_words_le_len(self.padding@);
        codec::lemma_words_le_len(self.blocks@);
        assert(e.subrange(0, 2) =~= codec::u16_le(self.mode));
        assert(e.subrange(2, 4) =~= codec::u16_le(self.uid));
        assert(e.subrange(4, 6) =~= codec::u16_le(self.gid));
        assert(e.subrange(6, 8) =~= codec::u16_le(self.links_count));
        assert(e.subrange(8, 12) =~= codec::u32_le(self.size));
        assert(e.subrange(12, 16) =~= codec::u32_le(self.create_time));
        assert(e.subrange(16, 20) =~= codec::u32_le(self.update_time));
        assert(e.subrange(20, 24) =~= codec::u32_le(self.access_time));
        assert(e.subrange(24, 196) =~= codec::words_le(self.padding@));
        assert(e.subrange(196, 256) =~= codec::words_le(self.blocks@));
    }

    /// Two inodes with the same on-disk image are the same inode. With the
    /// contracts of `serialize` and `parse` this is the round trip: parsing a
    /// serialized inode gives the inode back.
    pub proof fn lemma_encode_injective(self, other: Inode)
        requires
            self.encode() == other.encode(),
        ensures
            self == other,
    {
        self.lemma_encode_parts();
        other.lemma_encode_parts();
        codec::lemma_u16_round_trip(self.mode);
        codec::lemma_u16_round_trip(other.mode);
        codec::lemma_u16_round_trip(self.uid);
        codec::lemma_u16_round_trip(other.uid);
        codec::lemma_u16_round_trip(self.gid);
        codec::lemma_u16_round_trip(other.gid);
        codec::lemma_u16_round_trip(self.links_count);
        codec::lemma_u16_round_trip(other.links_count);
        codec::lemma_u32_round_trip(self.size);
        codec::lemma_u32_round_trip(other.size);
        codec::lemma_u32_round_trip(self.create_time);
        codec::lemma_u32_round_trip(other.create_time);
        codec::lemma_u32_round_trip(self.update_time);
        codec::lemma_u32_round_trip(other.update_time);
        codec::lemma_u32_round_trip(self.access_time);
        codec::lemma_u32_round_trip(other.access_time);
        codec::lemma_words_le_injective(self.padding@, other.padding@);
        codec::lemma_words_le_injective(self.blocks@, other.blocks@);
        assert(self.padding =~= other.padding);
        assert(self.blocks =~= other.blocks);
    }

    /// Parsing a serialized inode gives the inode back.
    pub proof fn lemma_round_trip(self)
        ensures
            self.encode().len() == NODE_SIZE,
            Self::decode(self.encode()) == self,
    {
        let e = self.encode();
        let d = Self::decode(e);
        self.lemma_encode_parts();
        Self::lemma_bytes_round_trip(e);
        assert(e.subrange(0, NODE_SIZE as int) =~= e);
        d.lemma_encode_injective(self);
    }

    /// Serializing what was parsed gives the first 256 bytes back.
    pub proof fn lemma_bytes_round_trip(bytes: Seq<u8>)
        requires
            bytes.len() >= NODE_SIZE,
        ensures
            Self::decode(bytes).encode() == bytes.subrange(0, NODE_SIZE as int),
    {
        reveal(Inode::decode);
        let d = Self::decode(bytes);
        codec::lemma_u16_bytes_round_trip(bytes, 0);
        codec::lemma_u16_bytes_round_trip(bytes, 2);
        codec::lemma_u16_bytes_round_trip(bytes, 4);
        codec::lemma_u16_bytes_round_trip(bytes, 6);
        codec::lemma_u32_bytes_round_trip(bytes, 8);
        codec::lemma_u32_bytes_round_trip(bytes, 12);
        codec::lemma_u32_bytes_round_trip(bytes, 16);
        codec::lemma_u32_bytes_round_trip(bytes, 20);
        lemma_words_array::<43>(words_at(bytes, 24, 43), 43);
        lemma_words_array::<15>(words_at(bytes, 196, 15), 15);
        assert(d.padding@ =~= words_at(bytes, 24, 43));
        assert(d.blocks@ =~= words_at(bytes, 196, 15));
        codec::lemma_words_le_of_bytes(d.padding@, bytes, 24);
        codec::lemma_words_le_of_bytes(d.blocks@, bytes, 196);
        assert(d.encode() =~= bytes.subrange(0, NODE_SIZE as int));
    }
}

/// What slot `inum` of the inode table holds on disk: the inode's record, or
/// zero bytes where the group has no such inode.
pub open spec fn slot(nodes: Map<u32, Inode>, inum: u32) -> Seq<u8> {
    if nodes.contains_key(inum) {
        nodes[inum].encode()
    } else {
        codec::zeros(NODE_SIZE as nat)
    }
}

/// The slots of the inodes `first .. first + count`, one after another.
pub open spec fn slots(nodes: Map<u32, Inode>, first: u32, count: nat) -> Seq<u8>
    decreases count,
{
    if count == 0 {
        Seq::empty()
    } else {
        slots(nodes, first, (count - 1) as nat) + slot(nodes, (first + count - 1) as u32)
    }
}

/// Block `disk_block` of the inode table as it is written to disk.
pub open spec fn table_block(nodes: Map<u32, Inode>, disk_block: u32) -> Seq<u8> {
    slots(nodes, (disk_block * NODES_PER_BLOCK) as u32, NODES_PER_BLOCK as nat)
}

/// The block of the device that holds inode `inum`.
pub open spec fn block_of(inum: u32) -> int {
    INODE_START + inum / NODES_PER_BLOCK
}

/// Where in its block inode `inum` starts.
pub open spec fn offset_of(inum: u32) -> int {
    (inum % NODES_PER_BLOCK) * NODE_SIZE
}

/// The bytes of the table block `buf` that hold inode `i`.
pub open spec fn slot_bytes(buf: Seq<u8>, i: u32) -> Seq<u8> {
    buf.subrange(offset_of(i), offset_of(i) + NODE_SIZE)
}

/// The inodes after the first `upto` slots of table block `disk_block` were
/// loaded from `buf` into `nodes`: each inumber of those slots whose bit is
/// set in `bits` maps to the record in its slot, and nothing else differs.
pub open spec fn loaded(
    nodes: Map<u32, Inode>,
    bits: Seq<bool>,
    disk_block: u32,
    buf: Seq<u8>,
    upto: nat,
) -> Map<u32, Inode>
    decreases upto,
{
    if upto == 0 {
        nodes
    } else {
        let before = loaded(nodes, bits, disk_block, buf, (upto - 1) as nat);
        let i = (disk_block * NODES_PER_BLOCK + upto - 1) as u32;
        if bits[i as int] {
            before.insert(i, Inode::decode(slot_bytes(buf, i)))
        } else {
            before
        }
    }
}

/// What `loaded` holds at each inumber.
pub proof fn lemma_loaded(
    nodes: Map<u32, Inode>,
    bits: Seq<bool>,
    disk_block: u32,
    buf: Seq<u8>,
    upto: nat,
    i: u32,
)
    requires
        upto <= NODES_PER_BLOCK,
        disk_block * NODES_PER_BLOCK + NODES_PER_BLOCK <= u32::MAX,
    ensures
        ({
            let after = loaded(nodes, bits, disk_block, buf, upto);
            if disk_block * NODES_PER_BLOCK <= i < disk_block * NODES_PER_BLOCK + upto
                && bits[i as int] {
                after.contains_key(i) && after[i] == Inode::decode(slot_bytes(buf, i))
            } else {
                after.contains_key(i) == nodes.contains_key(i) && (nodes.contains_key(i)
                    ==> after[i] == nodes[i])
            }
        }),
    decreases upto,
{
    if upto > 0 {
        lemma_loaded(nodes, bits, disk_block, buf, (upto - 1) as nat, i);
    }
}

/// The slots have `NODE_SIZE` bytes each.
pub proof fn lemma_slots_len(nodes: Map<u32, Inode>, first: u32, count: nat)
    ensures
        slots(nodes, first, count).len() == count * NODE_SIZE,
    decreases count,
{
    if count > 0 {
        lemma_slots_len(nodes, first, (count - 1) as nat);
        let inum = (first + count - 1) as u32;
        if nodes.contains_key(inum) {
            nodes[inum].lemma_encode_parts();
        }
    }
}

/// Slot `k` of the slots is the slot of inode `first + k`.
pub proof fn lemma_slots_at(nodes: Map<u32, Inode>, first: u32, count: nat, k: int)
    requires
        0 <= k < count,
        first + count <= u32::MAX,
    ensures
        slots(nodes, first, count).len() == count * NODE_SIZE,
        slots(nodes, first, count).subrange(k * NODE_SIZE, k * NODE_SIZE + NODE_SIZE) == slot(
            nodes,
            (first + k) as u32,
        ),
    decreases count,
{
    lemma_slots_len(nodes, first, count);
    lemma_slots_len(nodes, first, (count - 1) as nat);
    let all = slots(nodes, first, count);
    let last = slot(nodes, (first + count - 1) as u32);
    if nodes.contains_key((first + count - 1) as u32) {
        nodes[(first + count - 1) as u32].lemma_encode_parts();
    }
    if k == count - 1 {
        assert(all.subrange(k * NODE_SIZE, k * NODE_SIZE + NODE_SIZE) =~= last);
    } else {
        lemma_slots_at(nodes, first, (count - 1) as nat, k);
        assert(all.subrange(k * NODE_SIZE, k * NODE_SIZE + NODE_SIZE) =~= slots(
            nodes,
            first,
            (count - 1) as nat,
        ).subrange(k * NODE_SIZE, k * NODE_SIZE + NODE_SIZE));
    }
}

/// Whether each inumber that has an inode is one whose bit can be read, and
/// is set.
pub open spec fn tracked_nodes(nodes: Map<u32, Inode>, bits: Seq<bool>) -> bool {
    forall|i: u32| #[trigger] nodes.contains_key(i) ==> i < BITMAP_BITS - 1 && bits[i as int]
}

/// The inodes of a volume in memory, with the bitmap of the inumbers in use.
pub struct InodeGroup {
    nodes: BTreeMap<u32, Inode>,
    alloc_tracker: Bitmap,
}

impl InodeGroup {
    /// The inodes of the group, by inumber.
    pub closed spec fn nodes(&self) -> Map<u32, Inode> {
        self.nodes@
    }

    /// The allocation bitmap of the group.
    pub closed spec fn tracker(&self) -> Bitmap {
        self.alloc_tracker
    }

    /// Every inode of the group has its inumber marked reserved.
    pub closed spec fn wf(&self) -> bool {
        tracked_nodes(self.nodes@, self.alloc_tracker@)
    }

    /// What `wf` says, over the inodes and the bitmap.
    pub proof fn lemma_wf(&self)
        ensures
            self.wf() == tracked_nodes(self.nodes(), self.tracker()@),
    {
    }

    /// The largest number of a table block that can be loaded or serialized:
    /// all of its inumbers have an entry in the bitmap that can be read.
    pub open spec fn max_table_block() -> int {
        (BITMAP_BITS - 1) / (NODES_PER_BLOCK as int) - 1
    }

    /// A group for a new volume: the root directory at inumber 0, marked
    /// reserved in `alloc_tracker`, and no other inode.
    pub fn new(alloc_tracker: Bitmap) -> (group: Self)
        ensures
            group.wf(),
            group.nodes() == Map::<u32, Inode>::empty().insert(0, Inode::blank(ROOT_DEFAULT_MODE)),
            group.nodes().dom() == set![0u32],
            group.tracker().bytes() == crate::allocation::with_bit(alloc_tracker.bytes(), 0, true),
            group.tracker()@ == alloc_tracker@.update(0, true),
    {
        let mut group = Self { nodes: BTreeMap::new(), alloc_tracker };
        proof {
            alloc_tracker.lemma_len();
        }
        group.insert(0, Inode::root());
        assert(group.nodes().dom() =~= set![0u32]);
        group
    }

    /// A group for mounting: no inode yet. The caller loads the blocks of
    /// the inode table one by one.
    pub fn open(alloc_tracker: Bitmap) -> (group: Self)
        ensures
            group.wf(),
            group.nodes() == Map::<u32, Inode>::empty(),
            group.tracker() == alloc_tracker,
    {
        Self { nodes: BTreeMap::new(), alloc_tracker }
    }

    /// The inode with inumber `inum`, if the group has it.
    pub fn get(&self, inum: u32) -> (node: Option<&Inode>)
        ensures
            match node {
                Some(n) => self.nodes().contains_key(inum) && *n == self.nodes()[inum],
                None => !self.nodes().contains_key(inum),
            },
    {
        self.nodes.get(&inum)
    }

    /// The allocation bitmap of the group.
    pub fn allocations(&self) -> (bitmap: &Bitmap)
        ensures
            *bitmap == self.tracker(),
    {
        &self.alloc_tracker
    }

    /// The number of inodes in the group.
    pub fn total_nodes(&self) -> (count: usize)
        ensures
            count == self.nodes().len(),
    {
        self.nodes.len()
    }

    /// Whether an inumber below `INODE_COUNT` is free.
    pub open spec fn has_free(&self) -> bool {
        first_free(self.tracker()@, 0, INODE_COUNT as int) is Some
    }

    /// The lowest free inumber below `INODE_COUNT`, if there is one. The
    /// group is not changed.
    pub fn next_free(&self) -> (inum: Option<u32>)
        ensures
            match inum {
                Some(i) => first_free(self.tracker()@, 0, INODE_COUNT as int) == Some(i as int),
                None => first_free(self.tracker()@, 0, INODE_COUNT as int) is None,
            },
    {
        let mut block: u32 = 0;
        while block < INODE_COUNT
            invariant
                block <= INODE_COUNT,
                first_free(self.tracker()@, 0, INODE_COUNT as int) == first_free(
                    self.tracker()@,
                    block as int,
                    INODE_COUNT as int,
                ),
            decreases INODE_COUNT - block,
        {
            match self.alloc_tracker.get(block as usize) {
                State::Free => {
                    return Some(block);
                },
                State::Used => {},
            }
            block += 1;
        }
        None
    }

    /// Allocates a regular file at the lowest free inumber below
    /// `INODE_COUNT` and returns that inumber. There has to be a free one.
    pub fn new_file(&mut self) -> (inum: u32)
        requires
            old(self).wf(),
            old(self).has_free(),
        ensures
            final(self).wf(),
            first_free(old(self).tracker()@, 0, INODE_COUNT as int) == Some(inum as int),
            inum < INODE_COUNT,
            !old(self).tracker()@[inum as int],
            final(self).nodes() == old(self).nodes().insert(inum, Inode::blank(DEFAULT_MODE)),
            final(self).tracker().bytes() == crate::allocation::with_bit(
                old(self).tracker().bytes(),
                inum as int,
                true,
            ),
            final(self).tracker()@ == old(self).tracker()@.update(inum as int, true),
    {
        proof {
            lemma_first_free(self.tracker()@, 0, INODE_COUNT as int);
        }
        let mut block: u32 = 0;
        while self.alloc_tracker.get(block as usize) == State::Used
            invariant
                block < INODE_COUNT,
                *self == *old(self),
                first_free(self.tracker()@, 0, INODE_COUNT as int) is Some,
                first_free(self.tracker()@, 0, INODE_COUNT as int) == first_free(
                    self.tracker()@,
                    block as int,
                    INODE_COUNT as int,
                ),
            decreases INODE_COUNT - block,
        {
            proof {
                lemma_first_free(self.tracker()@, block + 1, INODE_COUNT as int);
            }
            block += 1;
        }
        let new_node = Inode::default();
        self.insert(block, new_node);
        block
    }

    /// Puts `node` at inumber `node_block`, in place of what was there, and
    /// marks the inumber reserved. Returns the block of the inode table that
    /// holds it.
    pub fn insert(&mut self, node_block: u32, node: Inode) -> (disk_block: usize)
        requires
            old(self).wf(),
            node_block < BITMAP_BITS - 1,
        ensures
            final(self).wf(),
            final(self).nodes() == old(self).nodes().insert(node_block, node),
            final(self).tracker().bytes() == crate::allocation::with_bit(
                old(self).tracker().bytes(),
                node_block as int,
                true,
            ),
            final(self).tracker()@ == old(self).tracker()@.update(node_block as int, true),
            disk_block == node_block / NODES_PER_BLOCK,
    {
        proof {
            self.alloc_tracker.lemma_len();
        }
        self.alloc_tracker.set_reserved(node_block as usize);
        self.nodes.insert(node_block, node);
        self.get_disk_block(node_block)
    }

    /// Puts `node` in the place of the inode with inumber `inum` and
    /// returns the inode that was there. Where the group has no such inode,
    /// nothing changes.
    pub fn replace(&mut self, inum: u32, node: Inode) -> (previous: Option<Inode>)
        requires
            old(self).wf(),
        ensures
            final(self).wf(),
            final(self).tracker() == old(self).tracker(),
            match previous {
                Some(p) => {
                    &&& old(self).nodes().contains_key(inum)
                    &&& p == old(self).nodes()[inum]
                    &&& final(self).nodes() == old(self).nodes().insert(inum, node)
                },
                None => {
                    &&& !old(self).nodes().contains_key(inum)
                    &&& final(self).nodes() == old(self).nodes()
                },
            },
    {
        if self.nodes.get(&inum).is_none() {
            return None;
        }
        self.nodes.insert(inum, node)
    }

    /// The block of the inode table that holds inode `node_block`.
    pub fn get_disk_block(&self, node_block: u32) -> (disk_block: usize)
        ensures
            disk_block == node_block / NODES_PER_BLOCK,
    {
        (node_block / NODES_PER_BLOCK) as usize
    }

    /// Loads block `disk_block` of the inode table from `block_buf`: every
    /// inumber of that block whose bit is set in the bitmap gets the record
    /// in its slot, at offset `(i % 16) * 256`. Other inodes stay.
    pub fn load_block(&mut self, disk_block: u32, block_buf: &[u8])
        requires
            old(self).wf(),
            disk_block <= Self::max_table_block(),
            block_buf@.len() >= BLOCK_SIZE,
        ensures
            final(self).wf(),
            final(self).tracker() == old(self).tracker(),
            final(self).nodes() == loaded(
                old(self).nodes(),
                old(self).tracker()@,
                disk_block,
                block_buf@,
                NODES_PER_BLOCK as nat,
            ),
    {
        let block_start: u32 = disk_block * NODES_PER_BLOCK;
        let mut k: u32 = 0;
        while k < NODES_PER_BLOCK
            invariant
                k <= NODES_PER_BLOCK,
                disk_block <= Self::max_table_block(),
                block_start == disk_block * NODES_PER_BLOCK,
                block_buf@.len() >= BLOCK_SIZE,
                self.wf(),
                self.tracker() == old(self).tracker(),
                self.nodes() == loaded(
                    old(self).nodes(),
                    old(self).tracker()@,
                    disk_block,
                    block_buf@,
                    k as nat,
                ),
            decreases NODES_PER_BLOCK - k,
        {
            let i: u32 = block_start + k;
            match self.alloc_tracker.get(i as usize) {
                State::Used => {
                    let node_offset: usize = (k as usize) * NODE_SIZE;
                    let slot = vstd::slice::slice_subrange(
                        block_buf,
                        node_offset,
                        node_offset + NODE_SIZE,
                    );
                    assert(slot@ =~= slot_bytes(block_buf@, i));
                    let node = Inode::parse(slot);
                    self.nodes.insert(i, node);
                },
                State::Free => {},
            }
            k += 1;
        }
    }

    /// Block `disk_block` of the inode table as it goes to disk: each inode
    /// of the group whose inumber lies in that block in its slot of 256
    /// bytes, and zero bytes in the other slots.
    pub fn serialize_block(&self, disk_block: u32) -> (block_buf: Vec<u8>)
        requires
            disk_block * NODES_PER_BLOCK + NODES_PER_BLOCK <= u32::MAX,
        ensures
            block_buf@ == table_block(self.nodes(), disk_block),
            block_buf@.len() == BLOCK_SIZE,
    {
        let mut block_buf: Vec<u8> = Vec::new();
        let offset: u32 = disk_block * NODES_PER_BLOCK;
        let mut k: u32 = 0;
        while k < NODES_PER_BLOCK
            invariant
                k <= NODES_PER_BLOCK,
                disk_block * NODES_PER_BLOCK + NODES_PER_BLOCK <= u32::MAX,
                offset == disk_block * NODES_PER_BLOCK,
                block_buf@ == slots(self.nodes(), offset, k as nat),
                block_buf@.len() == k * NODE_SIZE,
            decreases NODES_PER_BLOCK - k,
        {
            let i: u32 = offset + k;
            match self.nodes.get(&i) {
                Some(node) => {
                    let mut bytes = node.serialize();
                    block_buf.append(&mut bytes);
                },
                None => {
                    codec::push_zeros(&mut block_buf, NODE_SIZE);
                },
            }
            k += 1;
        }
        block_buf
    }
}

} // verus!
