//! What holds of the model of a volume, proved once for every volume.

use crate::allocation::{
    bits_of, first_free, lemma_first_free, lemma_with_bit, lemma_zero_bits, with_bit,
};
use crate::codec;
use crate::dir::{
    all_storable, content, entry_text, lemma_listing_round_trip, lemma_parsed_storable, lines_of,
    mapping, parse_path_spec, payload_of, permitted, storable, NEWLINE,
};
use crate::io::block::{overwritten, well_formed};
use crate::layout::{
    BLOCK_SIZE, DATA_BLOCKS, DATA_REGION_BMP, DATA_START, DIRECT_POINTERS, INODE_BLOCKS, INODE_BMP,
    INODE_COUNT, INODE_START, NODES_PER_BLOCK, SUPERBLOCK_INDEX, SUPERBLOCK_SIZE, TOTAL_BLOCKS,
};
use crate::node::{
    block_of, data_pointers, is_data_pointer, lemma_data_pointers, lemma_loaded, lemma_slots_at,
    lemma_slots_len, lemma_words_array, slot, slot_bytes, table_block, Inode, DEFAULT_MODE,
    ROOT_DEFAULT_MODE,
};
use crate::sb::SuperBlock;
use crate::volume::{
    Lookup, Opened, blocks_marked, blocks_unshared, chunk, file_bytes, grow, marks_cited,
    needed_blocks, pointers, pointers_in_range, table_nodes, write_chunks, write_table, Volume,
};
use vstd::prelude::*;

verus! {

/// What the inode table holds at each inumber: an inode exactly where the
/// inumber lies in one of the first `count` blocks and its bit is set, and
/// then the record in its slot.
pub proof fn lemma_table_nodes(blocks: Seq<Seq<u8>>, count: nat, i: u32)
    requires
        count <= INODE_BLOCKS,
    ensures
        table_nodes(blocks, count).contains_key(i) <==> (i < count * NODES_PER_BLOCK && bits_of(
            blocks[INODE_BMP as int],
        )[i as int]),
        table_nodes(blocks, count).contains_key(i) ==> table_nodes(blocks, count)[i]
            == Inode::decode(slot_bytes(blocks[block_of(i)], i)),
    decreases count,
{
    if count > 0 {
        lemma_table_nodes(blocks, (count - 1) as nat, i);
        lemma_loaded(
            table_nodes(blocks, (count - 1) as nat),
            bits_of(blocks[INODE_BMP as int]),
            (count - 1) as u32,
            blocks[INODE_START + count - 1],
            16,
            i,
        );
    }
}

/// Writing the inode table changes the blocks of the table and no other.
pub proof fn lemma_write_table(blocks: Seq<Seq<u8>>, nodes: Map<u32, Inode>, count: nat, b: int)
    requires
        INODE_START + count <= blocks.len(),
        0 <= b < blocks.len(),
    ensures
        write_table(blocks, nodes, count).len() == blocks.len(),
        write_table(blocks, nodes, count)[b] == if INODE_START <= b < INODE_START + count {
            table_block(nodes, (b - INODE_START) as u32)
        } else {
            blocks[b]
        },
    decreases count,
{
    if count > 0 {
        lemma_write_table(blocks, nodes, (count - 1) as nat, b);
    }
}

/// Mounting a freshly formatted device gives the volume that formatting
/// left in memory: the device carries the magic, and the volume that is
/// read from it has one inode, the root directory at inumber 0.
pub proof fn lemma_mount_after_format(blocks: Seq<Seq<u8>>)
    requires
        blocks.len() >= TOTAL_BLOCKS,
        well_formed(blocks),
    ensures
        Volume::has_magic(Volume::formatted(blocks).blocks),
        Volume::mounted(Volume::formatted(blocks).blocks) == Volume::formatted(blocks),
        Volume::formatted(blocks).nodes.len() == 1,
        Volume::formatted(blocks).nodes.contains_key(0),
        Volume::formatted(blocks).nodes[0] == Inode::blank(ROOT_DEFAULT_MODE),
{
    let f = Volume::formatted(blocks);
    let m = Volume::mounted(f.blocks);
    let sb = SuperBlock::formatted();
    let root = Inode::blank(ROOT_DEFAULT_MODE);
    // The superblock reads back from the start of block 0.
    sb.lemma_round_trip();
    let block0 = f.blocks[SUPERBLOCK_INDEX as int];
    assert(block0 == sb.encode() + codec::zeros((BLOCK_SIZE - SUPERBLOCK_SIZE) as nat));
    assert forall|j: int| 0 <= j < SUPERBLOCK_SIZE implies block0[j] == sb.encode()[j] by {}
    assert(SuperBlock::decode(block0) == SuperBlock::decode(sb.encode()));
    // The bitmap of the inodes has bit 0 set and no other.
    lemma_zero_bits(BLOCK_SIZE as nat);
    lemma_with_bit(codec::zeros(BLOCK_SIZE as nat), 0, true);
    // Slot 0 of the table holds the root directory.
    lemma_slots_at(f.nodes, 0, 16, 0);
    root.lemma_round_trip();
    assert(slot_bytes(f.blocks[INODE_START as int], 0) == root.encode());
    assert forall|i: u32| #[trigger] m.nodes.contains_key(i) == f.nodes.contains_key(i) by {
        lemma_table_nodes(f.blocks, INODE_BLOCKS as nat, i);
    }
    assert(m.nodes[0] == f.nodes[0]) by {
        lemma_table_nodes(f.blocks, INODE_BLOCKS as nat, 0);
    }
    assert(m.nodes.dom() =~= f.nodes.dom());
    assert(m.nodes =~= f.nodes);
    assert(f.nodes.dom() =~= set![0u32]);
}

/// A freshly formatted volume is sound and consistent.
pub proof fn lemma_formatted_consistent(blocks: Seq<Seq<u8>>)
    requires
        blocks.len() >= TOTAL_BLOCKS,
        well_formed(blocks),
    ensures
        Volume::formatted(blocks).sound(),
        Volume::formatted(blocks).consistent(),
        Volume::formatted(blocks).durable(),
{
    let f = Volume::formatted(blocks);
    lemma_mount_after_format(blocks);
    lemma_zero_bits(BLOCK_SIZE as nat);
    lemma_with_bit(codec::zeros(BLOCK_SIZE as nat), 0, true);
    lemma_blank_owned(ROOT_DEFAULT_MODE);
    lemma_slots_len(f.nodes, 0, 16);
    assert(well_formed(f.blocks)) by {
        assert forall|k: int| 0 <= k < f.blocks.len() implies (#[trigger] f.blocks[k]).len()
            == BLOCK_SIZE by {
            SuperBlock::formatted().lemma_round_trip();
        }
    }
    assert(f.sound());
    assert(pointers_in_range(f.nodes));
    assert(blocks_unshared(f.nodes));
    assert(blocks_marked(f.nodes, f.data_map_bits()));
    assert(marks_cited(f.nodes, f.data_map_bits()));
}

/// A device whose first block is zero does not carry the magic, so `open`
/// refuses it.
pub proof fn lemma_zeroed_has_no_magic(blocks: Seq<Seq<u8>>)
    requires
        blocks.len() > 0,
        blocks[SUPERBLOCK_INDEX as int] == codec::zeros(BLOCK_SIZE as nat),
    ensures
        !Volume::has_magic(blocks),
{
}

/// Each of `ps` addresses the data region.
pub open spec fn all_data_pointers(ps: Seq<u32>) -> bool {
    forall|k: int| 0 <= k < ps.len() ==> is_data_pointer(#[trigger] ps[k])
}

/// No two of `ps` are the same.
pub open spec fn distinct(ps: Seq<u32>) -> bool {
    forall|a: int, b: int| 0 <= a < b < ps.len() ==> #[trigger] ps[a] != #[trigger] ps[b]
}

/// Each of the blocks `ps` is marked reserved in `bits`.
pub open spec fn all_marked(ps: Seq<u32>, bits: Seq<bool>) -> bool {
    forall|k: int| 0 <= k < ps.len() ==> bits[(#[trigger] ps[k]) - DATA_START]
}

/// The first `n` of the pointers of an inode that owns `owned` hold the
/// first `n` of `owned` as their data pointers.
pub proof fn lemma_data_pointers_prefix(owned: Seq<u32>, n: int)
    requires
        all_data_pointers(owned),
        0 <= n <= DIRECT_POINTERS,
    ensures
        data_pointers(pointers(owned).take(n)) == if n <= owned.len() {
            owned.take(n)
        } else {
            owned
        },
    decreases n,
{
    let ps = pointers(owned).take(n);
    if n == 0 {
        assert(data_pointers(ps) =~= owned.take(0));
    } else {
        lemma_data_pointers_prefix(owned, n - 1);
        assert(ps.drop_last() =~= pointers(owned).take(n - 1));
        if n <= owned.len() {
            assert(ps.last() == owned[n - 1]);
            assert(owned.take(n - 1).push(owned[n - 1]) =~= owned.take(n));
        } else {
            assert(ps.last() == 0);
            if n - 1 == owned.len() {
                assert(owned.take(n - 1) =~= owned);
            }
        }
    }
}

/// An inode that was given the pointers of `owned` owns `owned`.
pub proof fn lemma_with_blocks_owned(node: Inode, owned: Seq<u32>)
    requires
        all_data_pointers(owned),
        owned.len() <= DIRECT_POINTERS,
    ensures
        node.with_blocks(pointers(owned)).blocks@ == pointers(owned),
        node.with_blocks(pointers(owned)).owned() == owned,
{
    let ptrs = pointers(owned);
    lemma_words_array::<15>(ptrs, 15);
    assert(node.with_blocks(ptrs).blocks@ =~= ptrs);
    lemma_data_pointers_prefix(owned, DIRECT_POINTERS as int);
    assert(ptrs.take(DIRECT_POINTERS as int) =~= ptrs);
}

/// What growing a file gives. The blocks it owned stay at the front. Each
/// block that is added lies in the data region and was free. Where the
/// blocks it owned were distinct and marked reserved, all its blocks are.
/// A block is marked reserved afterwards exactly where it was before or was
/// added.
pub proof fn lemma_grow_shape(owned: Seq<u32>, map: Seq<u8>, needed: nat)
    requires
        map.len() == BLOCK_SIZE,
        all_data_pointers(owned),
        distinct(owned),
        all_marked(owned, bits_of(map)),
        grow(owned, map, needed) is Some,
    ensures
        ({
            let (all, marked) = grow(owned, map, needed).unwrap();
            &&& marked.len() == BLOCK_SIZE
            &&& all.len() == if owned.len() < needed {
                needed
            } else {
                owned.len()
            }
            &&& all.take(owned.len() as int) == owned
            &&& all_data_pointers(all)
            &&& distinct(all)
            &&& all_marked(all, bits_of(marked))
            &&& forall|k: int| owned.len() <= k < all.len() ==> !bits_of(map)[(#[trigger] all[k]) - DATA_START]
            &&& forall|j: int|
                0 <= j < 8 * BLOCK_SIZE ==> (#[trigger] bits_of(marked)[j] <==> bits_of(map)[j] || (
                exists|k: int| owned.len() <= k < all.len() && #[trigger] all[k] == DATA_START + j))
        }),
    decreases needed - owned.len(),
{
    let bits = bits_of(map);
    if owned.len() < needed {
        lemma_first_free(bits, 0, DATA_BLOCKS as int);
        let j = first_free(bits, 0, DATA_BLOCKS as int).unwrap();
        let next = owned.push((DATA_START + j) as u32);
        let map1 = with_bit(map, j, true);
        let bits1 = bits_of(map1);
        lemma_with_bit(map, j, true);
        assert(all_data_pointers(next));
        assert(distinct(next)) by {
            assert forall|a: int, b: int| 0 <= a < b < next.len() implies #[trigger] next[a]
                != #[trigger] next[b] by {
                if b == owned.len() {
                    assert(bits[owned[a] - DATA_START]);
                }
            }
        }
        assert(all_marked(next, bits1));
        lemma_grow_shape(next, map1, needed);
        let (all, marked) = grow(owned, map, needed).unwrap();
        assert(all.take(owned.len() as int) =~= owned) by {
            assert(all.take(next.len() as int) == next);
            assert forall|k: int| 0 <= k < owned.len() implies all[k] == owned[k] by {
                assert(all.take(next.len() as int)[k] == next[k]);
            }
        }
        assert(all[owned.len() as int] == DATA_START + j) by {
            assert(all.take(next.len() as int)[owned.len() as int] == next[owned.len() as int]);
        }
        assert forall|k: int| owned.len() <= k < all.len() implies !bits[(#[trigger] all[k])
            - DATA_START] by {
            if k > owned.len() {
                assert(!bits1[all[k] - DATA_START]);
            }
        }
        assert forall|n: int| 0 <= n < 8 * BLOCK_SIZE implies (#[trigger] bits_of(marked)[n] <==> bits[n]
            || (exists|k: int| owned.len() <= k < all.len() && #[trigger] all[k] == DATA_START + n)) by {
            if bits_of(marked)[n] {
                if !bits1[n] {
                    let k = choose|k: int|
                        next.len() <= k < all.len() && #[trigger] all[k] == DATA_START + n;
                    assert(owned.len() <= k < all.len() && all[k] == DATA_START + n);
                } else if n == j {
                    assert(all[owned.len() as int] == DATA_START + n);
                }
            } else {
                if exists|k: int| owned.len() <= k < all.len() && #[trigger] all[k] == DATA_START + n {
                    let k = choose|k: int|
                        owned.len() <= k < all.len() && #[trigger] all[k] == DATA_START + n;
                    if k > owned.len() {
                        assert(next.len() <= k < all.len() && all[k] == DATA_START + n);
                    }
                }
            }
        }
    } else {
        let (all, marked) = grow(owned, map, needed).unwrap();
        assert(all.take(owned.len() as int) =~= owned);
    }
}

/// Writing chunks changes the blocks that the chunks go to and no other,
/// and every block stays one block long.
pub proof fn lemma_write_chunks_frame(
    blocks: Seq<Seq<u8>>,
    owned: Seq<u32>,
    payload: Seq<u8>,
    count: nat,
    b: int,
)
    requires
        well_formed(blocks),
        count <= owned.len(),
        forall|k: int| 0 <= k < count ==> 0 <= #[trigger] owned[k] < blocks.len(),
        0 <= b < blocks.len(),
    ensures
        write_chunks(blocks, owned, payload, count).len() == blocks.len(),
        well_formed(write_chunks(blocks, owned, payload, count)),
        (forall|k: int| 0 <= k < count ==> #[trigger] owned[k] != b) ==> write_chunks(
            blocks,
            owned,
            payload,
            count,
        )[b] == blocks[b],
    decreases count,
{
    if count > 0 {
        lemma_write_chunks_frame(blocks, owned, payload, (count - 1) as nat, b);
        let before = write_chunks(blocks, owned, payload, (count - 1) as nat);
        let at = owned[count - 1] as int;
        lemma_write_chunks_frame(blocks, owned, payload, (count - 1) as nat, at);
        let after = write_chunks(blocks, owned, payload, count);
        assert(after == before.update(at, overwritten(before[at], chunk(payload, count - 1))));
        assert forall|k: int| 0 <= k < after.len() implies (#[trigger] after[k]).len()
            == BLOCK_SIZE by {
            if k != at {
                assert(after[k] == before[k]);
            }
        }
    }
}

/// Where the blocks that the chunks go to are distinct, each of them holds
/// its chunk afterwards, and behind the chunk what it held before.
pub proof fn lemma_write_chunks_at(
    blocks: Seq<Seq<u8>>,
    owned: Seq<u32>,
    payload: Seq<u8>,
    count: nat,
    k: int,
)
    requires
        well_formed(blocks),
        count <= owned.len(),
        forall|n: int| 0 <= n < count ==> 0 <= #[trigger] owned[n] < blocks.len(),
        distinct(owned),
        0 <= k < count,
    ensures
        write_chunks(blocks, owned, payload, count)[owned[k] as int] == overwritten(
            blocks[owned[k] as int],
            chunk(payload, k),
        ),
    decreases count,
{
    let at = owned[count - 1] as int;
    let before = write_chunks(blocks, owned, payload, (count - 1) as nat);
    lemma_write_chunks_frame(blocks, owned, payload, (count - 1) as nat, at);
    if k < count - 1 {
        lemma_write_chunks_at(blocks, owned, payload, (count - 1) as nat, k);
    }
}

/// A file reads the same from two devices that agree on its blocks.
pub proof fn lemma_file_bytes_frame(one: Seq<Seq<u8>>, other: Seq<Seq<u8>>, owned: Seq<u32>)
    requires
        forall|k: int| 0 <= k < owned.len() ==> one[(#[trigger] owned[k]) as int] == other[owned[k] as int],
    ensures
        file_bytes(one, owned) == file_bytes(other, owned),
    decreases owned.len(),
{
    if owned.len() > 0 {
        lemma_file_bytes_frame(one, other, owned.drop_last());
        assert(owned.last() == owned[owned.len() - 1]);
    }
}

/// A payload that was written chunk by chunk to the first blocks of a file
/// is what the file starts with.
pub proof fn lemma_read_back(
    blocks: Seq<Seq<u8>>,
    owned: Seq<u32>,
    payload: Seq<u8>,
    upto: int,
)
    requires
        well_formed(blocks),
        forall|k: int| 0 <= k < owned.len() ==> 0 <= #[trigger] owned[k] < blocks.len(),
        needed_blocks(payload.len()) <= owned.len(),
        0 <= upto <= owned.len(),
        forall|k: int|
            0 <= k < needed_blocks(payload.len()) ==> blocks[(#[trigger] owned[k]) as int]
                == overwritten(blocks[owned[k] as int], chunk(payload, k)),
    ensures
        file_bytes(blocks, owned.take(upto)).len() == upto * BLOCK_SIZE,
        forall|x: int|
            0 <= x < payload.len() && x < upto * BLOCK_SIZE ==> file_bytes(
                blocks,
                owned.take(upto),
            )[x] == payload[x],
    decreases upto,
{
    let part = owned.take(upto);
    if upto > 0 {
        lemma_read_back(blocks, owned, payload, upto - 1);
        assert(part.drop_last() =~= owned.take(upto - 1));
        assert(part.last() == owned[upto - 1]);
        let before = file_bytes(blocks, owned.take(upto - 1));
        let block = blocks[owned[upto - 1] as int];
        assert(block.len() == BLOCK_SIZE);
        assert(file_bytes(blocks, part) == before + block);
        assert forall|x: int| 0 <= x < payload.len() && x < upto * BLOCK_SIZE implies file_bytes(
            blocks,
            part,
        )[x] == payload[x] by {
            if x >= (upto - 1) * BLOCK_SIZE {
                let k = upto - 1;
                assert(k < needed_blocks(payload.len())) by {
                    assert(k * BLOCK_SIZE <= x < payload.len());
                    assert(k <= payload.len() / (BLOCK_SIZE as nat)) by (nonlinear_arith)
                        requires
                            0 <= k,
                            k * BLOCK_SIZE < payload.len(),
                            BLOCK_SIZE == 4096,
                    ;
                }
                let c = chunk(payload, k);
                assert(block == overwritten(block, c));
                assert(x - k * BLOCK_SIZE < c.len());
                assert(block[x - k * BLOCK_SIZE] == c[x - k * BLOCK_SIZE]);
            }
        }
    }
}

/// What the blocks of an inode of a consistent volume are like.
pub proof fn lemma_owned(v: Volume, i: u32)
    requires
        v.nodes.contains_key(i),
    ensures
        all_data_pointers(v.owned(i)),
        v.owned(i).len() <= DIRECT_POINTERS,
        blocks_unshared(v.nodes) ==> distinct(v.owned(i)),
        blocks_marked(v.nodes, v.data_map_bits()) ==> all_marked(v.owned(i), v.data_map_bits()),
{
    lemma_data_pointers(v.nodes[i].blocks@);
    let owned = v.nodes[i].owned();
    if blocks_unshared(v.nodes) {
        assert forall|a: int, b: int| 0 <= a < b < owned.len() implies #[trigger] owned[a]
            != #[trigger] owned[b] by {
            assert(v.nodes[i].owned()[a] != v.nodes[i].owned()[b]);
        }
    }
    if blocks_marked(v.nodes, v.data_map_bits()) {
        assert forall|k: int| 0 <= k < owned.len() implies v.data_map_bits()[(#[trigger] owned[k])
            - DATA_START] by {
            assert(v.data_map_bits()[v.nodes[i].owned()[k] - DATA_START]);
        }
    }
}

/// A blank inode owns no block, and each of its pointers is zero.
pub proof fn lemma_blank_owned(mode: u16)
    ensures
        Inode::blank(mode).owned() == Seq::<u32>::empty(),
        forall|s: int| 0 <= s < DIRECT_POINTERS ==> Inode::blank(mode).blocks@[s] == 0,
{
    let none = Seq::<u32>::empty();
    let blank = Inode::blank(mode);
    assert(blank.blocks@ =~= pointers(none));
    lemma_data_pointers_prefix(none, DIRECT_POINTERS as int);
    assert(pointers(none).take(DIRECT_POINTERS as int) =~= pointers(none));
}

/// Storing a payload in a file of a sound and consistent volume.
///
/// The file then starts with the payload, and every other file reads as
/// before. No inode but that of the file changes, and no block outside the
/// data region. The volume stays sound and consistent.
pub proof fn lemma_stored(v: Volume, dir: u32, payload: Seq<u8>)
    requires
        v.sound(),
        v.consistent(),
        v.nodes.contains_key(dir),
        v.stored(dir, payload) is Some,
    ensures
        ({
            let w = v.stored(dir, payload).unwrap();
            &&& w.sound()
            &&& w.consistent()
            &&& w.blocks.len() == v.blocks.len()
            &&& w.inode_map == v.inode_map
            &&& w.super_block == v.super_block
            &&& w.nodes.dom() == v.nodes.dom()
            &&& forall|q: u32| q != dir && v.nodes.contains_key(q) ==> #[trigger] w.nodes[q] == v.nodes[q]
            &&& forall|q: u32| q != dir && v.nodes.contains_key(q) ==> #[trigger] w.file(q) == v.file(q)
            &&& forall|b: int| 0 <= b < DATA_START ==> #[trigger] w.blocks[b] == v.blocks[b]
            &&& w.file(dir).len() >= payload.len()
            &&& w.file(dir).take(payload.len() as int) == payload
        }),
{
    let w = v.stored(dir, payload).unwrap();
    let node = v.nodes[dir];
    let owned = node.owned();
    let needed = needed_blocks(payload.len());
    let bits = v.data_map_bits();
    lemma_owned(v, dir);
    lemma_grow_shape(owned, v.data_map, needed);
    let (all, marked) = grow(owned, v.data_map, needed).unwrap();
    assert(w.blocks == write_chunks(v.blocks, all, payload, needed));
    assert(w.data_map == marked);
    // The inode of the file owns `all` afterwards.
    if owned.len() < needed {
        lemma_with_blocks_owned(node, all);
    }
    assert(w.nodes.dom() =~= v.nodes.dom());
    assert(w.owned(dir) == all);
    assert forall|k: int| 0 <= k < all.len() implies 0 <= #[trigger] all[k] < v.blocks.len() by {
        assert(is_data_pointer(all[k]));
    }
    // The blocks: only those of the file change.
    assert forall|b: int| 0 <= b < v.blocks.len() implies (#[trigger] w.blocks[b]).len() == BLOCK_SIZE
        && w.blocks.len() == v.blocks.len() && ((forall|k: int|
        0 <= k < needed ==> #[trigger] all[k] != b) ==> w.blocks[b] == v.blocks[b]) by {
        lemma_write_chunks_frame(v.blocks, all, payload, needed, b);
    }
    lemma_write_chunks_frame(v.blocks, all, payload, needed, 0);
    assert forall|b: int| 0 <= b < DATA_START implies #[trigger] w.blocks[b] == v.blocks[b] by {
        assert forall|k: int| 0 <= k < needed implies #[trigger] all[k] != b by {
            assert(is_data_pointer(all[k]));
        }
    }
    // The file reads back.
    assert forall|k: int| 0 <= k < needed implies w.blocks[(#[trigger] all[k]) as int]
        == overwritten(w.blocks[all[k] as int], chunk(payload, k)) by {
        lemma_write_chunks_at(v.blocks, all, payload, needed, k);
        let old_block = v.blocks[all[k] as int];
        let c = chunk(payload, k);
        assert(overwritten(overwritten(old_block, c), c) =~= overwritten(old_block, c));
    }
    lemma_read_back(w.blocks, all, payload, all.len() as int);
    assert(all.take(all.len() as int) =~= all);
    let file = w.file(dir);
    assert(file == file_bytes(w.blocks, all));
    assert(file.len() >= payload.len()) by {
        assert(needed * BLOCK_SIZE > payload.len()) by (nonlinear_arith)
            requires
                needed == 1 + payload.len() / (BLOCK_SIZE as nat),
                BLOCK_SIZE == 4096,
        ;
        assert(all.len() * BLOCK_SIZE >= needed * BLOCK_SIZE) by (nonlinear_arith)
            requires
                all.len() >= needed,
        ;
    }
    assert(file.take(payload.len() as int) =~= payload);
    // Every other file lies in blocks that were not written.
    assert forall|q: u32| q != dir && v.nodes.contains_key(q) implies #[trigger] w.file(q) == v.file(
        q,
    ) by {
        lemma_owned(v, q);
        let theirs = v.owned(q);
        assert(w.nodes[q] == v.nodes[q]);
        assert forall|n: int| 0 <= n < theirs.len() implies w.blocks[(#[trigger] theirs[n]) as int]
            == v.blocks[theirs[n] as int] by {
            let b = theirs[n] as int;
            assert(is_data_pointer(theirs[n]));
            assert(bits[v.nodes[q].owned()[n] - DATA_START]);
            assert forall|k: int| 0 <= k < needed implies #[trigger] all[k] != b by {
                if k < owned.len() {
                    assert(all.take(owned.len() as int)[k] == owned[k]);
                    assert(v.nodes[dir].owned()[k] != v.nodes[q].owned()[n]);
                } else {
                    assert(!bits[all[k] - DATA_START]);
                }
            }
        }
        lemma_file_bytes_frame(w.blocks, v.blocks, theirs);
    }
    lemma_stored_consistent(v, dir, payload);
}

/// Storing a payload in a file keeps the volume consistent.
pub proof fn lemma_stored_consistent(v: Volume, dir: u32, payload: Seq<u8>)
    requires
        v.sound(),
        v.consistent(),
        v.nodes.contains_key(dir),
        v.stored(dir, payload) is Some,
    ensures
        v.stored(dir, payload).unwrap().consistent(),
{
    let w = v.stored(dir, payload).unwrap();
    let node = v.nodes[dir];
    let owned = node.owned();
    let needed = needed_blocks(payload.len());
    let bits = v.data_map_bits();
    lemma_owned(v, dir);
    lemma_grow_shape(owned, v.data_map, needed);
    let (all, marked) = grow(owned, v.data_map, needed).unwrap();
    if owned.len() < needed {
        lemma_with_blocks_owned(node, all);
    }
    assert(w.nodes.dom() =~= v.nodes.dom());
    assert(w.owned(dir) == all);
    assert(w.data_map == marked);
    assert(w.inode_map == v.inode_map);
    assert(pointers_in_range(w.nodes)) by {
        assert forall|i: u32, s: int|
            w.nodes.contains_key(i) && 0 <= s < DIRECT_POINTERS implies {
                let p = #[trigger] w.nodes[i].blocks@[s];
                p == 0 || is_data_pointer(p)
            } by {
            if i == dir {
                if owned.len() < needed {
                    if s < all.len() {
                        assert(is_data_pointer(all[s]));
                    }
                } else {
                    let p = v.nodes[dir].blocks@[s];
                    assert(p == 0 || is_data_pointer(p));
                }
            } else {
                assert(w.nodes[i] == v.nodes[i]);
                let p = v.nodes[i].blocks@[s];
                assert(p == 0 || is_data_pointer(p));
            }
        }
    }
    assert(blocks_unshared(w.nodes)) by {
        assert forall|i: u32, a: int, j: u32, b: int|
            w.nodes.contains_key(i) && w.nodes.contains_key(j) && 0 <= a
                < w.nodes[i].owned().len() && 0 <= b < w.nodes[j].owned().len() && (i != j || a
                != b) implies #[trigger] w.nodes[i].owned()[a] != #[trigger] w.nodes[j].owned()[b] by {
            lemma_stored_unshared(v, w, dir, all, i, a, j, b);
        }
    }
    assert(blocks_marked(w.nodes, w.data_map_bits())) by {
        assert forall|i: u32, a: int|
            w.nodes.contains_key(i) && 0 <= a < w.nodes[i].owned().len() implies w.data_map_bits()[(
            #[trigger] w.nodes[i].owned()[a]) - DATA_START] by {
            if i != dir {
                lemma_owned(v, i);
                assert(w.nodes[i] == v.nodes[i]);
                assert(is_data_pointer(v.owned(i)[a]));
                assert(bits[v.nodes[i].owned()[a] - DATA_START]);
            }
        }
    }
    assert(marks_cited(w.nodes, w.data_map_bits())) by {
        assert forall|j: int| 0 <= j < DATA_BLOCKS && #[trigger] w.data_map_bits()[j] implies exists|
            i: u32,
            a: int,
        |
            w.nodes.contains_key(i) && 0 <= a < w.nodes[i].owned().len()
                && #[trigger] w.nodes[i].owned()[a] == DATA_START + j by {
            if bits[j] {
                let (i, a) = choose|i: u32, a: int|
                    v.nodes.contains_key(i) && 0 <= a < v.nodes[i].owned().len()
                        && #[trigger] v.nodes[i].owned()[a] == DATA_START + j;
                if i == dir {
                    assert(all.take(owned.len() as int)[a] == owned[a]);
                    assert(w.nodes[dir].owned()[a] == DATA_START + j);
                } else {
                    assert(w.nodes[i] == v.nodes[i]);
                    assert(w.nodes[i].owned()[a] == DATA_START + j);
                }
            } else {
                let k = choose|k: int|
                    owned.len() <= k < all.len() && #[trigger] all[k] == DATA_START + j;
                assert(w.nodes[dir].owned()[k] == DATA_START + j);
            }
        }
    }
}

/// After a file was given more blocks, still no block is pointed to twice.
proof fn lemma_stored_unshared(
    v: Volume,
    w: Volume,
    dir: u32,
    all: Seq<u32>,
    i: u32,
    a: int,
    j: u32,
    b: int,
)
    requires
        blocks_unshared(v.nodes),
        blocks_marked(v.nodes, v.data_map_bits()),
        v.nodes.contains_key(dir),
        w.nodes.dom() == v.nodes.dom(),
        forall|q: u32| q != dir && v.nodes.contains_key(q) ==> #[trigger] w.nodes[q] == v.nodes[q],
        w.owned(dir) == all,
        v.owned(dir).len() <= all.len(),
        all.take(v.owned(dir).len() as int) == v.owned(dir),
        all_data_pointers(all),
        distinct(all),
        forall|k: int|
            v.owned(dir).len() <= k < all.len() ==> !v.data_map_bits()[(#[trigger] all[k]) - DATA_START],
        w.nodes.contains_key(i),
        w.nodes.contains_key(j),
        0 <= a < w.nodes[i].owned().len(),
        0 <= b < w.nodes[j].owned().len(),
        i != j || a != b,
    ensures
        w.nodes[i].owned()[a] != w.nodes[j].owned()[b],
{
    let owned = v.owned(dir);
    assert(v.nodes.contains_key(i) && v.nodes.contains_key(j));
    if i == dir && j == dir {
        if a < b {
            assert(all[a] != all[b]);
        } else {
            assert(all[b] != all[a]);
        }
    } else if i == dir {
        assert(w.nodes[j] == v.nodes[j]);
        assert(v.data_map_bits()[v.nodes[j].owned()[b] - DATA_START]);
        if a < owned.len() {
            assert(all.take(owned.len() as int)[a] == owned[a]);
            assert(v.nodes[dir].owned()[a] != v.nodes[j].owned()[b]);
        }
    } else if j == dir {
        assert(w.nodes[i] == v.nodes[i]);
        assert(v.data_map_bits()[v.nodes[i].owned()[a] - DATA_START]);
        if b < owned.len() {
            assert(all.take(owned.len() as int)[b] == owned[b]);
            assert(v.nodes[i].owned()[a] != v.nodes[dir].owned()[b]);
        }
    } else {
        assert(w.nodes[i] == v.nodes[i]);
        assert(w.nodes[j] == v.nodes[j]);
        assert(v.nodes[i].owned()[a] != v.nodes[j].owned()[b]);
    }
}

/// Writing the bitmaps and the inode table to the device.
///
/// Nothing in memory changes, and on the device only blocks 1 to 7: every
/// file reads as before. The volume stays sound, and where its superblock
/// is the one in block 0, mounting the device now gives the volume as it
/// is in memory.
pub proof fn lemma_flushed(w: Volume)
    requires
        w.sound(),
    ensures
        ({
            let f = w.flushed();
            &&& f.sound()
            &&& f.nodes == w.nodes
            &&& f.data_map == w.data_map
            &&& f.inode_map == w.inode_map
            &&& f.super_block == w.super_block
            &&& f.consistent() == w.consistent()
            &&& f.blocks.len() == w.blocks.len()
            &&& f.blocks[SUPERBLOCK_INDEX as int] == w.blocks[SUPERBLOCK_INDEX as int]
            &&& forall|b: int| DATA_START <= b < w.blocks.len() ==> #[trigger] f.blocks[b] == w.blocks[b]
            &&& forall|q: u32| w.nodes.contains_key(q) ==> #[trigger] f.file(q) == w.file(q)
            &&& w.super_block == SuperBlock::decode(w.blocks[SUPERBLOCK_INDEX as int]) ==> f.durable()
        }),
{
    let f = w.flushed();
    let base = w.blocks.update(DATA_REGION_BMP as int, w.data_map).update(
        INODE_BMP as int,
        w.inode_map,
    );
    assert forall|b: int| 0 <= b < w.blocks.len() implies f.blocks.len() == w.blocks.len()
        && #[trigger] f.blocks[b] == if INODE_START <= b < INODE_START + INODE_BLOCKS {
        table_block(w.nodes, (b - INODE_START) as u32)
    } else {
        base[b]
    } by {
        lemma_write_table(base, w.nodes, INODE_BLOCKS as nat, b);
    }
    lemma_write_table(base, w.nodes, INODE_BLOCKS as nat, 0);
    assert forall|b: int| 0 <= b < f.blocks.len() implies (#[trigger] f.blocks[b]).len()
        == BLOCK_SIZE by {
        if INODE_START <= b < INODE_START + INODE_BLOCKS {
            lemma_slots_len(w.nodes, ((b - INODE_START) * NODES_PER_BLOCK) as u32, 16);
        }
    }
    assert forall|q: u32| w.nodes.contains_key(q) implies #[trigger] f.file(q) == w.file(q) by {
        lemma_owned(w, q);
        let theirs = w.owned(q);
        assert forall|n: int| 0 <= n < theirs.len() implies f.blocks[(#[trigger] theirs[n]) as int]
            == w.blocks[theirs[n] as int] by {
            assert(is_data_pointer(theirs[n]));
        }
        lemma_file_bytes_frame(f.blocks, w.blocks, theirs);
    }
    if w.super_block == SuperBlock::decode(w.blocks[SUPERBLOCK_INDEX as int]) {
        let m = Volume::mounted(f.blocks);
        assert forall|i: u32| #[trigger] m.nodes.contains_key(i) == w.nodes.contains_key(i) by {
            lemma_table_nodes(f.blocks, INODE_BLOCKS as nat, i);
        }
        assert(m.nodes.dom() =~= w.nodes.dom());
        assert forall|i: u32| w.nodes.contains_key(i) implies #[trigger] m.nodes[i] == w.nodes[i] by {
            lemma_table_nodes(f.blocks, INODE_BLOCKS as nat, i);
            let t = (i / NODES_PER_BLOCK) as u32;
            assert(f.blocks[INODE_START + t] == table_block(w.nodes, t));
            lemma_slots_at(w.nodes, (t * NODES_PER_BLOCK) as u32, 16, (i % NODES_PER_BLOCK) as int);
            assert(slot_bytes(f.blocks[INODE_START + t], i) == slot(w.nodes, i));
            w.nodes[i].lemma_round_trip();
        }
        assert(m.nodes =~= w.nodes);
        assert(m == f);
    }
}

/// Creating a file in a directory of a sound and consistent volume.
///
/// The file gets an inumber that had no inode, and a blank inode. The
/// directory lists the file after the entries it had. No other inode
/// changes, and every other file reads as before. The volume stays sound
/// and consistent, and where mounting the device gave the volume before,
/// it does so afterwards.
pub proof fn lemma_creation(v: Volume, parent: u32, name: Seq<u8>)
    requires
        v.sound(),
        v.consistent(),
        v.nodes.contains_key(parent),
        storable(name),
        v.creation(parent, name) is Some,
    ensures
        ({
            let (after, inum) = v.creation(parent, name).unwrap();
            &&& after.sound()
            &&& after.consistent()
            &&& v.durable() ==> after.durable()
            &&& after.super_block == v.super_block
            &&& inum < INODE_COUNT
            &&& inum != parent
            &&& !v.nodes.contains_key(inum)
            &&& after.nodes.dom() == v.nodes.dom().insert(inum)
            &&& after.nodes[inum] == Inode::blank(DEFAULT_MODE)
            &&& v.listing(parent) is Some
            &&& after.listing(parent) == Some(v.listing(parent).unwrap().push((name, inum)))
            &&& forall|q: u32|
                q != parent && v.nodes.contains_key(q) ==> #[trigger] after.nodes[q] == v.nodes[q]
            &&& forall|q: u32|
                q != parent && v.nodes.contains_key(q) ==> #[trigger] after.file(q) == v.file(q)
        }),
{
    let (after, inum) = v.creation(parent, name).unwrap();
    let i = first_free(v.inode_map_bits(), 0, INODE_COUNT as int).unwrap();
    let list = v.listing(parent).unwrap();
    lemma_first_free(v.inode_map_bits(), 0, INODE_COUNT as int);
    lemma_with_bit(v.inode_map, i, true);
    lemma_blank_owned(DEFAULT_MODE);
    let blank = Inode::blank(DEFAULT_MODE);
    let with_file = Volume {
        nodes: v.nodes.insert(inum, blank),
        inode_map: with_bit(v.inode_map, i, true),
        ..v
    };
    let payload = payload_of(list.push((name, inum)));
    // The volume with the new inode is sound and consistent.
    assert(with_file.sound());
    assert(pointers_in_range(with_file.nodes)) by {
        assert forall|n: u32, s: int|
            with_file.nodes.contains_key(n) && 0 <= s < DIRECT_POINTERS implies {
                let p = #[trigger] with_file.nodes[n].blocks@[s];
                p == 0 || is_data_pointer(p)
            } by {
            if n != inum {
                let p = v.nodes[n].blocks@[s];
                assert(p == 0 || is_data_pointer(p));
            }
        }
    }
    assert(blocks_unshared(with_file.nodes)) by {
        assert forall|n: u32, a: int, m: u32, b: int|
            with_file.nodes.contains_key(n) && with_file.nodes.contains_key(m) && 0 <= a
                < with_file.nodes[n].owned().len() && 0 <= b < with_file.nodes[m].owned().len() && (n
                != m || a != b) implies #[trigger] with_file.nodes[n].owned()[a]
            != #[trigger] with_file.nodes[m].owned()[b] by {
            assert(v.nodes[n].owned()[a] != v.nodes[m].owned()[b]);
        }
    }
    assert(blocks_marked(with_file.nodes, with_file.data_map_bits())) by {
        assert forall|n: u32, a: int|
            with_file.nodes.contains_key(n) && 0 <= a < with_file.nodes[n].owned().len() implies with_file.data_map_bits()[(
            #[trigger] with_file.nodes[n].owned()[a]) - DATA_START] by {
            assert(v.data_map_bits()[v.nodes[n].owned()[a] - DATA_START]);
        }
    }
    assert(marks_cited(with_file.nodes, with_file.data_map_bits())) by {
        assert forall|j: int|
            0 <= j < DATA_BLOCKS && #[trigger] with_file.data_map_bits()[j] implies exists|
            n: u32,
            a: int,
        |
            with_file.nodes.contains_key(n) && 0 <= a < with_file.nodes[n].owned().len()
                && #[trigger] with_file.nodes[n].owned()[a] == DATA_START + j by {
            let (n, a) = choose|n: u32, a: int|
                v.nodes.contains_key(n) && 0 <= a < v.nodes[n].owned().len()
                    && #[trigger] v.nodes[n].owned()[a] == DATA_START + j;
            assert(with_file.nodes[n].owned()[a] == DATA_START + j);
        }
    }
    assert(with_file.consistent());
    // Every file reads the same with the new inode.
    assert(with_file.file(parent) == v.file(parent));
    let stored = with_file.stored(parent, payload).unwrap();
    lemma_stored(with_file, parent, payload);
    lemma_flushed(stored);
    assert(after == stored.flushed());
    assert(after.nodes.dom() =~= v.nodes.dom().insert(inum));
    // The directory reads back with its new entry.
    lemma_parsed_storable(v.file(parent));
    let entries = list.push((name, inum));
    assert(all_storable(entries));
    let file = after.file(parent);
    lemma_listing_round_trip(entries, file.skip(payload.len() as int));
    assert(file =~= payload + file.skip(payload.len() as int));
    // Every other file reads as before.
    assert forall|q: u32| q != parent && v.nodes.contains_key(q) implies #[trigger] after.file(q)
        == v.file(q) by {
        assert(stored.file(q) == with_file.file(q));
        assert(with_file.file(q) == v.file(q));
    }
    if v.durable() {
        assert(stored.blocks[SUPERBLOCK_INDEX as int] == v.blocks[SUPERBLOCK_INDEX as int]);
    }
}

/// Opening the same path again finds the file that was created: where a
/// walk ended at a vacant name and the file was created there, the same
/// walk in the volume as it is afterwards finds the new inumber.
pub proof fn lemma_walk_after_creation(
    v: Volume,
    parent: u32,
    name: Seq<u8>,
    cur: u32,
    names: Seq<Seq<u8>>,
)
    requires
        v.sound(),
        v.consistent(),
        storable(name),
        v.walk(cur, names) == Lookup::Vacant(parent, name),
        v.creation(parent, name) is Some,
    ensures
        v.nodes.contains_key(parent),
        v.creation(parent, name).unwrap().0.walk(cur, names) == Lookup::Found(
            v.creation(parent, name).unwrap().1,
        ),
    decreases names.len(),
{
    let (after, inum) = v.creation(parent, name).unwrap();
    assert(names.len() > 0);
    assert(v.nodes.contains_key(cur));
    let list = v.listing(cur).unwrap();
    let first = names[0];
    if mapping(list).contains_key(first) {
        let next = mapping(list)[first];
        lemma_walk_after_creation(v, parent, name, next, names.skip(1));
        lemma_creation(v, parent, name);
        assert(after.nodes.contains_key(cur));
        if cur == parent {
            // The name that was vacant at the end of the walk is not `first`.
            lemma_vacant_is_vacant(v, parent, name, next, names.skip(1));
            assert(first != name);
            let entries = list.push((name, inum));
            assert(entries.drop_last() =~= list);
            assert(entries.last() == (name, inum));
            assert(mapping(entries) == mapping(list).insert(name, inum));
            assert(after.listing(cur) == Some(entries));
            assert(mapping(entries).contains_key(first) && mapping(entries)[first] == next);
            assert(after.walk(cur, names) == after.walk(next, names.skip(1)));
        } else {
            assert(after.file(cur) == v.file(cur));
            assert(after.listing(cur) == Some(list));
            assert(after.walk(cur, names) == after.walk(next, names.skip(1)));
        }
    } else {
        assert(cur == parent && first == name && names.len() == 1);
        lemma_creation(v, parent, name);
        let entries = list.push((name, inum));
        assert(entries.drop_last() =~= list);
        assert(entries.last() == (name, inum));
        assert(mapping(entries) == mapping(list).insert(name, inum));
        assert(after.nodes.contains_key(cur));
        assert(after.listing(cur) == Some(entries));
        assert(names.skip(1).len() == 0);
        assert(after.walk(cur, names) == after.walk(inum, names.skip(1)));
        assert(after.walk(inum, names.skip(1)) == Lookup::Found(inum));
    }
}

/// A walk that ends at a vacant name ends in a directory that is there,
/// can be read, and has no entry for the name.
pub proof fn lemma_vacant_is_vacant(
    v: Volume,
    parent: u32,
    name: Seq<u8>,
    cur: u32,
    names: Seq<Seq<u8>>,
)
    requires
        v.walk(cur, names) == Lookup::Vacant(parent, name),
    ensures
        v.nodes.contains_key(parent),
        v.listing(parent) is Some,
        !mapping(v.listing(parent).unwrap()).contains_key(name),
    decreases names.len(),
{
    let list = v.listing(cur).unwrap();
    if mapping(list).contains_key(names[0]) {
        lemma_vacant_is_vacant(v, parent, name, mapping(list)[names[0]], names.skip(1));
    }
}

/// Creation is idempotent within a session: where opening a path with
/// `create` gave a file, opening the same path again, with `create` or
/// without, gives the same inumber and changes nothing. The volume is
/// consistent after the first call as it was before, and where mounting
/// the device gave the volume before, it does so afterwards.
pub proof fn lemma_open_again(v: Volume, path: Seq<u8>, create: bool)
    requires
        v.sound(),
        v.consistent(),
        parse_path_spec(path) is Some,
        v.open(parse_path_spec(path).unwrap(), true).0 is File,
    ensures
        ({
            let names = parse_path_spec(path).unwrap();
            let (opened, after) = v.open(names, true);
            &&& after.open(names, create) == (opened, after)
            &&& after.sound()
            &&& after.consistent()
            &&& v.durable() ==> after.durable()
        }),
{
    let names = parse_path_spec(path).unwrap();
    match v.walk(0, names) {
        Lookup::Vacant(parent, name) => {
            lemma_vacant_names(v, parent, name, 0, names);
            assert(permitted(names[names.len() - 1]));
            lemma_walk_after_creation(v, parent, name, 0, names);
            lemma_creation(v, parent, name);
        },
        _ => {},
    }
}

/// The name at which a walk ends vacant is the last name of the path.
pub proof fn lemma_vacant_names(
    v: Volume,
    parent: u32,
    name: Seq<u8>,
    cur: u32,
    names: Seq<Seq<u8>>,
)
    requires
        v.walk(cur, names) == Lookup::Vacant(parent, name),
    ensures
        names.len() > 0,
        name == names.last(),
    decreases names.len(),
{
    let list = v.listing(cur).unwrap();
    if mapping(list).contains_key(names[0]) {
        lemma_vacant_names(v, parent, name, mapping(list)[names[0]], names.skip(1));
        assert(names.skip(1).last() == names.last());
    }
}

/// The first file of a fresh volume: opening a path of one name with
/// `create` right after formatting makes the file at inumber 1, whatever
/// the device held before, as long as the name fits into 15 blocks. Without
/// `create` the file is absent, and the root is found at inumber 0.
pub proof fn lemma_first_file(blocks: Seq<Seq<u8>>, name: Seq<u8>)
    requires
        blocks.len() >= TOTAL_BLOCKS,
        well_formed(blocks),
        name.len() + 16 < DIRECT_POINTERS * BLOCK_SIZE,
    ensures
        Volume::formatted(blocks).open(Seq::empty(), false).0 == Opened::File(0),
        Volume::formatted(blocks).open(seq![name], false).0 == Opened::Absent,
        Volume::formatted(blocks).open(seq![name], true).0 == Opened::File(1),
{
    let v = Volume::formatted(blocks);
    let names = seq![name];
    let none = Seq::<(Seq<u8>, u32)>::empty();
    // The root directory owns no block, so it lists nothing.
    lemma_blank_owned(ROOT_DEFAULT_MODE);
    assert(v.file(0) =~= Seq::<u8>::empty());
    assert(content(v.file(0)) =~= Seq::<u8>::empty());
    assert(v.listing(0) == Some(none));
    assert(v.walk(0, names) == Lookup::Vacant(0, name));
    // Inumber 1 is the lowest free one.
    lemma_zero_bits(BLOCK_SIZE as nat);
    lemma_with_bit(codec::zeros(BLOCK_SIZE as nat), 0, true);
    let bits = v.inode_map_bits();
    assert(bits[0] && !bits[1]);
    assert(first_free(bits, 1, INODE_COUNT as int) == Some(1int));
    assert(first_free(bits, 0, INODE_COUNT as int) == Some(1int));
    // The directory with its one entry takes one block, the first that is
    // free.
    let entry = (name, 1u32);
    let list = none.push(entry);
    let payload = payload_of(list);
    assert(list.drop_last() =~= none);
    assert(crate::text::decimal(1) =~= seq![49u8]);
    assert(lines_of(none) =~= Seq::<u8>::empty());
    assert(list.last() == entry);
    assert(lines_of(list) =~= entry_text(entry) + seq![NEWLINE]);
    assert(payload.len() == name.len() + 4);
    let with_file = Volume {
        nodes: v.nodes.insert(1, Inode::blank(DEFAULT_MODE)),
        inode_map: with_bit(v.inode_map, 1, true),
        ..v
    };
    assert(with_file.nodes[0].owned() =~= Seq::<u32>::empty());
    let needed = needed_blocks(payload.len());
    assert(needed <= DIRECT_POINTERS);
    assert(needed >= 1);
    lemma_room_in_empty_region(needed);
    assert(with_file.stored(0, payload) is Some);
}

/// An empty data region has room for a file of up to 15 blocks.
proof fn lemma_room_in_empty_region(needed: nat)
    requires
        needed <= DIRECT_POINTERS,
    ensures
        grow(Seq::empty(), codec::zeros(BLOCK_SIZE as nat), needed) is Some,
{
    lemma_zero_bits(BLOCK_SIZE as nat);
    lemma_grow_from(Seq::empty(), codec::zeros(BLOCK_SIZE as nat), needed);
}

/// The data region has room while its first blocks are taken in order: a
/// file that owns the first `n` blocks of an otherwise free region can grow
/// to any number of blocks that the region has.
proof fn lemma_grow_from(owned: Seq<u32>, map: Seq<u8>, needed: nat)
    requires
        map.len() == BLOCK_SIZE,
        needed <= DATA_BLOCKS,
        forall|j: int| owned.len() <= j < DATA_BLOCKS ==> !bits_of(map)[j],
        forall|j: int| 0 <= j < owned.len() && j < DATA_BLOCKS ==> bits_of(map)[j],
    ensures
        grow(owned, map, needed) is Some,
    decreases needed - owned.len(),
{
    if owned.len() < needed {
        let bits = bits_of(map);
        let j = owned.len() as int;
        crate::allocation::lemma_first_free_unique(bits, 0, DATA_BLOCKS as int, j);
        lemma_with_bit(map, j, true);
        lemma_grow_from(owned.push((DATA_START + j) as u32), with_bit(map, j, true), needed);
    }
}

} // verus!
