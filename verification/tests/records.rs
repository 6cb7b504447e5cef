use simplefs::allocation::{Bitmap, NextAvailableAllocation, State};
use simplefs::node::{Inode, InodeGroup};
use simplefs::sb::SuperBlock;
use zerocopy::AsBytes;

const TEST_MAGIC: u32 = 0x4EEE; // non-zero superblock value.

#[test]
fn can_encode_and_decode_superblocks() {
    let mut sb = SuperBlock::new();
    sb.sb_magic = TEST_MAGIC; // non-zero superblock value.
    sb.inodes_count = 5;
    sb.blocks_count = 56;
    let encoded = sb.serialize();

    let parsed = SuperBlock::parse(&encoded, TEST_MAGIC);

    assert_eq!(parsed, sb);
}

#[test]
fn can_serialize_and_deserialize_state() {
    let mut bmp = Bitmap::new();
    bmp.set_reserved(10);
    bmp.set_reserved(11);
    bmp.set_reserved(12);

    let read_bmp = Bitmap::parse(bmp.serialize());
    bmp.serialize()
        .iter()
        .zip(read_bmp.serialize().iter())
        .all(|(a, b)| {
            assert_eq!(a, b);
            true
        });
}

#[test]
fn can_serialize_and_deserialize_inode() {
    let mut root = Inode::root();
    // Change some values.
    root.uid = 100;
    root.gid = 100;

    let parsed_root = Inode::parse(&root.clone().serialize());

    assert_eq!(root.uid, parsed_root.uid);
    assert_eq!(root.gid, parsed_root.gid);
}

#[test]
fn superblock_is_seven_little_endian_words() {
    let sb = SuperBlock {
        sb_magic: 0x5346_5342,
        inodes_count: 80,
        blocks_count: 56,
        reserved_blocks_count: 0x0102_0304,
        free_blocks_count: 0xFFFF_FFFF,
        free_inodes_count: 79,
        free_list: 0x8000_0001,
    };
    let bytes = sb.serialize();
    assert_eq!(
        bytes,
        vec![
            0x42, 0x53, 0x46, 0x53, 80, 0, 0, 0, 56, 0, 0, 0, 4, 3, 2, 1, 0xFF, 0xFF, 0xFF,
            0xFF, 79, 0, 0, 0, 1, 0, 0, 0x80
        ]
    );
    assert_eq!(SuperBlock::parse(&bytes, 0x5346_5342), sb);
}

#[test]
fn default_superblock_is_that_of_a_new_volume() {
    let sb = SuperBlock::default();
    assert_eq!(sb.sb_magic, 0x5346_5342);
    assert_eq!(sb.inodes_count, 80);
    assert_eq!(sb.blocks_count, 56);
    assert_eq!(sb.reserved_blocks_count, 0);
    assert_eq!(sb.free_blocks_count, 0);
    assert_eq!(sb.free_inodes_count, 80);
    assert_eq!(sb.free_list, 0);
    assert_eq!(SuperBlock::new().sb_magic, 0);
}

// On a little-endian machine the records lie in memory as they lie on disk.
fn little_endian() -> bool {
    u16::from_ne_bytes([1, 0]) == 1
}

#[test]
fn superblock_bytes_are_its_words_in_memory() {
    if !little_endian() {
        return;
    }
    let sb = SuperBlock {
        sb_magic: 0x5346_5342,
        inodes_count: 80,
        blocks_count: 56,
        reserved_blocks_count: 7,
        free_blocks_count: 0xDEAD_BEEF,
        free_inodes_count: 79,
        free_list: 12,
    };
    let words: [u32; 7] = [0x5346_5342, 80, 56, 7, 0xDEAD_BEEF, 79, 12];
    assert_eq!(sb.serialize().as_slice(), words.as_bytes());
}

#[test]
fn bitmap_bytes_are_its_words_in_memory() {
    if !little_endian() {
        return;
    }
    let mut bmp = Bitmap::new();
    let mut words = [0u64; 512];
    for i in [0usize, 7, 8, 63, 64, 4095, 32766] {
        bmp.set_reserved(i);
        words[i / 64] |= 1u64 << (i % 64);
    }
    assert_eq!(bmp.serialize(), words.as_bytes());
}

#[test]
fn inode_bytes_are_its_fields_in_memory() {
    if !little_endian() {
        return;
    }
    let mut node = Inode::default();
    node.uid = 0x0102;
    node.gid = 0x0304;
    node.links_count = 2;
    node.size = 0x0A0B_0C0D;
    node.create_time = 1;
    node.update_time = 2;
    node.access_time = 3;
    node.padding[0] = 0x1111_2222;
    node.padding[42] = 0x3333_4444;
    node.blocks[0] = 8;
    node.blocks[14] = 63;
    let bytes = node.serialize();
    assert_eq!(bytes.len(), 256);
    let halves: [u16; 4] = [node.mode, node.uid, node.gid, node.links_count];
    let words: [u32; 4] = [node.size, node.create_time, node.update_time, node.access_time];
    assert_eq!(&bytes[0..8], halves.as_bytes());
    assert_eq!(&bytes[8..24], words.as_bytes());
    assert_eq!(&bytes[24..196], node.padding.as_bytes());
    assert_eq!(&bytes[196..256], node.blocks.as_bytes());

    let parsed = Inode::parse(&bytes);
    assert_eq!(parsed.mode, 0x2000);
    assert_eq!(parsed.uid, 0x0102);
    assert_eq!(parsed.size, 0x0A0B_0C0D);
    assert_eq!(parsed.padding, node.padding);
    assert_eq!(parsed.blocks, node.blocks);
}

#[test]
fn bitmap_bit_lies_in_byte_i_div_8_at_position_i_mod_8() {
    let mut bmp = Bitmap::new();
    bmp.set_reserved(0);
    bmp.set_reserved(9);
    bmp.set_reserved(4095);
    let bytes = bmp.serialize();
    assert_eq!(bytes.len(), 4096);
    assert_eq!(bytes[0], 0b0000_0001);
    assert_eq!(bytes[1], 0b0000_0010);
    assert_eq!(bytes[511], 0b1000_0000);
    assert_eq!(bmp.get(4094), State::Free);
    assert_eq!(bmp.get(1), State::Free);
    assert_eq!(bmp.get(8), State::Free);
}

#[test]
fn freeing_an_entry_leaves_its_neighbours() {
    let mut bmp = Bitmap::new();
    for i in 60..70 {
        bmp.set_reserved(i);
    }
    bmp.set_free(64);
    bmp.set_free(64);
    for i in 60..70 {
        let expected = if i == 64 { State::Free } else { State::Used };
        assert_eq!(bmp.get(i), expected);
    }
    bmp.set_reserved(61);
    assert_eq!(bmp.get(61), State::Used);
}

#[test]
fn allocator_hands_out_each_free_entry_once_in_order() {
    let mut bmp = Bitmap::new();
    bmp.set_reserved(0);
    bmp.set_reserved(2);
    bmp.set_reserved(3);
    let mut alloc = NextAvailableAllocation::new(bmp, Some(6));
    assert_eq!(alloc.next(), Some(1));
    assert_eq!(alloc.next(), Some(4));
    assert_eq!(alloc.next(), Some(5));
    assert_eq!(alloc.next(), None);
    assert_eq!(alloc.next(), None);
}

#[test]
fn allocator_without_cap_stops_at_512() {
    let mut bmp = Bitmap::new();
    for i in 0..511 {
        bmp.set_reserved(i);
    }
    let mut alloc = NextAvailableAllocation::new(bmp, None);
    assert_eq!(alloc.next(), Some(511));
    assert_eq!(alloc.next(), None);
}

#[test]
fn new_group_holds_the_root_directory() {
    let group = InodeGroup::new(Bitmap::new());
    assert_eq!(group.total_nodes(), 1);
    assert_eq!(group.get(0).unwrap().mode, 0x4000);
    assert_eq!(group.allocations().get(0), State::Used);
    assert_eq!(group.allocations().get(1), State::Free);
    assert!(group.get(1).is_none());
}

#[test]
fn new_file_takes_the_lowest_free_inumber() {
    let mut bmp = Bitmap::new();
    bmp.set_reserved(1);
    bmp.set_reserved(2);
    let mut group = InodeGroup::new(bmp);
    assert_eq!(group.next_free(), Some(3));
    assert_eq!(group.new_file(), 3);
    assert_eq!(group.get(3).unwrap().mode, 0x2000);
    assert_eq!(group.allocations().get(3), State::Used);
    assert_eq!(group.new_file(), 4);
    assert_eq!(group.total_nodes(), 3);
    assert_eq!(group.get_disk_block(4), 0);
    assert_eq!(group.get_disk_block(16), 1);
    assert_eq!(group.get_disk_block(79), 4);
}

#[test]
fn table_block_round_trips_through_load_block() {
    let mut group = InodeGroup::new(Bitmap::new());
    let mut node = Inode::default();
    node.uid = 7;
    node.blocks[3] = 42;
    assert_eq!(group.insert(17, node), 1);
    let mut other = Inode::default();
    other.gid = 9;
    assert_eq!(group.insert(31, other), 1);

    let block0 = group.serialize_block(0);
    let block1 = group.serialize_block(1);
    assert_eq!(block0.len(), 4096);
    assert_eq!(block1.len(), 4096);
    // Inode 17 lies in slot 1 of block 1, inode 31 in slot 15.
    assert_eq!(&block1[256..258], &[0x00, 0x20]);
    assert_eq!(&block1[256 + 2..256 + 4], &[7, 0]);
    assert_eq!(&block1[15 * 256 + 4..15 * 256 + 6], &[9, 0]);
    assert!(block1[..256].iter().all(|b| *b == 0));
    assert!(block1[2 * 256..15 * 256].iter().all(|b| *b == 0));

    let mut loaded = InodeGroup::open(*group.allocations());
    assert_eq!(loaded.total_nodes(), 0);
    loaded.load_block(0, &block0);
    assert_eq!(loaded.total_nodes(), 1);
    loaded.load_block(1, &block1);
    assert_eq!(loaded.total_nodes(), 3);
    assert_eq!(loaded.get(17).unwrap().uid, 7);
    assert_eq!(loaded.get(17).unwrap().blocks[3], 42);
    assert_eq!(loaded.get(31).unwrap().gid, 9);
    assert_eq!(loaded.get(0).unwrap().mode, 0x4000);
}

#[test]
fn load_block_passes_over_slots_whose_bit_is_clear() {
    let mut group = InodeGroup::new(Bitmap::new());
    group.insert(1, Inode::default());
    let block0 = group.serialize_block(0);
    // A bitmap that knows only the root.
    let mut only_root = Bitmap::new();
    only_root.set_reserved(0);
    let mut loaded = InodeGroup::open(only_root);
    loaded.load_block(0, &block0);
    assert_eq!(loaded.total_nodes(), 1);
    assert!(loaded.get(1).is_none());
}

#[test]
fn replace_changes_only_an_inode_that_is_there() {
    let mut group = InodeGroup::new(Bitmap::new());
    let mut node = Inode::root();
    node.blocks[0] = 8;
    assert_eq!(group.replace(0, node).unwrap().blocks[0], 0);
    assert_eq!(group.get(0).unwrap().blocks[0], 8);
    assert!(group.replace(5, node).is_none());
    assert_eq!(group.total_nodes(), 1);
    assert_eq!(group.allocations().get(5), State::Free);
}
