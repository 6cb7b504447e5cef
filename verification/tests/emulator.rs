use simplefs::io::emulator::{medium_len, read_span, write_span};
use simplefs::io::{BlockError, BlockStorage, FileBlockEmulator, FileBlockEmulatorBuilder};

#[test]
fn file_emulator_allocates_correct_num_bytes() {
    let fs_block: Vec<u8> = Vec::new();
    let mut disk_emu = FileBlockEmulatorBuilder::from(fs_block)
        .with_block_size(4)
        .build()
        .expect("failed to allocate file block");
    disk_emu.sync_disk().unwrap();
    assert_eq!(disk_emu.into_file().len(), 4 * 4096);
}

#[test]
fn can_read_and_write_blocks() {
    let fs_block: Vec<u8> = Vec::new();
    let mut disk_emu = FileBlockEmulatorBuilder::from(fs_block)
        .with_block_size(4)
        .build()
        .expect("failed to allocate file block");
    disk_emu.sync_disk().unwrap();

    // Allocate a block with a non-zero character.
    let mut block = vec![0x55; 4096];
    disk_emu.write_block(2, block.as_mut_slice()).unwrap();
    disk_emu.sync_disk().unwrap();

    let mut read_block = vec![0x00; 4096];
    // Read a different block.
    disk_emu.read_block(3, read_block.as_mut_slice()).unwrap();
    assert_eq!(read_block, vec![0x00; 4096]);

    // Read the block with data.
    let mut filled_block = vec![0x00; 4096];
    disk_emu.read_block(2, filled_block.as_mut_slice()).unwrap();
    assert_eq!(filled_block, vec![0x55; 4096]);
}

#[test]
fn can_read_and_write_start_and_end_blocks() {
    let fs_block: Vec<u8> = Vec::new();
    let mut disk_emu = FileBlockEmulatorBuilder::from(fs_block)
        .with_block_size(2)
        .build()
        .expect("failed to allocate file block");
    disk_emu.sync_disk().unwrap();

    let mut block = vec![0x55; 4096];
    disk_emu.write_block(0, block.as_mut_slice()).unwrap();
    disk_emu.sync_disk().unwrap();

    let mut read_block = vec![0x00; 4096];
    disk_emu.read_block(0, read_block.as_mut_slice()).unwrap();
    assert_eq!(read_block, vec![0x55; 4096]);

    // Allocate a block with a non-zero character.
    let mut block = vec![0x55; 4096];
    disk_emu.write_block(1, block.as_mut_slice()).unwrap();
    disk_emu.sync_disk().unwrap();

    let mut read_block = vec![0x00; 4096];
    // Read a different block.
    disk_emu.read_block(1, read_block.as_mut_slice()).unwrap();
    assert_eq!(read_block, vec![0x55; 4096]);
}

#[test]
fn read_block_beyond_range_throws_exception() {
    let fs_block: Vec<u8> = Vec::new();
    let mut disk_emu = FileBlockEmulatorBuilder::from(fs_block)
        .with_block_size(1)
        .build()
        .expect("failed to allocate file block");
    disk_emu.sync_disk().unwrap();

    // Attempt to write beyond range.
    let mut block = vec![0x55; 4096];
    let wresult = disk_emu.write_block(1, block.as_mut_slice());
    if wresult.is_ok() {
        panic!("expected an error, got result instead")
    }
}

#[test]
fn writing_to_block_with_block_size_lt_max_succeeds() {
    let fs_block: Vec<u8> = Vec::new();
    let mut disk_emu = FileBlockEmulatorBuilder::from(fs_block)
        .with_block_size(1)
        .build()
        .expect("failed to allocate file block");
    disk_emu.sync_disk().unwrap();

    // Fill half the block with meaningful data.
    let mut block = vec![0x55; 2048];
    disk_emu
        .write_block(0, block.as_mut_slice())
        .expect("failed to write block");
    disk_emu.sync_disk().unwrap();
}

#[test]
fn emulator_file_emulator_allocates_correct_num_bytes() {
    let fs_block: Vec<u8> = Vec::new();
    let mut disk_emu = FileBlockEmulatorBuilder::from(fs_block)
        .with_block_size(4)
        .build()
        .expect("failed to allocate file block");
    disk_emu.sync_disk().unwrap();
    assert_eq!(disk_emu.into_file().len(), 4 * 4096);
}

#[test]
fn emulator_can_read_and_write_blocks() {
    let fs_block: Vec<u8> = Vec::new();
    let mut disk_emu = FileBlockEmulatorBuilder::from(fs_block)
        .with_block_size(4)
        .build()
        .expect("failed to allocate file block");
    disk_emu.sync_disk().unwrap();

    // Allocate a block with a non-zero character.
    let mut block = vec![0x55; 4096];
    disk_emu.write_block(2, block.as_mut_slice()).unwrap();
    disk_emu.sync_disk().unwrap();

    let mut read_block = vec![0x00; 4096];
    // Read a different block.
    disk_emu.read_block(3, read_block.as_mut_slice()).unwrap();
    assert_eq!(read_block, vec![0x00; 4096]);

    // Read the block with data.
    let mut filled_block = vec![0x00; 4096];
    disk_emu.read_block(2, filled_block.as_mut_slice()).unwrap();
    assert_eq!(filled_block, vec![0x55; 4096]);
}

#[test]
fn emulator_can_read_and_write_start_and_end_blocks() {
    let fs_block: Vec<u8> = Vec::new();
    let mut disk_emu = FileBlockEmulatorBuilder::from(fs_block)
        .with_block_size(2)
        .build()
        .expect("failed to allocate file block");
    disk_emu.sync_disk().unwrap();

    let mut block = vec![0x55; 4096];
    disk_emu.write_block(0, block.as_mut_slice()).unwrap();
    disk_emu.sync_disk().unwrap();

    let mut read_block = vec![0x00; 4096];
    disk_emu.read_block(0, read_block.as_mut_slice()).unwrap();
    assert_eq!(read_block, vec![0x55; 4096]);

    let mut block = vec![0x55; 4096];
    disk_emu.write_block(1, block.as_mut_slice()).unwrap();
    disk_emu.sync_disk().unwrap();

    let mut read_block = vec![0x00; 4096];
    disk_emu.read_block(1, read_block.as_mut_slice()).unwrap();
    assert_eq!(read_block, vec![0x55; 4096]);
}

#[test]
fn emulator_read_block_beyond_range_throws_exception() {
    let fs_block: Vec<u8> = Vec::new();
    let mut disk_emu = FileBlockEmulatorBuilder::from(fs_block)
        .with_block_size(1)
        .build()
        .expect("failed to allocate file block");
    disk_emu.sync_disk().unwrap();

    // Attempt to write beyond range.
    let mut block = vec![0x55; 4096];
    let wresult = disk_emu.write_block(1, block.as_mut_slice());
    match wresult {
        Ok(_) => assert!(false, "expected an error"),
        Err(_) => (),
    }
}

fn one_block() -> FileBlockEmulator {
    FileBlockEmulatorBuilder::from(Vec::new())
        .with_block_size(1)
        .build()
        .unwrap()
}

#[test]
fn range_guard_leaves_the_medium_alone() {
    let mut disk_emu = one_block();
    let mut block = vec![0x55; 4096];
    assert!(matches!(
        disk_emu.write_block(1, block.as_mut_slice()),
        Err(BlockError::OutOfRange)
    ));
    let medium = disk_emu.into_file();
    assert_eq!(medium.len(), 4096);
    assert_eq!(medium, vec![0u8; 4096]);
}

#[test]
fn read_beyond_range_leaves_the_buffer_alone() {
    let mut disk_emu = one_block();
    let mut buf = vec![0x11; 4096];
    assert!(matches!(
        disk_emu.read_block(7, buf.as_mut_slice()),
        Err(BlockError::OutOfRange)
    ));
    assert_eq!(buf, vec![0x11; 4096]);
}

#[test]
fn read_into_short_buffer_is_refused() {
    let mut disk_emu = one_block();
    let mut buf = vec![0x11; 4095];
    assert!(matches!(
        disk_emu.read_block(0, buf.as_mut_slice()),
        Err(BlockError::BufferTooSmall)
    ));
    assert_eq!(buf, vec![0x11; 4095]);
    // The range is checked first.
    assert!(matches!(
        disk_emu.read_block(1, buf.as_mut_slice()),
        Err(BlockError::OutOfRange)
    ));
}

#[test]
fn read_fills_only_the_first_block_of_a_long_buffer() {
    let mut disk_emu = one_block();
    let mut block = vec![0x55; 4096];
    disk_emu.write_block(0, block.as_mut_slice()).unwrap();
    let mut buf = vec![0x11; 5000];
    disk_emu.read_block(0, buf.as_mut_slice()).unwrap();
    assert_eq!(&buf[..4096], &[0x55u8; 4096][..]);
    assert_eq!(&buf[4096..], &[0x11u8; 904][..]);
}

#[test]
fn short_write_keeps_the_rest_of_the_block() {
    let mut disk_emu = FileBlockEmulatorBuilder::from(Vec::new())
        .with_block_size(2)
        .build()
        .unwrap();
    let mut full = vec![0x55; 4096];
    disk_emu.write_block(1, full.as_mut_slice()).unwrap();
    let mut half = vec![0x66; 2048];
    disk_emu.write_block(1, half.as_mut_slice()).unwrap();
    let mut buf = vec![0u8; 4096];
    disk_emu.read_block(1, buf.as_mut_slice()).unwrap();
    assert_eq!(&buf[..2048], &[0x66u8; 2048][..]);
    assert_eq!(&buf[2048..], &[0x55u8; 2048][..]);
    // Block 0 was not touched.
    disk_emu.read_block(0, buf.as_mut_slice()).unwrap();
    assert_eq!(buf, vec![0u8; 4096]);
}

#[test]
fn long_write_is_cut_to_one_block() {
    let mut disk_emu = FileBlockEmulatorBuilder::from(Vec::new())
        .with_block_size(2)
        .build()
        .unwrap();
    let mut long = vec![0x77; 5000];
    disk_emu.write_block(0, long.as_mut_slice()).unwrap();
    let medium = disk_emu.into_file();
    assert_eq!(&medium[..4096], &[0x77u8; 4096][..]);
    assert_eq!(&medium[4096..], &[0u8; 4096][..]);
}

#[test]
fn clearing_overwrites_only_the_blocks_of_the_device() {
    let medium = vec![0xAAu8; 3 * 4096];
    let disk_emu = FileBlockEmulatorBuilder::from(medium)
        .with_block_size(2)
        .build()
        .unwrap();
    let medium = disk_emu.into_file();
    assert_eq!(medium.len(), 3 * 4096);
    assert_eq!(&medium[..2 * 4096], &[0u8; 2 * 4096][..]);
    assert_eq!(&medium[2 * 4096..], &[0xAAu8; 4096][..]);
}

#[test]
fn medium_can_be_taken_as_it_is() {
    let medium = vec![0xAAu8; 2 * 4096];
    let mut disk_emu = FileBlockEmulatorBuilder::from(medium)
        .with_block_size(2)
        .clear_medium(false)
        .build()
        .unwrap();
    let mut buf = vec![0u8; 4096];
    disk_emu.read_block(1, buf.as_mut_slice()).unwrap();
    assert_eq!(buf, vec![0xAAu8; 4096]);
}

#[test]
fn short_medium_taken_as_it_is_is_refused() {
    let medium = vec![0xAAu8; 4096];
    let res = FileBlockEmulatorBuilder::from(medium)
        .with_block_size(2)
        .clear_medium(false)
        .build();
    assert!(matches!(res, Err(BlockError::OutOfRange)));
}

#[test]
fn spans_check_the_range_before_the_buffer() {
    assert!(matches!(read_span(4, 3, 4096), Ok(12288)));
    assert!(matches!(read_span(4, 4, 4096), Err(BlockError::OutOfRange)));
    assert!(matches!(read_span(4, 4, 0), Err(BlockError::OutOfRange)));
    assert!(matches!(read_span(4, 0, 4095), Err(BlockError::BufferTooSmall)));
    assert!(matches!(write_span(4, 2, 100), Ok((8192, 100))));
    assert!(matches!(write_span(4, 2, 4096), Ok((8192, 4096))));
    assert!(matches!(write_span(4, 2, 9000), Ok((8192, 4096))));
    assert!(matches!(write_span(4, 2, 0), Ok((8192, 0))));
    assert!(matches!(write_span(4, 9, 0), Err(BlockError::OutOfRange)));
    assert_eq!(medium_len(64), 262144);
}
