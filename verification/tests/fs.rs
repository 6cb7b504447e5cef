use simplefs::fs::SFSError;
use simplefs::io::{BlockError, FileBlockEmulator, FileBlockEmulatorBuilder};
use simplefs::node::{DEFAULT_MODE, ROOT_DEFAULT_MODE};
use simplefs::{OpenMode, SFS};

fn create_test_device() -> FileBlockEmulator {
    let dev: Vec<u8> = Vec::new();
    FileBlockEmulatorBuilder::from(dev)
        .with_block_size(64)
        .build()
        .expect("Could not initialize disk emulator.")
}

#[test]
fn root_dir_returns_root_fd() {
    let dev = create_test_device();
    let mut fs = SFS::create(dev).unwrap();
    assert_eq!(fs.open_file("/", OpenMode::RO).unwrap(), 0);
}

#[test]
fn file_not_found_without_create_returns_error() {
    let dev = create_test_device();
    let mut fs = SFS::create(dev).unwrap();

    let result = fs.open_file("/foo", OpenMode::RO);
    match result.unwrap_err() {
        SFSError::DoesNotExist => (),
        _ => assert!(false, "Unexpected error type."),
    }
}

#[test]
fn file_not_found_with_create_returns_handle() {
    let dev = create_test_device();

    let mut fs = SFS::create(dev).unwrap();

    assert_eq!(fs.open_file("/foo", OpenMode::CREATE).unwrap(), 1);
}

#[test]
fn can_create_and_reopen_initialized_filesystem() {
    let disk: Vec<u8> = Vec::new();
    let dev = FileBlockEmulatorBuilder::from(disk)
        .with_block_size(64)
        .build()
        .unwrap();
    // Initialize the filesystem.
    let disk = SFS::create(dev).unwrap().into_device().into_file();

    let dev = FileBlockEmulatorBuilder::from(disk)
        .with_block_size(64)
        // Don't reset initialized disk.
        .clear_medium(false)
        .build()
        .unwrap();
    let fs: SFS<FileBlockEmulator> = SFS::open(dev).unwrap();
    assert_eq!(fs.inodes().total_nodes(), 1);
}

#[test]
fn can_initialize_disk_with_filesystem() {
    let tf: Vec<u8> = Vec::new();

    // Prepare the block with filesystem layout.
    let dev = FileBlockEmulatorBuilder::from(tf)
        .with_block_size(64)
        .build()
        .unwrap();
    let tf = SFS::create(dev).unwrap().into_device().into_file();

    // Open filesystem and verify init layout;
    let dev = FileBlockEmulatorBuilder::from(tf)
        .with_block_size(64)
        .clear_medium(false)
        .build()
        .unwrap();
    SFS::open(dev).unwrap();
}

#[test]
fn unformatted_container_is_refused() {
    let dev = create_test_device();
    match SFS::open(dev) {
        Err(SFSError::InvalidBlock(BlockError::InvalidData)) => (),
        _ => panic!("expected the magic to be missed"),
    }
}

#[test]
fn created_file_is_found_again() {
    let mut fs = SFS::create(create_test_device()).unwrap();
    assert_eq!(fs.open_file("/foo", OpenMode::CREATE).unwrap(), 1);
    assert_eq!(fs.open_file("/foo", OpenMode::RO).unwrap(), 1);
    assert_eq!(fs.open_file("/foo", OpenMode::CREATE).unwrap(), 1);
    assert_eq!(fs.open_file("/bar", OpenMode::CREATE).unwrap(), 2);
    assert_eq!(fs.open_file("/foo", OpenMode::RW).unwrap(), 1);
    assert_eq!(fs.open_file("/bar", OpenMode::WO).unwrap(), 2);
    assert_eq!(fs.inodes().total_nodes(), 3);
    assert_eq!(fs.inodes().get(1).unwrap().mode, DEFAULT_MODE);
    assert_eq!(fs.inodes().get(0).unwrap().mode, ROOT_DEFAULT_MODE);
}

#[test]
fn path_without_root_is_an_invalid_argument() {
    let mut fs = SFS::create(create_test_device()).unwrap();
    match fs.open_file("foo", OpenMode::RO) {
        Err(SFSError::InvalidArgument(text)) => assert_eq!(text, "path must start with \"/\""),
        _ => panic!("expected InvalidArgument"),
    }
    match fs.open_file("", OpenMode::CREATE) {
        Err(SFSError::InvalidArgument(text)) => assert_eq!(text, "path must start with \"/\""),
        _ => panic!("expected InvalidArgument"),
    }
}

#[test]
fn path_with_forbidden_byte_is_an_invalid_argument() {
    let mut fs = SFS::create(create_test_device()).unwrap();
    for path in ["/a:b", "/a\nb", "/a\0b", "/ok/x:"] {
        match fs.open_file(path, OpenMode::CREATE) {
            Err(SFSError::InvalidArgument(text)) => {
                assert_eq!(text, "path holds a name with ':', a line break or a zero byte")
            }
            _ => panic!("expected InvalidArgument"),
        }
    }
    assert_eq!(fs.inodes().total_nodes(), 1);
}

#[test]
fn empty_components_and_dots_are_passed_over() {
    let mut fs = SFS::create(create_test_device()).unwrap();
    assert_eq!(fs.open_file("//", OpenMode::RO).unwrap(), 0);
    assert_eq!(fs.open_file("/./", OpenMode::RO).unwrap(), 0);
    assert_eq!(fs.open_file("//foo", OpenMode::CREATE).unwrap(), 1);
    assert_eq!(fs.open_file("/foo/", OpenMode::RO).unwrap(), 1);
    assert_eq!(fs.open_file("/./foo/.", OpenMode::RO).unwrap(), 1);
}

#[test]
fn missing_intermediate_component_is_never_created() {
    let mut fs = SFS::create(create_test_device()).unwrap();
    match fs.open_file("/a/b", OpenMode::CREATE) {
        Err(SFSError::DoesNotExist) => (),
        _ => panic!("expected DoesNotExist"),
    }
    assert_eq!(fs.inodes().total_nodes(), 1);
}

#[test]
fn file_is_created_in_an_empty_regular_file_used_as_directory() {
    let mut fs = SFS::create(create_test_device()).unwrap();
    assert_eq!(fs.open_file("/a", OpenMode::CREATE).unwrap(), 1);
    // "/a" owns no block, so it reads as a directory without entries.
    match fs.open_file("/a/b/c", OpenMode::CREATE) {
        Err(SFSError::DoesNotExist) => (),
        _ => panic!("expected DoesNotExist"),
    }
    assert_eq!(fs.open_file("/a/b", OpenMode::CREATE).unwrap(), 2);
    assert_eq!(fs.open_file("/a/b", OpenMode::RO).unwrap(), 2);
    assert_eq!(fs.open_file("/a", OpenMode::RO).unwrap(), 1);
}

#[test]
fn create_lays_out_the_first_four_blocks() {
    let medium = SFS::create(create_test_device())
        .unwrap()
        .into_device()
        .into_file();
    assert_eq!(medium.len(), 64 * 4096);
    // Block 0: the magic, 80 inodes, 56 blocks, 0, 0, 80 free inodes, 0.
    assert_eq!(&medium[0..4], &[0x42, 0x53, 0x46, 0x53]);
    assert_eq!(&medium[4..8], &[80, 0, 0, 0]);
    assert_eq!(&medium[8..12], &[56, 0, 0, 0]);
    assert_eq!(&medium[12..20], &[0u8; 8]);
    assert_eq!(&medium[20..24], &[80, 0, 0, 0]);
    assert!(medium[24..4096].iter().all(|b| *b == 0));
    // Block 1: no data block is reserved.
    assert!(medium[4096..2 * 4096].iter().all(|b| *b == 0));
    // Block 2: only inumber 0 is reserved.
    assert_eq!(medium[2 * 4096], 1);
    assert!(medium[2 * 4096 + 1..3 * 4096].iter().all(|b| *b == 0));
    // Block 3: the root directory in slot 0, mode 0x4000.
    assert_eq!(&medium[3 * 4096..3 * 4096 + 2], &[0x00, 0x40]);
    assert!(medium[3 * 4096 + 2..].iter().all(|b| *b == 0));
}

#[test]
fn creating_a_file_writes_the_directory_and_the_tables() {
    let mut fs = SFS::create(create_test_device()).unwrap();
    assert_eq!(fs.open_file("/foo", OpenMode::CREATE).unwrap(), 1);
    assert_eq!(fs.read_file(0).unwrap().len(), 4096);
    assert_eq!(fs.read_file(1).unwrap().len(), 0);
    let medium = fs.into_device().into_file();
    // The root directory got the first block of the data region.
    assert_eq!(&medium[8 * 4096..8 * 4096 + 7], b"1:foo\n\0");
    assert!(medium[8 * 4096 + 7..9 * 4096].iter().all(|b| *b == 0));
    // Data bitmap: bit 0 stands for block 8.
    assert_eq!(medium[4096], 1);
    // Inode bitmap: inumbers 0 and 1.
    assert_eq!(medium[2 * 4096], 3);
    // The root inode points to block 8.
    let root = 3 * 4096;
    assert_eq!(&medium[root + 196..root + 200], &[8, 0, 0, 0]);
    assert_eq!(&medium[root + 200..root + 256], &[0u8; 56]);
    // The new inode is a regular file without blocks.
    let file = 3 * 4096 + 256;
    assert_eq!(&medium[file..file + 2], &[0x00, 0x20]);
    assert!(medium[file + 2..file + 256].iter().all(|b| *b == 0));
}

#[test]
fn files_persist_across_a_mount() {
    let mut fs = SFS::create(create_test_device()).unwrap();
    assert_eq!(fs.open_file("/foo", OpenMode::CREATE).unwrap(), 1);
    assert_eq!(fs.open_file("/bar", OpenMode::CREATE).unwrap(), 2);
    let medium = fs.into_device().into_file();
    let dev = FileBlockEmulatorBuilder::from(medium)
        .with_block_size(64)
        .clear_medium(false)
        .build()
        .unwrap();
    let mut fs = SFS::open(dev).unwrap();
    assert_eq!(fs.inodes().total_nodes(), 3);
    assert_eq!(fs.open_file("/foo", OpenMode::RO).unwrap(), 1);
    assert_eq!(fs.open_file("/bar", OpenMode::RO).unwrap(), 2);
    assert_eq!(fs.open_file("/baz", OpenMode::CREATE).unwrap(), 3);
}

#[test]
fn volume_runs_out_of_inodes() {
    let mut fs = SFS::create(create_test_device()).unwrap();
    for i in 1..80u32 {
        let path = format!("/f{}", i);
        assert_eq!(fs.open_file(&path, OpenMode::CREATE).unwrap(), i);
    }
    assert_eq!(fs.inodes().total_nodes(), 80);
    match fs.open_file("/one-too-many", OpenMode::CREATE) {
        Err(SFSError::InvalidBlock(BlockError::StorageFull)) => (),
        _ => panic!("expected StorageFull"),
    }
    // Nothing was changed, and what is there is still found.
    assert_eq!(fs.inodes().total_nodes(), 80);
    assert_eq!(fs.open_file("/f79", OpenMode::CREATE).unwrap(), 79);
    match fs.open_file("/one-too-many", OpenMode::RO) {
        Err(SFSError::DoesNotExist) => (),
        _ => panic!("expected DoesNotExist"),
    }
}

#[test]
fn directory_grows_over_several_blocks() {
    let mut fs = SFS::create(create_test_device()).unwrap();
    let long = "n".repeat(3000);
    assert_eq!(fs.open_file(&format!("/a{}", long), OpenMode::CREATE).unwrap(), 1);
    assert_eq!(fs.read_file(0).unwrap().len(), 4096);
    assert_eq!(fs.open_file(&format!("/b{}", long), OpenMode::CREATE).unwrap(), 2);
    assert_eq!(fs.read_file(0).unwrap().len(), 2 * 4096);
    assert_eq!(fs.inodes().get(0).unwrap().blocks[0], 8);
    assert_eq!(fs.inodes().get(0).unwrap().blocks[1], 9);
    assert_eq!(fs.inodes().get(0).unwrap().blocks[2], 0);
    assert_eq!(fs.open_file(&format!("/a{}", long), OpenMode::RO).unwrap(), 1);
    assert_eq!(fs.open_file(&format!("/b{}", long), OpenMode::RO).unwrap(), 2);
}

#[test]
fn directory_that_needs_more_than_fifteen_blocks_is_refused() {
    let mut fs = SFS::create(create_test_device()).unwrap();
    let huge = "n".repeat(15 * 4096);
    match fs.open_file(&format!("/{}", huge), OpenMode::CREATE) {
        Err(SFSError::InvalidBlock(BlockError::StorageFull)) => (),
        _ => panic!("expected StorageFull"),
    }
    assert_eq!(fs.inodes().total_nodes(), 1);
    assert_eq!(fs.read_file(0).unwrap().len(), 0);
}

#[test]
fn reading_an_inumber_without_inode_fails() {
    let mut fs = SFS::create(create_test_device()).unwrap();
    match fs.read_file(5) {
        Err(SFSError::DoesNotExist) => (),
        _ => panic!("expected DoesNotExist"),
    }
    match fs.read_dir(5) {
        Err(SFSError::DoesNotExist) => (),
        _ => panic!("expected DoesNotExist"),
    }
}

fn reopen(medium: Vec<u8>) -> SFS<FileBlockEmulator> {
    let dev = FileBlockEmulatorBuilder::from(medium)
        .with_block_size(64)
        .clear_medium(false)
        .build()
        .unwrap();
    SFS::open(dev).unwrap()
}

#[test]
fn damaged_directory_is_an_invalid_block() {
    let mut fs = SFS::create(create_test_device()).unwrap();
    assert_eq!(fs.open_file("/foo", OpenMode::CREATE).unwrap(), 1);
    let mut medium = fs.into_device().into_file();
    // A line without a colon in the payload of the root directory.
    medium[8 * 4096..8 * 4096 + 7].copy_from_slice(b"1;foo\n\0");
    let mut fs = reopen(medium);
    match fs.open_file("/foo", OpenMode::RO) {
        Err(SFSError::InvalidBlock(BlockError::InvalidData)) => (),
        _ => panic!("expected InvalidData"),
    }
    match fs.read_dir(0) {
        Err(SFSError::InvalidBlock(BlockError::InvalidData)) => (),
        _ => panic!("expected InvalidData"),
    }
    // The root itself needs no directory to be read.
    assert_eq!(fs.open_file("/", OpenMode::RO).unwrap(), 0);
}

#[test]
fn directory_inode_records_the_length_of_its_payload() {
    let mut fs = SFS::create(create_test_device()).unwrap();
    assert_eq!(fs.inodes().get(0).unwrap().size, 0);
    fs.open_file("/foo", OpenMode::CREATE).unwrap();
    assert_eq!(fs.inodes().get(0).unwrap().size, 7);
    fs.open_file("/barbaz", OpenMode::CREATE).unwrap();
    assert_eq!(fs.inodes().get(0).unwrap().size, 16);
    assert_eq!(fs.inodes().get(1).unwrap().size, 0);
    let medium = fs.into_device().into_file();
    assert_eq!(&medium[3 * 4096 + 8..3 * 4096 + 12], &[16, 0, 0, 0]);
    assert_eq!(&medium[8 * 4096..8 * 4096 + 16], b"1:foo\n2:barbaz\n\0");
}

#[test]
fn mounting_gives_the_volume_as_it_was_in_memory() {
    let mut fs = SFS::create(create_test_device()).unwrap();
    fs.open_file("/a", OpenMode::CREATE).unwrap();
    fs.open_file("/b", OpenMode::CREATE).unwrap();
    let before: Vec<(u16, u32, [u32; 15])> = (0..3)
        .map(|i| {
            let node = fs.inodes().get(i).unwrap();
            (node.mode, node.size, node.blocks)
        })
        .collect();
    let bitmap = fs.inodes().allocations().serialize().to_vec();
    let fs = reopen(fs.into_device().into_file());
    let after: Vec<(u16, u32, [u32; 15])> = (0..3)
        .map(|i| {
            let node = fs.inodes().get(i).unwrap();
            (node.mode, node.size, node.blocks)
        })
        .collect();
    assert_eq!(before, after);
    assert_eq!(bitmap, fs.inodes().allocations().serialize().to_vec());
    assert_eq!(fs.inodes().total_nodes(), 3);
}

#[test]
fn foreign_directory_with_stale_tail_and_duplicates_is_read() {
    let mut fs = SFS::create(create_test_device()).unwrap();
    fs.open_file("/x", OpenMode::CREATE).unwrap();
    let mut medium = fs.into_device().into_file();
    let payload = b"1:old\n\n1:x\n0:self\n1:old\n\0 9:ghost\n";
    medium[8 * 4096..8 * 4096 + payload.len()].copy_from_slice(payload);
    let mut fs = reopen(medium);
    assert_eq!(fs.open_file("/x", OpenMode::RO).unwrap(), 1);
    assert_eq!(fs.open_file("/old", OpenMode::RO).unwrap(), 1);
    assert_eq!(fs.open_file("/self", OpenMode::RO).unwrap(), 0);
    assert_eq!(fs.open_file("/self/self/x", OpenMode::RO).unwrap(), 1);
    match fs.open_file("/ghost", OpenMode::RO) {
        Err(SFSError::DoesNotExist) => (),
        _ => panic!("expected DoesNotExist"),
    }
    let dir = fs.read_dir(0).unwrap();
    assert_eq!(dir.len(), 4);
}

#[test]
fn entry_that_leads_to_no_inode_does_not_exist() {
    let mut fs = SFS::create(create_test_device()).unwrap();
    fs.open_file("/x", OpenMode::CREATE).unwrap();
    let mut medium = fs.into_device().into_file();
    medium[8 * 4096..8 * 4096 + 8].copy_from_slice(b"42:lost\n");
    medium[8 * 4096 + 8] = 0;
    let mut fs = reopen(medium);
    // The last component is found; its inumber is handed out as it is.
    assert_eq!(fs.open_file("/lost", OpenMode::RO).unwrap(), 42);
    match fs.open_file("/lost/more", OpenMode::CREATE) {
        Err(SFSError::DoesNotExist) => (),
        _ => panic!("expected DoesNotExist"),
    }
}

#[test]
fn room_is_judged_without_changing_the_volume() {
    let mut fs = SFS::create(create_test_device()).unwrap();
    assert!(fs.room_for(0, 1));
    assert!(fs.room_for(0, 15 * 4096 - 1));
    assert!(!fs.room_for(0, 15 * 4096));
    assert!(!fs.room_for(7, 1));
    assert_eq!(fs.read_file(0).unwrap().len(), 0);
    fs.flush().unwrap();
    assert_eq!(fs.inodes().total_nodes(), 1);
}

#[test]
fn payload_of_exactly_one_block_is_given_two() {
    let mut fs = SFS::create(create_test_device()).unwrap();
    // "1:" + name + "\n" + "\0" is 4096 bytes.
    let name = "n".repeat(4092);
    assert_eq!(fs.open_file(&format!("/{}", name), OpenMode::CREATE).unwrap(), 1);
    assert_eq!(fs.inodes().get(0).unwrap().size, 4096);
    assert_eq!(fs.inodes().get(0).unwrap().blocks[..3], [8, 9, 0]);
    assert_eq!(fs.read_file(0).unwrap().len(), 2 * 4096);
    assert_eq!(fs.open_file(&format!("/{}", name), OpenMode::RO).unwrap(), 1);
    let medium = fs.into_device().into_file();
    assert_eq!(medium[9 * 4096 - 1], 0);
    assert_eq!(medium[9 * 4096 - 2], b'\n');
    assert!(medium[9 * 4096..10 * 4096].iter().all(|b| *b == 0));
    // Both blocks are reserved.
    assert_eq!(medium[4096], 3);
}
