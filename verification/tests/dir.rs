use simplefs::allocation::{Bitmap, State};
use simplefs::dir::{is_permitted, parse_path, Directory};
use simplefs::fs::{owned_blocks, plan_blocks, pointer_block};
use simplefs::io::FileBlockEmulatorBuilder;
use simplefs::node::Inode;
use simplefs::text::{bytes_eq, copy_range, find, push_decimal, read_decimal, tokenize};
use simplefs::SFS;

#[test]
fn directory_payload_is_lines_closed_by_a_zero_byte() {
    let mut dir = Directory::new();
    assert_eq!(dir.serialize(), b"\0");
    dir.insert(b"foo".to_vec(), 1);
    dir.insert(b"bar".to_vec(), 20);
    assert_eq!(dir.len(), 2);
    assert_eq!(dir.serialize(), b"1:foo\n20:bar\n\0");
}

#[test]
fn directory_reads_back_from_its_payload() {
    let mut dir = Directory::new();
    dir.insert(b"foo".to_vec(), 1);
    dir.insert(b"with:colon".to_vec(), 4294967295);
    dir.insert(b"".to_vec(), 0);
    let mut payload = dir.serialize();
    // What follows the zero byte does not count.
    payload.extend_from_slice(b"99:stale\nrubbish");
    let read = Directory::parse(&payload).unwrap();
    assert_eq!(read.len(), 3);
    assert_eq!(read.get(b"foo"), Some(1));
    assert_eq!(read.get(b"with:colon"), Some(4294967295));
    assert_eq!(read.get(b""), Some(0));
    assert_eq!(read.get(b"stale"), None);
    assert_eq!(read.serialize(), dir.serialize());
}

#[test]
fn later_entry_wins() {
    let dir = Directory::parse(b"1:a\n2:b\n3:a\n\0").unwrap();
    assert_eq!(dir.len(), 3);
    assert_eq!(dir.get(b"a"), Some(3));
    assert_eq!(dir.get(b"b"), Some(2));
    let mut dir = dir;
    dir.insert(b"b".to_vec(), 7);
    assert_eq!(dir.get(b"b"), Some(7));
}

#[test]
fn empty_lines_and_trailing_zeros_are_ignored() {
    let mut payload = b"\n\n1:a\n\n2:b\n".to_vec();
    payload.extend_from_slice(&[0u8; 100]);
    let dir = Directory::parse(&payload).unwrap();
    assert_eq!(dir.len(), 2);
    assert_eq!(dir.get(b"a"), Some(1));
    assert_eq!(dir.get(b"b"), Some(2));
    assert_eq!(Directory::parse(&[0u8; 4096]).unwrap().len(), 0);
    assert_eq!(Directory::parse(b"").unwrap().len(), 0);
    // Without a zero byte the whole payload counts.
    assert_eq!(Directory::parse(b"5:x").unwrap().get(b"x"), Some(5));
}

#[test]
fn line_without_entry_spoils_the_directory() {
    assert!(Directory::parse(b"1:a\nnocolon\n\0").is_none());
    assert!(Directory::parse(b":name\n\0").is_none());
    assert!(Directory::parse(b"x1:name\n\0").is_none());
    assert!(Directory::parse(b"+1:name\n\0").is_none());
    assert!(Directory::parse(b"4294967296:name\n\0").is_none());
    assert!(Directory::parse(b"4294967295:name\n\0").is_some());
    assert!(Directory::parse(b"0004294967295:name\n\0").is_some());
}

#[test]
fn decimal_numbers_round_trip() {
    for v in [0u32, 9, 10, 99, 100, 4096, 4294967295] {
        let mut out = b"x".to_vec();
        push_decimal(&mut out, v);
        assert_eq!(out, format!("x{}", v).into_bytes());
        assert_eq!(read_decimal(&out[1..]), Some(v));
    }
    assert_eq!(read_decimal(b""), None);
    assert_eq!(read_decimal(b"12a"), None);
    assert_eq!(read_decimal(b"007"), Some(7));
    assert_eq!(read_decimal(b"99999999999999999999999"), None);
}

#[test]
fn tokens_are_the_pieces_that_are_not_empty() {
    let pieces = tokenize(b"/a//bc/", b'/');
    assert_eq!(pieces, vec![b"a".to_vec(), b"bc".to_vec()]);
    assert_eq!(tokenize(b"", b'/'), Vec::<Vec<u8>>::new());
    assert_eq!(tokenize(b"///", b'/'), Vec::<Vec<u8>>::new());
    assert_eq!(tokenize(b"abc", b'/'), vec![b"abc".to_vec()]);
    assert_eq!(find(b"abcabc", 0, b'c'), 2);
    assert_eq!(find(b"abcabc", 3, b'c'), 5);
    assert_eq!(find(b"abcabc", 3, b'x'), 6);
    assert_eq!(copy_range(b"abcdef", 2, 4), b"cd".to_vec());
    assert!(bytes_eq(b"abc", b"abc"));
    assert!(!bytes_eq(b"abc", b"abd"));
    assert!(!bytes_eq(b"abc", b"ab"));
}

#[test]
fn paths_split_into_components() {
    assert_eq!(parse_path(b"/").unwrap(), Vec::<Vec<u8>>::new());
    assert_eq!(parse_path(b"/foo").unwrap(), vec![b"foo".to_vec()]);
    assert_eq!(
        parse_path(b"//a/./b//c/").unwrap(),
        vec![b"a".to_vec(), b"b".to_vec(), b"c".to_vec()]
    );
    assert_eq!(
        parse_path(b"/../.a/..").unwrap(),
        vec![b"..".to_vec(), b".a".to_vec(), b"..".to_vec()]
    );
    assert!(parse_path(b"").is_none());
    assert!(parse_path(b"foo").is_none());
    assert!(parse_path(b"foo/bar").is_none());
    assert!(parse_path(b"/a:b").is_none());
    assert!(parse_path(b"/a/b\n").is_none());
    assert!(parse_path(b"/a\0").is_none());
    assert!(is_permitted(b"plain name"));
    assert!(!is_permitted(b"a:b"));
}

#[test]
fn directory_is_stored_and_read_by_the_volume() {
    let dev = FileBlockEmulatorBuilder::from(Vec::new())
        .with_block_size(64)
        .build()
        .unwrap();
    let mut fs = SFS::create(dev).unwrap();
    let mut dir = Directory::new();
    dir.insert(b"one".to_vec(), 1);
    dir.insert(vec![b'x'; 5000], 2);
    fs.write_dir(0, dir).unwrap();
    // 6 + 5003 + 1 bytes need two blocks; the directory owned none.
    assert_eq!(fs.inodes().get(0).unwrap().blocks[..3], [8, 9, 0]);
    assert_eq!(fs.inodes().get(0).unwrap().size, 5010);
    let read = fs.read_dir(0).unwrap();
    assert_eq!(read.len(), 2);
    assert_eq!(read.get(b"one"), Some(1));
    assert_eq!(read.get(&vec![b'x'; 5000]), Some(2));
    // A shorter payload keeps both blocks.
    let mut dir = Directory::new();
    dir.insert(b"two".to_vec(), 2);
    fs.write_dir(0, dir).unwrap();
    assert_eq!(fs.read_file(0).unwrap().len(), 2 * 4096);
    assert_eq!(fs.inodes().get(0).unwrap().size, 7);
    let read = fs.read_dir(0).unwrap();
    assert_eq!(read.len(), 1);
    assert_eq!(read.get(b"two"), Some(2));
    assert_eq!(read.get(b"one"), None);
    // A directory that is not there cannot be stored.
    assert!(fs.write_dir(9, Directory::new()).is_err());
}

#[test]
fn blocks_are_planned_lowest_first() {
    let mut node = Inode::default();
    node.blocks = [0, 9, 7, 64, 63, 0, 8, 0, 0, 0, 0, 0, 0, 0, 0];
    assert_eq!(owned_blocks(&node), vec![9, 63, 8]);
    let mut map = Bitmap::new();
    map.set_reserved(0);
    map.set_reserved(1);
    map.set_reserved(55);
    let (all, marked) = plan_blocks(vec![9, 63, 8], map, 5).unwrap();
    assert_eq!(all, vec![9, 63, 8, 10, 11]);
    assert_eq!(marked.get(2), State::Used);
    assert_eq!(marked.get(3), State::Used);
    assert_eq!(marked.get(4), State::Free);
    assert_eq!(pointer_block(&all), [9, 63, 8, 10, 11, 0, 0, 0, 0, 0, 0, 0, 0, 0, 0]);
    // Nothing is planned where the file has what it needs.
    let (same, kept) = plan_blocks(vec![9, 63, 8], map, 3).unwrap();
    assert_eq!(same, vec![9, 63, 8]);
    assert_eq!(kept.get(2), State::Free);
    // The data region has 56 blocks.
    let mut full = Bitmap::new();
    for j in 0..55 {
        full.set_reserved(j);
    }
    assert_eq!(plan_blocks(vec![], full, 1).unwrap().0, vec![63]);
    assert!(plan_blocks(vec![], full, 2).is_none());
}
