use simplefs::allocation::Bitmap;
use simplefs::node::{Inode, InodeGroup};

#[test]
fn can_retrieve_inserted_inode() {
    let nodes_map = Bitmap::new();
    let mut group = InodeGroup::new(nodes_map);
    let mut node = Inode::default();
    node.uid = 100;
    node.gid = 100;
    group.insert(1, node);

    assert_eq!(group.get(1).unwrap().uid, 100);
    assert_eq!(group.get(1).unwrap().gid, 100);
}
