use highway::{HighwayBuilder, HighwayHash, Key};
use mvht::entry::{self, CHECKSUM_HW64_KEY};
use mvht::error::{Detail, IoError};
use mvht::hash;
use mvht::model::{Address, ENode, Entry, INode, Node};
use mvht::search;
use mvht::storage::SeekFrom;
use mvht::{Cursor, MemStorage, Reader, Storage};

fn checksum(bytes: &[u8]) -> [u8; 8] {
    HighwayBuilder::new(Key(CHECKSUM_HW64_KEY)).hash64(bytes).to_le_bytes()
}

/// The second entry of a tree, as one at the position 0.
fn sample() -> Entry {
    let leaf = hash::Hash::hash(b"xyz");
    let enode = ENode { node: Node::new(Address::new(2, 0, 0), leaf), payload: b"xyz".to_vec() };
    let hash = hash::Hash::hash(b"abc").combine(&leaf);
    let inode = INode::new(
        Node::new(Address::new(2, 1, 0), hash),
        Address::new(1, 0, 0x0102),
        Address::new(2, 0, 0),
    );
    Entry { enode, inodes: vec![inode] }
}

/// The bytes of the sample entry.
fn sample_bytes() -> Vec<u8> {
    let e = sample();
    let mut bytes = vec![2, 0, 0, 0, 0, 0, 0, 0, 1];
    bytes.extend_from_slice(&[0, 0x02, 0x01, 0, 0, 0, 0, 0, 0, 1, 0, 0, 0, 0, 0, 0, 0, 0]);
    bytes.extend_from_slice(&e.inodes[0].node.hash.value);
    bytes.extend_from_slice(&[3, 0, 0, 0]);
    bytes.extend_from_slice(b"xyz");
    bytes.extend_from_slice(&e.enode.node.hash.value);
    bytes.extend_from_slice(&[98, 0, 0, 0]);
    let sum = checksum(&bytes);
    bytes.extend_from_slice(&sum);
    bytes
}

fn cursor_on(bytes: Vec<u8>) -> mvht::memory::MemCursor {
    MemStorage::with(bytes).open(false).unwrap()
}

#[test]
fn layout_of_an_entry() {
    let mut cursor = MemStorage::new().open(true).unwrap();
    assert_eq!(Ok(110), entry::write_entry(&mut cursor, &sample()));
    assert_eq!(&sample_bytes(), cursor.bytes());
    assert_eq!(sample_bytes()[..102].to_vec(), entry::seal_entry(&sample()));
}

#[test]
fn an_entry_is_read_back() {
    let mut cursor = cursor_on(sample_bytes());
    assert_eq!(Ok(sample()), entry::read_entry(&mut cursor, 2));
    assert_eq!(Ok(110), cursor.stream_position());
    assert_eq!(Ok(0), cursor.seek(SeekFrom::Start(0)));
    assert_eq!(Ok(sample()), entry::read_entry(&mut cursor, 0));
    assert_eq!(Ok(0), cursor.seek(SeekFrom::Start(0)));
    assert_eq!(Ok(sample()), entry::read_entry_without_check(&mut cursor, 0, 2));
    assert_eq!(Ok(98), cursor.stream_position());
    assert_eq!(Ok(0), cursor.seek(SeekFrom::Start(0)));
    assert_eq!(Ok(sample().inodes), entry::read_inodes(&mut cursor, 0));
    assert_eq!(Ok(59), cursor.stream_position());
}

#[test]
fn an_entry_with_another_index_is_refused() {
    let mut cursor = cursor_on(sample_bytes());
    assert_eq!(
        Err(Detail::IncorrectNodeBoundary { at: 7 }),
        entry::read_entry_without_check(&mut cursor, 7, 3)
    );
}

#[test]
fn an_entry_without_inner_nodes_is_the_first() {
    let mut bytes = vec![9, 0, 0, 0, 0, 0, 0, 0, 0, 0, 0, 0, 0x80];
    bytes.extend_from_slice(&[7; 32]);
    let e = entry::read_entry_without_check(&mut cursor_on(bytes), 4, 1).unwrap();
    assert_eq!(Node::new(Address::new(1, 0, 4), hash::Hash::new([7; 32])), e.enode.node);
    assert_eq!(Vec::<u8>::new(), e.enode.payload);
    assert_eq!(Vec::<INode>::new(), e.inodes);
}

#[test]
fn a_cut_entry_ends_too_early() {
    for length in [0, 7, 8, 9, 30, 58, 60, 62, 65, 97, 98, 101, 102, 109] {
        let bytes = sample_bytes()[..length].to_vec();
        assert_eq!(
            Err(Detail::Io(IoError::UnexpectedEof)),
            entry::read_entry(&mut cursor_on(bytes), 2)
        );
    }
}

#[test]
fn a_wrong_offset_is_found() {
    let mut bytes = sample_bytes();
    bytes[98] = 99;
    assert_eq!(
        Err(Detail::IncorrectEntryHeadOffset { expected: 99, actual: 98 }),
        entry::read_entry(&mut cursor_on(bytes), 2)
    );
}

#[test]
fn a_wrong_checksum_is_found() {
    let mut bytes = sample_bytes();
    let expected = u64::from_le_bytes(checksum(&bytes[..102]));
    bytes[63] ^= 1;
    let actual = u64::from_le_bytes(checksum(&bytes[..102]));
    assert_eq!(
        Err(Detail::ChecksumVerificationFailed { at: 0, length: 110, expected, actual }),
        entry::read_entry(&mut cursor_on(bytes), 2)
    );
}

#[test]
fn checksums_are_compared() {
    assert_eq!(Ok(()), entry::verify_checksum(4, 98, 5, 5));
    assert_eq!(
        Err(Detail::ChecksumVerificationFailed { at: 4, length: 110, expected: 6, actual: 5 }),
        entry::verify_checksum(4, 98, 6, 5)
    );
}

#[test]
fn inner_nodes_by_height() {
    let e = sample();
    assert_eq!(Some(e.inodes[0]), search::find_inode(&e.inodes, 1));
    assert_eq!(None, search::find_inode(&e.inodes, 2));
    let mut cursor = cursor_on(sample_bytes());
    assert_eq!(Ok(e.inodes[0]), search::read_inode(&mut cursor, &Address::new(2, 1, 0)));
    assert_eq!(
        Err(Detail::InternalStateInconsistency {
            message: "entry i=2 in storage doesn't contain an inode at specified level j=5"
                .to_string()
        }),
        search::read_inode(&mut cursor, &Address::new(2, 5, 0))
    );
    assert_eq!(Ok(e.inodes[0].node), search::read_node(&mut cursor, &Address::new(2, 1, 0)));
    assert_eq!(Ok(e.enode.node), search::read_node(&mut cursor, &Address::new(2, 0, 0)));
}

#[test]
fn circular_references_are_found() {
    // the left branch of b_{7,1} is b_{7,1} itself
    let mut bytes = vec![7, 0, 0, 0, 0, 0, 0, 0, 1];
    bytes.extend_from_slice(&[0, 0, 0, 0, 0, 0, 0, 0, 0, 7, 0, 0, 0, 0, 0, 0, 0, 1]);
    bytes.extend_from_slice(&[0; 32]);
    let root = INode::new(
        Node::new(Address::new(8, 3, 59), hash::Hash::new([0; 32])),
        Address::new(7, 1, 0),
        Address::new(8, 0, 59),
    );
    let mut cursor = cursor_on(bytes);
    assert_eq!(
        Err(Detail::InternalStateInconsistency {
            message: "The maximum hop count was exceeded before reaching node b_3 from node \
                      b_{8,3}.The data on the storage probably have circular references."
                .to_string()
        }),
        search::search_entry_position(&mut cursor, &root, 3, false)
    );
    assert_eq!(
        Ok(Some((59, vec![]))),
        search::search_entry_position(&mut cursor, &root, 8, true)
    );
    assert_eq!(
        Ok(Some((0, vec![]))),
        search::search_entry_position(&mut cursor, &root, 7, false)
    );
    assert_eq!(Ok(None), search::search_entry_position(&mut cursor, &root, 0, true));
    assert_eq!(Ok(None), search::search_entry_position(&mut cursor, &root, 9, true));
}

#[test]
fn the_cursor_stays_where_nothing_is_read() {
    let root = INode::new(
        Node::new(Address::new(2, 1, 60), hash::Hash::new([0; 32])),
        Address::new(1, 0, 4),
        Address::new(2, 0, 60),
    );
    let mut cursor = cursor_on(vec![0; 9]);
    assert_eq!(Ok(5), cursor.seek(SeekFrom::Start(5)));
    for with_branch in [false, true] {
        assert_eq!(
            Ok(Some((60, vec![]))),
            search::search_entry_position(&mut cursor, &root, 2, with_branch)
        );
        for i in [0, 3, u64::MAX] {
            assert_eq!(
                Ok(None),
                search::search_entry_position(&mut cursor, &root, i, with_branch)
            );
        }
    }
    assert_eq!(
        Ok(Some((4, vec![]))),
        search::search_entry_position(&mut cursor, &root, 1, false)
    );
    assert_eq!(Ok(5), cursor.stream_position());
}

#[test]
fn a_leaf_ends_the_search() {
    let root = INode::new(
        Node::new(Address::new(9, 4, 0), hash::Hash::new([0; 32])),
        Address::new(5, 0, 100),
        Address::new(9, 0, 0),
    );
    let mut cursor = cursor_on(vec![]);
    assert_eq!(Ok(None), search::search_entry_position(&mut cursor, &root, 3, false));
    assert_eq!(Ok(None), search::search_entry_position(&mut cursor, &root, 7, false));
    assert_eq!(
        Ok(Some((100, vec![]))),
        search::search_entry_position(&mut cursor, &root, 5, false)
    );
}

#[test]
fn nodes_are_described() {
    let node = Node::new(Address::new(3, 2, 152), hash::Hash::new([0xAB; 32]));
    assert_eq!(format!("Node(3,2@152){}", "AB".repeat(32)), node.describe());
    let hash = mvht::NodeHash { i: 3, j: 2, hash: hash::Hash::new([0xAB; 32]) };
    assert_eq!(format!("HashNode(3, 2, \"{}\")", "AB".repeat(32)), hash.describe());
    let value = mvht::Value { i: 7, value: vec![0x0F, 0xF0] };
    assert_eq!("Value(7, \"0FF0\")", value.describe());
}
