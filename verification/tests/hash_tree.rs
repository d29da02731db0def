use highway::{HighwayBuilder, HighwayHash, Key};
use mvht::algorithm::INodeId;
use mvht::algorithm::NodeId;
use mvht::entry::CHECKSUM_HW64_KEY;
use mvht::error::Detail;
use mvht::hash;
use mvht::model::{Address, INode, Node, Root, STRoot};
use mvht::mvht::{back_to_safety, check_header, is_version_compatible, join};
use mvht::storage::SeekFrom;
use mvht::{Cursor, DataSet, MemStorage, Reader, Storage, Value, MVHT};
use mvht::{STORAGE_IDENTIFIER, STORAGE_VERSION};

/// The value with the index `i` in the trees of these tests.
fn value(i: u64) -> Vec<u8> {
    let mut value = i.to_le_bytes().to_vec();
    value.resize((i * 7 % 40) as usize, 0xA5);
    value
}

fn tree_of(n: u64) -> MVHT<MemStorage> {
    let mut tree = MVHT::new(MemStorage::new()).unwrap();
    for i in 1..=n {
        let (index, _) = tree.append(&value(i)).unwrap();
        assert_eq!(i, index);
    }
    tree
}

/// The hash value of the node over the values from `first` to `last`.
fn hash_over(first: u64, last: u64) -> hash::Hash {
    if first == last {
        return hash::Hash::hash(&value(first));
    }
    let mut left = 1;
    while left * 2 < last - first + 1 {
        left *= 2;
    }
    hash_over(first, first + left - 1).combine(&hash_over(first + left, last))
}

fn open_error(bytes: Vec<u8>) -> Detail {
    match MVHT::new(MemStorage::with(bytes)) {
        Ok(_) => panic!("the storage was accepted"),
        Err(detail) => detail,
    }
}

#[test]
fn an_empty_tree() {
    let tree = MVHT::new(MemStorage::new()).unwrap();
    assert_eq!(&vec![0x01, 0xF3, 0x33, 0x00], tree.cursor().bytes());
    assert_eq!([0x01, 0xF3, 0x33], STORAGE_IDENTIFIER);
    assert_eq!(0, STORAGE_VERSION);
    assert_eq!(0, tree.level());
    assert_eq!(0, tree.size());
    assert_eq!(Root::Empty, tree.root());
    assert_eq!(Ok(None), tree.get(0));
    assert_eq!(Ok(None), tree.get(1));
    assert!(tree.get_values_with_hashes(1, 0).unwrap().is_none());
}

#[test]
fn bytes_of_the_first_entry() {
    let mut tree = MVHT::new(MemStorage::new()).unwrap();
    assert_eq!(Ok((1, hash::Hash::hash(b"abc"))), tree.append(b"abc"));
    let mut entry = vec![1, 0, 0, 0, 0, 0, 0, 0, 0, 3, 0, 0, 0];
    entry.extend_from_slice(b"abc");
    entry.extend_from_slice(&hash::Hash::hash(b"abc").value);
    entry.extend_from_slice(&[48, 0, 0, 0]);
    let sum = HighwayBuilder::new(Key(CHECKSUM_HW64_KEY)).hash64(&entry);
    entry.extend_from_slice(&sum.to_le_bytes());
    let mut expected = vec![0x01, 0xF3, 0x33, 0x00];
    expected.extend_from_slice(&entry);
    assert_eq!(&expected, tree.cursor().bytes());
}

#[test]
fn append_returns_the_root_hash() {
    let mut tree = MVHT::new(MemStorage::new()).unwrap();
    for n in 1..=70 {
        assert_eq!(Ok((n, hash_over(1, n))), tree.append(&value(n)));
        assert_eq!(n, tree.size());
    }
}

#[test]
fn appended_values_are_read_back() {
    for n in [1, 2, 3, 5, 8, 33, 64, 65] {
        let tree = tree_of(n);
        for i in 1..=n {
            assert_eq!(Ok(Some(value(i))), tree.get(i));
        }
        assert_eq!(Ok(None), tree.get(0));
        assert_eq!(Ok(None), tree.get(n + 1));
        assert_eq!(Ok(None), tree.get(u64::MAX));
    }
}

#[test]
fn a_tree_is_as_low_as_can_be() {
    let mut tree = MVHT::new(MemStorage::new()).unwrap();
    let mut levels = vec![];
    for i in 1..=17 {
        tree.append(&value(i)).unwrap();
        levels.push(tree.level());
    }
    assert_eq!(vec![0, 1, 2, 2, 3, 3, 3, 3, 4, 4, 4, 4, 4, 4, 4, 4, 5], levels);
}

#[test]
fn the_storage_is_only_ever_extended() {
    let mut tree = MVHT::new(MemStorage::new()).unwrap();
    let mut before = tree.cursor().bytes().clone();
    for i in 1..=20 {
        tree.append(&value(i)).unwrap();
        let after = tree.cursor().bytes().clone();
        assert_eq!(before, after[..before.len()].to_vec());
        assert!(after.len() > before.len());
        before = after;
    }
}

#[test]
fn a_tree_is_opened_again() {
    for n in 0..=17 {
        let tree = tree_of(n);
        let mut again = MVHT::new(MemStorage::with(tree.cursor().bytes().clone())).unwrap();
        assert_eq!(tree.root(), again.root());
        assert_eq!(n, again.size());
        assert_eq!(tree.cursor().bytes(), again.cursor().bytes());
        for i in 1..=n {
            assert_eq!(Ok(Some(value(i))), again.get(i));
        }
        assert_eq!(Ok((n + 1, hash_over(1, n + 1))), again.append(&value(n + 1)));
        assert_eq!(tree_of(n + 1).cursor().bytes(), again.cursor().bytes());
    }
}

/// The hash value that the first node of the entry `i` leads to.
fn climb(i: u64, start: hash::Hash, set: &DataSet) -> hash::Hash {
    let mut hash = start;
    for node in set.hashes.iter().rev() {
        hash = if node.i < i { node.hash.combine(&hash) } else { hash.combine(&node.hash) };
    }
    hash
}

/// The first leaf below the first node of the entry `i` on the way down from the root.
fn first_node_start(n: u64, i: u64) -> u64 {
    let (mut first, mut last) = (1, n);
    while last != i {
        let mut left = 1;
        while left * 2 < last - first + 1 {
            left *= 2;
        }
        if i < first + left {
            last = first + left - 1;
        } else {
            first += left;
        }
    }
    first
}

#[test]
fn branches_lead_to_the_root_hash() {
    let n = 21;
    let tree = tree_of(n);
    for i in 1..=n {
        let set = tree.get_values_with_hashes(i, 0).unwrap().unwrap();
        assert_eq!(vec![Value { i, value: value(i) }], set.values);
        let first = first_node_start(n, i);
        assert_eq!(hash_over(1, n), climb(i, hash_over(first, i), &set), "i={}", i);
    }
}

#[test]
fn branches_of_an_entry() {
    let tree = tree_of(8);
    let set = tree.get_values_with_hashes(6, 1).unwrap().unwrap();
    let nodes: Vec<(u64, u8, hash::Hash)> = set.hashes.iter().map(|n| (n.i, n.j, n.hash)).collect();
    assert_eq!(vec![(4, 2, hash_over(1, 4)), (8, 1, hash_over(7, 8))], nodes);
    let values: Vec<u64> = set.values.iter().map(|v| v.i).collect();
    assert_eq!(vec![5, 6], values);
    let set = tree.get_values_with_hashes(1, 0).unwrap().unwrap();
    let nodes: Vec<(u64, u8)> = set.hashes.iter().map(|n| (n.i, n.j)).collect();
    assert_eq!(vec![(8, 2), (4, 1), (2, 0)], nodes);
}

#[test]
fn all_values_below_a_node() {
    let tree = tree_of(13);
    for (i, j, first) in [(8, 3, 1), (8, 2, 5), (8, 0, 8), (12, 2, 9), (13, 4, 1), (6, 1, 5)] {
        let set = tree.get_values_with_hashes(i, j).unwrap().unwrap();
        let expected: Vec<Value> = (first..=i).map(|i| Value { i, value: value(i) }).collect();
        assert_eq!(expected, set.values);
    }
    assert!(tree.get_values_with_hashes(0, 0).unwrap().is_none());
    assert!(tree.get_values_with_hashes(14, 0).unwrap().is_none());
    assert!(tree.get_values_with_hashes(1, 1).unwrap().is_none());
    let single = tree_of(1);
    let set = single.get_values_with_hashes(1, 0).unwrap().unwrap();
    assert_eq!(vec![Value { i: 1, value: value(1) }], set.values);
    assert!(set.hashes.is_empty());
    assert!(single.get_values_with_hashes(2, 0).unwrap().is_none());
}

#[test]
fn the_root_of_a_tree() {
    let one = tree_of(1);
    match one.root() {
        Root::ENode(enode) => {
            assert_eq!(Node::new(Address::new(1, 0, 4), hash_over(1, 1)), enode.node);
            assert_eq!(value(1), enode.payload);
        }
        _ => panic!("the root is not a leaf"),
    }
    let two = tree_of(2);
    let position = one.cursor().bytes().len() as u64;
    match two.root() {
        Root::INode(inode) => assert_eq!(
            &INode::new(
                Node::new(Address::new(2, 1, position), hash_over(1, 2)),
                Address::new(1, 0, 4),
                Address::new(2, 0, position)
            ),
            inode
        ),
        _ => panic!("the root is not an inner node"),
    }
}

#[test]
fn an_inner_node_is_joined() {
    let id = INodeId {
        node: NodeId { i: 6, j: 3 },
        left: NodeId { i: 4, j: 2 },
        right: NodeId { i: 6, j: 1 },
    };
    let left = Node::new(Address::new(4, 2, 99), hash::Hash::new([1; 32]));
    assert_eq!(
        INode::new(
            Node::new(Address::new(6, 3, 500), hash::Hash::new([2; 32])),
            Address::new(4, 2, 99),
            Address::new(6, 1, 500)
        ),
        join(&id, 500, &left, hash::Hash::new([2; 32]))
    );
}

#[test]
fn a_storage_with_another_head_is_refused() {
    let magic = || Detail::FileIsNotContentsOfMVHTree { message: "bad magic number" };
    assert_eq!(magic(), open_error(vec![0x01]));
    assert_eq!(magic(), open_error(vec![0x01, 0xF3, 0x33]));
    assert_eq!(magic(), open_error(vec![0x01, 0xF3, 0x34, 0x00]));
    assert_eq!(Detail::IncompatibleVersion(1, 0), open_error(vec![0x01, 0xF3, 0x33, 0x10]));
    assert_eq!(Detail::IncompatibleVersion(0, 2), open_error(vec![0x01, 0xF3, 0x33, 0x02]));
    assert_eq!(Ok(()), check_header(&[0x01, 0xF3, 0x33, 0x00]));
    assert!(is_version_compatible(0x00));
    assert!(!is_version_compatible(0x01));
    assert!(!is_version_compatible(0x10));
}

#[test]
fn a_damaged_tail_is_refused() {
    let sound = tree_of(3).cursor().bytes().clone();
    // fewer bytes than a trailer has
    let mut short = sound[..4].to_vec();
    short.extend_from_slice(&[0; 5]);
    assert_eq!(
        Detail::DamagedStorage(
            "The first entry is corrupted. (cannot move position from 9 to -3)".to_string()
        ),
        open_error(short)
    );
    // an offset that leads before the first entry
    let mut far = sound.clone();
    let length = far.len();
    far[length - 12..length - 8].copy_from_slice(&[0xFF, 0xFF, 0xFF, 0xFF]);
    let from = length as i64 - 8;
    assert_eq!(
        Detail::DamagedStorage(format!(
            "The last entry is corrupted. (cannot move position from {} to {})",
            from,
            from - 0xFFFF_FFFF - 4
        )),
        open_error(far)
    );
    // a changed byte in the last entry
    let mut changed = sound.clone();
    changed[length - 13] ^= 0x01;
    match open_error(changed) {
        Detail::ChecksumVerificationFailed { .. } => {}
        detail => panic!("unexpected error {:?}", detail),
    }
    // an offset that leads to an entry that does not end at the end
    let first = tree_of(1).cursor().bytes().clone();
    let mut other = first.clone();
    other.extend_from_slice(&[0; 20]);
    let offset = (other.len() - 12 - 4) as u32;
    let at = other.len() - 12;
    other[at..at + 4].copy_from_slice(&offset.to_le_bytes());
    assert_eq!(
        Detail::DamagedStorage("The last entry is corrupted.".to_string()),
        open_error(other)
    );
}

#[test]
fn moving_back() {
    let mut cursor = MemStorage::with(vec![0; 20]).open(false).unwrap();
    assert_eq!(Ok(20), cursor.seek(SeekFrom::End(0)));
    assert_eq!(Ok(8), back_to_safety(&mut cursor, 12, "no"));
    assert_eq!(Ok(4), back_to_safety(&mut cursor, 4, "no"));
    assert_eq!(
        Err(Detail::DamagedStorage("no (cannot move position from 4 to 3)".to_string())),
        back_to_safety(&mut cursor, 1, "no")
    );
    assert_eq!(Ok(4), cursor.stream_position());
    assert_eq!(
        Err(Detail::DamagedStorage("no (cannot move position from 4 to -5)".to_string())),
        back_to_safety(&mut cursor, 9, "no")
    );
    assert_eq!(Ok(4), cursor.stream_position());
}

#[test]
fn a_tree_whose_entries_are_lost_is_inconsistent() {
    // only the last entry of a tree with two values, without the one before
    let bytes = tree_of(2).cursor().bytes().clone();
    let first = tree_of(1).cursor().bytes().len();
    let mut rest = bytes[..4].to_vec();
    rest.extend_from_slice(&bytes[first..]);
    let mut tree = MVHT::new(MemStorage::with(rest)).unwrap();
    assert_eq!(2, tree.size());
    let before = tree.cursor().bytes().clone();
    assert_eq!(Err(Detail::IncorrectNodeBoundary { at: 4 }), tree.get(1));
    assert_eq!(Err(Detail::IncorrectNodeBoundary { at: 4 }), tree.get_values_with_hashes(2, 1).map(|_| ()));
    assert!(tree.append(b"next").is_ok());
    assert_ne!(&before, tree.cursor().bytes());
}

#[test]
fn a_missing_branch_is_reported() {
    // the last entry claims the index 3 but has only an inner node of height 1
    let mut tree = MVHT::new(MemStorage::new()).unwrap();
    tree.append(b"a").unwrap();
    let mut bytes = tree.cursor().bytes().clone();
    let mut entry = vec![3, 0, 0, 0, 0, 0, 0, 0, 1];
    entry.extend_from_slice(&[0, 4, 0, 0, 0, 0, 0, 0, 0, 1, 0, 0, 0, 0, 0, 0, 0, 0]);
    entry.extend_from_slice(&[0; 32]);
    entry.extend_from_slice(&[0, 0, 0, 0]);
    entry.extend_from_slice(&[0; 32]);
    let length = entry.len() as u32;
    entry.extend_from_slice(&length.to_le_bytes());
    let sum = HighwayBuilder::new(Key(CHECKSUM_HW64_KEY)).hash64(&entry);
    entry.extend_from_slice(&sum.to_le_bytes());
    bytes.extend_from_slice(&entry);
    let mut tree = MVHT::new(MemStorage::with(bytes.clone())).unwrap();
    assert_eq!(3, tree.size());
    assert_eq!(
        Err(Detail::InternalStateInconsistency {
            message: "cannot find the node b_{2,1}".to_string()
        }),
        tree.append(b"d")
    );
    assert_eq!(&bytes, tree.cursor().bytes());
    assert_eq!(3, tree.size());
}

#[test]
fn earlier_values_and_roots_stay() {
    let mut tree = MVHT::new(MemStorage::new()).unwrap();
    let mut roots = vec![];
    for i in 1..=12 {
        roots.push(tree.append(&value(i)).unwrap().1);
        for k in 1..=i {
            assert_eq!(Ok(Some(value(k))), tree.get(k));
        }
    }
    for n in 1..=12u64 {
        assert_eq!(roots[n as usize - 1], hash_over(1, n));
    }
}

#[test]
fn nodes_of_a_tree_are_found() {
    let tree = tree_of(6);
    let mut cursor = tree.cursor().reopen().unwrap();
    let at = |i: u64| tree_of(i - 1).cursor().bytes().len() as u64;
    for (i, j, first) in [(1, 0, 1), (4, 0, 4), (4, 1, 3), (4, 2, 1), (6, 1, 5), (6, 3, 1)] {
        assert_eq!(
            Ok(Some(Node::new(Address::new(i, j, at(i)), hash_over(first, i)))),
            tree.get_node(&mut cursor, i, j)
        );
    }
    for (i, j) in [(0, 0), (1, 1), (4, 3), (6, 2), (7, 0)] {
        assert_eq!(Ok(None), tree.get_node(&mut cursor, i, j));
    }
}

#[test]
fn roots_of_all_generations_are_found() {
    let n = 11;
    let tree = tree_of(n);
    let mut cursor = tree.cursor().reopen().unwrap();
    for i in 2..=n {
        match tree.get_root_of_ith_generation(&mut cursor, i).unwrap() {
            STRoot::INode(root, branches) => {
                assert_eq!(i, root.node.address.i);
                assert_eq!(hash_over(1, i), root.node.hash);
                assert_eq!(i == n, branches.is_empty());
            }
            _ => panic!("the root is not an inner node"),
        }
    }
    match tree.get_root_of_ith_generation(&mut cursor, 1).unwrap() {
        STRoot::ENode(root, _) => assert_eq!(value(1), root.payload),
        _ => panic!("the root is not a leaf"),
    }
    assert_eq!(Ok(STRoot::Empty), tree.get_root_of_ith_generation(&mut cursor, 0));
    assert_eq!(Ok(STRoot::Empty), tree.get_root_of_ith_generation(&mut cursor, n + 1));
}

#[test]
fn a_closed_tree_gives_back_its_bytes() {
    let tree = tree_of(4);
    let bytes = tree.cursor().bytes().clone();
    let given = tree.into_cursor().into_bytes();
    assert_eq!(bytes, given);
    let again = MVHT::new(MemStorage::with(given)).unwrap();
    assert_eq!(Ok(Some(value(3))), again.get(3));
}
