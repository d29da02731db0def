use mvht::algorithm::{range_start, Generation, INodeId, NodeId};

fn id(node: (u64, u8), left: (u64, u8), right: (u64, u8)) -> INodeId {
    INodeId {
        node: NodeId { i: node.0, j: node.1 },
        left: NodeId { i: left.0, j: left.1 },
        right: NodeId { i: right.0, j: right.1 },
    }
}

#[test]
fn inner_nodes_of_small_generations() {
    assert_eq!(Vec::<INodeId>::new(), Generation::new(1).inodes());
    assert_eq!(vec![id((2, 1), (1, 0), (2, 0))], Generation::new(2).inodes());
    assert_eq!(vec![id((3, 2), (2, 1), (3, 0))], Generation::new(3).inodes());
    assert_eq!(
        vec![id((4, 1), (3, 0), (4, 0)), id((4, 2), (2, 1), (4, 1))],
        Generation::new(4).inodes()
    );
    assert_eq!(vec![id((5, 3), (4, 2), (5, 0))], Generation::new(5).inodes());
    assert_eq!(
        vec![id((6, 1), (5, 0), (6, 0)), id((6, 3), (4, 2), (6, 1))],
        Generation::new(6).inodes()
    );
}

#[test]
fn inner_nodes_of_the_largest_generation() {
    let inodes = Generation::new(u64::MAX).inodes();
    assert_eq!(63, inodes.len());
    let top = inodes[62];
    assert_eq!(id((u64::MAX, 64), (1 << 63, 63), (u64::MAX, 63)), top);
    assert_eq!(id((u64::MAX, 2), (u64::MAX - 1, 1), (u64::MAX, 0)), inodes[0]);
}

#[test]
fn ranges_of_leaves() {
    assert_eq!(1, range_start(1, 0));
    assert_eq!(6, range_start(6, 0));
    assert_eq!(5, range_start(6, 1));
    assert_eq!(1, range_start(6, 3));
    assert_eq!(5, range_start(8, 2));
    assert_eq!(1, range_start(8, 3));
    assert_eq!((1 << 63) + 1, range_start(u64::MAX, 63));
    assert_eq!(1, range_start(u64::MAX, 64));
    assert_eq!(1, range_start(u64::MAX, 255));
}
