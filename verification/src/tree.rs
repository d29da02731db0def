//! The hash tree as a function of what was appended to it.
use crate::algorithm;
use crate::algorithm::INDEX_SIZE;
use crate::entry;
use crate::entry::MAX_PAYLOAD_SIZE;
use crate::hash;
use crate::hash::HASH_SIZE;
use crate::model::{Address, ENodeView, EntryView, INodeView, NodeView};
use crate::mvht;
use crate::roundtrip;
use crate::search;
use vstd::arithmetic::power2;
use vstd::prelude::*;

verus! {

/// What was appended to a tree, in the order of the indices: the value with the index `i` is
/// `values[i - 1]`, and its entry is at `positions[i - 1]`.
pub struct Log {
    pub values: Seq<Seq<u8>>,
    pub positions: Seq<u64>,
}

impl Log {
    /// Nothing was appended.
    pub open spec fn empty() -> Log {
        Log { values: Seq::empty(), positions: Seq::empty() }
    }

    /// The number of values.
    pub open spec fn len(self) -> nat {
        self.values.len()
    }

    /// One more value was appended.
    pub open spec fn push(self, value: Seq<u8>, position: u64) -> Log {
        Log { values: self.values.push(value), positions: self.positions.push(position) }
    }

    /// What was appended up to the index `n`.
    pub open spec fn take(self, n: nat) -> Log {
        Log { values: self.values.take(n as int), positions: self.positions.take(n as int) }
    }

    /// Whether a tree can have these values at these positions: none of them is too large, the
    /// indices fit in 64 bits, and all entries are behind the head of the storage.
    pub open spec fn valid(self) -> bool {
        &&& self.values.len() <= u64::MAX
        &&& self.positions.len() == self.values.len()
        &&& forall|k: int|
            0 <= k < self.values.len() ==> (#[trigger] self.values[k]).len() <= MAX_PAYLOAD_SIZE
        &&& forall|k: int| 0 <= k < self.positions.len() ==> #[trigger] self.positions[k] >= 4
    }

    /// The position behind the entry `i`, or that of the first entry if `i` is 0.
    pub open spec fn end(self, i: nat) -> nat {
        if i == 0 {
            4
        } else {
            self.positions[i - 1] as nat + entry_size(i, self.values[i - 1].len())
        }
    }
}

/// The hash value of the node `b_{i,j}`: that of the value for a leaf, and otherwise that of the
/// hash values of both branches.
pub open spec fn node_hash(values: Seq<Seq<u8>>, i: nat, j: nat) -> Seq<u8>
    decreases j,
{
    if j == 0 {
        hash::hash_of(values[i - 1])
    } else {
        proof {
            algorithm::lemma_below_lower(i, j);
        }
        hash::hash_of(
            node_hash(values, algorithm::split(i, j), (j - 1) as nat) + node_hash(
                values,
                i,
                algorithm::below(i, j),
            ),
        )
    }
}

/// The hash value of the root of the tree with these values, of which there is at least one: that of
/// the value itself where there is only one, and otherwise that of the hash values of two trees. The
/// first of them has as many of the values as the power of two below their number says.
pub open spec fn root_hash(values: Seq<Seq<u8>>) -> Seq<u8>
    decreases values.len(),
{
    if values.len() <= 1 {
        hash::hash_of(values[0])
    } else {
        proof {
            algorithm::lemma_power_below(values.len());
        }
        let k = algorithm::power_below(values.len()) as int;
        hash::hash_of(root_hash(values.take(k)) + root_hash(values.skip(k)))
    }
}

/// The number of bytes of the entry `i` with a value of `length` bytes.
pub open spec fn entry_size(i: nat, length: nat) -> nat {
    entry::body_size(algorithm::levels(i, INDEX_SIZE as nat).len(), length) + 12
}

/// The address of the node `b_{i,j}`.
pub open spec fn address_of(log: Log, i: nat, j: nat) -> Address {
    Address { i: i as u64, j: j as u8, position: log.positions[i - 1] }
}

/// The node `b_{i,j}`.
pub open spec fn node_of(log: Log, i: nat, j: nat) -> NodeView {
    NodeView { address: address_of(log, i, j), hash: node_hash(log.values, i, j) }
}

/// The inner node `b_{i,j}`.
pub open spec fn inode_of(log: Log, i: nat, j: nat) -> INodeView {
    INodeView {
        node: node_of(log, i, j),
        left: address_of(log, algorithm::split(i, j), (j - 1) as nat),
        right: address_of(log, i, algorithm::below(i, j)),
    }
}

/// The leaf `b_{i,0}`.
pub open spec fn enode_of(log: Log, i: nat) -> ENodeView {
    ENodeView { node: node_of(log, i, 0), payload: log.values[i - 1] }
}

/// The entry `i`.
pub open spec fn entry_of(log: Log, i: nat) -> EntryView {
    EntryView {
        enode: enode_of(log, i),
        inodes: algorithm::levels(i, INDEX_SIZE as nat).map_values(|j: nat| inode_of(log, i, j)),
    }
}

/// The last entry, if there is one.
pub open spec fn last_of(log: Log) -> Option<EntryView> {
    if log.len() == 0 {
        None
    } else {
        Some(entry_of(log, log.len()))
    }
}

/// Whether the bytes of all entries are at their positions. There may be other bytes between and
/// behind them, such as those of an entry that was not completely written.
pub open spec fn stored(contents: Seq<u8>, log: Log) -> bool {
    forall|i: nat|
        1 <= i <= log.len() ==> #[trigger] roundtrip::holds_entry(
            contents,
            log.positions[i - 1] as nat,
            entry_of(log, i),
        )
}

/// Whether a tree with the last entry `last` on a storage with these contents is the one to which
/// was appended what the log says.
pub open spec fn holds(contents: Seq<u8>, last: Option<EntryView>, log: Log) -> bool {
    &&& log.valid()
    &&& contents.len() >= 4
    &&& contents.take(4) == mvht::header()
    &&& stored(contents, log)
    &&& last == last_of(log)
}

/// Whether two logs start with the same `n` values at the same positions.
pub open spec fn agree(a: Log, b: Log, n: nat) -> bool {
    &&& n <= a.len()
    &&& n <= b.len()
    &&& forall|k: int| 0 <= k < n ==> #[trigger] a.values[k] == b.values[k]
    &&& forall|k: int| 0 <= k < n ==> #[trigger] a.positions[k] == b.positions[k]
}

/// The hash value of a node depends only on the values up to its index.
pub proof fn lemma_node_hash_agrees(a: Seq<Seq<u8>>, b: Seq<Seq<u8>>, n: nat, i: nat, j: nat)
    requires
        n <= a.len(),
        n <= b.len(),
        forall|k: int| 0 <= k < n ==> #[trigger] a[k] == b[k],
        1 <= i <= n,
        algorithm::is_node(i, j),
    ensures
        node_hash(a, i, j) == node_hash(b, i, j),
    decreases j,
{
    if j > 0 {
        algorithm::lemma_branches(i, j);
        lemma_node_hash_agrees(a, b, n, algorithm::split(i, j), (j - 1) as nat);
        lemma_node_hash_agrees(a, b, n, i, algorithm::below(i, j));
    } else {
        assert(a[i - 1] == b[i - 1]);
    }
}

/// The hash value of a node is that of the root of a tree with just the values below the node.
pub proof fn lemma_node_hash_is_root(values: Seq<Seq<u8>>, i: nat, j: nat)
    requires
        1 <= i <= values.len(),
        algorithm::is_node(i, j),
    ensures
        1 <= algorithm::first_leaf(i, j) <= i,
        node_hash(values, i, j) == root_hash(
            values.subrange(algorithm::first_leaf(i, j) - 1, i as int),
        ),
    decreases j,
{
    let first = algorithm::first_leaf(i, j);
    let part = values.subrange(first - 1, i as int);
    power2::lemma2_to64();
    if j == 0 {
        algorithm::lemma_floor_step((i - 1) as nat, 0);
        assert(part[0] == values[i - 1]);
    } else {
        let split = algorithm::split(i, j);
        let k = split + 1 - first;
        algorithm::lemma_branches(i, j);
        algorithm::lemma_left_size(i, j);
        lemma_node_hash_is_root(values, split, (j - 1) as nat);
        lemma_node_hash_is_root(values, i, algorithm::below(i, j));
        assert(part.take(k) =~= values.subrange(first - 1, split as int));
        assert(part.skip(k) =~= values.subrange(split as int, i as int));
    }
}

/// A node depends only on what was appended up to its index.
pub proof fn lemma_node_agrees(a: Log, b: Log, n: nat, i: nat, j: nat)
    requires
        agree(a, b, n),
        1 <= i <= n,
        algorithm::is_node(i, j),
    ensures
        node_of(a, i, j) == node_of(b, i, j),
{
    lemma_node_hash_agrees(a.values, b.values, n, i, j);
    assert(a.positions[i - 1] == b.positions[i - 1]);
}

/// An entry depends only on what was appended up to its index: entries never change.
pub proof fn lemma_entry_agrees(a: Log, b: Log, n: nat, i: nat)
    requires
        agree(a, b, n),
        1 <= i <= n,
    ensures
        entry_of(a, i) == entry_of(b, i),
{
    let levels = algorithm::levels(i, INDEX_SIZE as nat);
    lemma_node_agrees(a, b, n, i, 0);
    assert(a.values[i - 1] == b.values[i - 1]);
    assert forall|k: int| 0 <= k < levels.len() implies inode_of(a, i, levels[k]) == inode_of(
        b,
        i,
        levels[k],
    ) by {
        let j = levels[k];
        algorithm::lemma_level(i, INDEX_SIZE as nat, k);
        algorithm::lemma_branches(i, j);
        lemma_node_agrees(a, b, n, i, j);
        lemma_node_agrees(a, b, n, algorithm::split(i, j), (j - 1) as nat);
    }
    assert(entry_of(a, i).inodes =~= entry_of(b, i).inodes);
}

/// Each entry is one that can be written at its position, and takes the number of bytes that its
/// index and its value account for. Only the first has no inner nodes.
pub proof fn lemma_entry_of(log: Log, i: nat)
    requires
        log.valid(),
        1 <= i <= log.len(),
    ensures
        roundtrip::is_entry_at(entry_of(log, i), log.positions[i - 1]),
        entry::encode_entry(entry_of(log, i)).len() == entry_size(i, log.values[i - 1].len()),
        entry_of(log, i).inodes.len() == 0 <==> i == 1,
{
    let e = entry_of(log, i);
    let levels = algorithm::levels(i, INDEX_SIZE as nat);
    algorithm::lemma_levels(i, INDEX_SIZE as nat);
    algorithm::lemma_root_level(i);
    power2::lemma2_to64();
    if i == 1 && levels.len() > 0 {
        algorithm::lemma_level(i, INDEX_SIZE as nat, levels.len() - 1);
        power2::lemma_pow2_pos((algorithm::root_level(i) - 1) as nat);
    }
    assert forall|k: int| 0 <= k < levels.len() implies 1 <= #[trigger] levels[k] <= INDEX_SIZE
        && algorithm::below(i, levels[k]) == (if k == 0 {
        0
    } else {
        levels[k - 1]
    }) by {
        algorithm::lemma_level(i, INDEX_SIZE as nat, k);
    }
    assert forall|k: int| 0 <= k < e.inodes.len() implies {
        &&& 1 <= (#[trigger] e.inodes[k]).node.address.j <= INDEX_SIZE
        &&& e.inodes[k].node.hash.len() == HASH_SIZE
        &&& e.inodes[k].node.address.i == i
        &&& e.inodes[k].right.j == roundtrip::right_level(e.inodes, k)
    } by {
        assert(e.inodes[k] == inode_of(log, i, levels[k]));
        if k > 0 {
            assert(e.inodes[k - 1] == inode_of(log, i, levels[k - 1]));
        }
    }
    entry::lemma_encode_len(e);
}

/// The search for an inner node of some height gives one of that height, if there is one.
proof fn lemma_inode_at_level(inodes: Seq<INodeView>, j: u8)
    ensures
        match search::inode_at_level(inodes, j) {
            Some(inode) => exists|k: int|
                0 <= k < inodes.len() && #[trigger] inodes[k] == inode
                    && inode.node.address.j == j,
            None => forall|k: int|
                0 <= k < inodes.len() ==> (#[trigger] inodes[k]).node.address.j != j,
        },
    decreases inodes.len(),
{
    if inodes.len() > 0 && inodes[0].node.address.j != j {
        let rest = inodes.drop_first();
        lemma_inode_at_level(rest, j);
        match search::inode_at_level(rest, j) {
            Some(inode) => {
                let k = choose|k: int|
                    0 <= k < rest.len() && #[trigger] rest[k] == inode && inode.node.address.j == j;
                assert(inodes[k + 1] == inode);
            },
            None => {
                assert forall|k: int| 0 <= k < inodes.len() implies (
                #[trigger] inodes[k]).node.address.j != j by {
                    if k > 0 {
                        assert(rest[k - 1] == inodes[k]);
                    }
                }
            },
        }
    } else if inodes.len() > 0 {
        assert(inodes[0].node.address.j == j);
    }
}

/// An entry holds exactly the inner nodes that the tree has there.
pub proof fn lemma_inode_found(log: Log, i: nat, j: u8)
    requires
        1 <= i <= u64::MAX,
        j >= 1,
    ensures
        search::inode_at_level(entry_of(log, i).inodes, j) == if algorithm::is_inode(
            i,
            j as nat,
        ) {
            Some(inode_of(log, i, j as nat))
        } else {
            None
        },
{
    let inodes = entry_of(log, i).inodes;
    let levels = algorithm::levels(i, INDEX_SIZE as nat);
    lemma_inode_at_level(inodes, j);
    match search::inode_at_level(inodes, j) {
        Some(inode) => {
            let k = choose|k: int|
                0 <= k < inodes.len() && #[trigger] inodes[k] == inode && inode.node.address.j == j;
            algorithm::lemma_level(i, INDEX_SIZE as nat, k);
            assert(inodes[k] == inode_of(log, i, levels[k]));
        },
        None => {
            if algorithm::is_inode(i, j as nat) {
                algorithm::lemma_inode_height(i, j as nat);
                let k = algorithm::lemma_level_listed(i, INDEX_SIZE as nat, j as nat);
                assert(inodes[k] == inode_of(log, i, levels[k]));
            }
        },
    }
}

} // verus!
