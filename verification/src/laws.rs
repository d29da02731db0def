//! What holds of a tree as a whole, whatever values were appended to it.
//!
//! The laws on reading hold wherever the entries of a tree are stored, also where other bytes are
//! between or behind them. So they hold after every sequence of appends, whether or not some of them
//! failed.
use crate::algorithm;
use crate::algorithm::{Index, INDEX_SIZE};
use crate::entry;
use crate::entry::MAX_PAYLOAD_SIZE;
use crate::error::DetailView;
use crate::hash;
use crate::model::{
    Address, DataSetView, EntryView, INodeView, NodeView, RootView, STRootView, ValueView,
};
use crate::mvht;
use crate::mvht::MVHT;
use crate::roundtrip;
use crate::search;
use crate::storage::Storage;
use crate::tree;
use crate::tree::Log;
use vstd::arithmetic::power2;
use vstd::prelude::*;

verus! {

/// The nodes that branch off on the way down from the node `b_{i,j}` to the first node of the entry
/// `k`.
pub open spec fn path(log: Log, i: nat, j: nat, k: nat) -> Seq<NodeView>
    decreases j,
{
    if k == i || j == 0 {
        Seq::empty()
    } else {
        proof {
            algorithm::lemma_below_lower(i, j);
        }
        let split = algorithm::split(i, j);
        let below = algorithm::below(i, j);
        if k <= split {
            seq![tree::node_of(log, i, below)] + path(log, split, (j - 1) as nat, k)
        } else {
            seq![tree::node_of(log, split, (j - 1) as nat)] + path(log, i, below, k)
        }
    }
}

/// The height of the first node of the entry `k` on the way down from the node `b_{i,j}`.
pub open spec fn reached(i: nat, j: nat, k: nat) -> nat
    decreases j,
{
    if k == i || j == 0 {
        j
    } else {
        proof {
            algorithm::lemma_below_lower(i, j);
        }
        if k <= algorithm::split(i, j) {
            reached(algorithm::split(i, j), (j - 1) as nat, k)
        } else {
            reached(i, algorithm::below(i, j), k)
        }
    }
}

/// The hash value that a node of the entry `k` with the hash value `hash` leads to when it is
/// combined with that of each branch, from the last to the first.
pub open spec fn climb(k: nat, hash: Seq<u8>, branches: Seq<NodeView>) -> Seq<u8>
    decreases branches.len(),
{
    if branches.len() == 0 {
        hash
    } else {
        let below = climb(k, hash, branches.drop_first());
        if branches[0].address.i < k {
            hash::hash_of(branches[0].hash + below)
        } else {
            hash::hash_of(below + branches[0].hash)
        }
    }
}

/// An entry can be read from where it is stored.
proof fn lemma_entry_read(contents: Seq<u8>, log: Log, i: nat)
    requires
        log.valid(),
        tree::stored(contents, log),
        1 <= i <= log.len(),
    ensures
        ({
            let at = log.positions[i - 1] as nat;
            let e = tree::entry_of(log, i);
            &&& entry::parse_inodes(contents, at, at as u64) == Ok::<Seq<INodeView>, DetailView>(
                e.inodes,
            )
            &&& entry::parse_entry(contents, at, at as u64, i as u64) == Ok::<
                EntryView,
                DetailView,
            >(e)
            &&& entry::entry_end(contents, at) + 12 == log.end(i)
        }),
{
    let at = log.positions[i - 1] as nat;
    let e = tree::entry_of(log, i);
    tree::lemma_entry_of(log, i);
    assert(roundtrip::holds_entry(contents, at, e));
    roundtrip::lemma_inodes_round_trip(contents, at, e);
    roundtrip::lemma_entry_round_trip(contents, at, e, i as u64);
}

/// Every inner node can be read from where it is stored.
pub proof fn lemma_load_inode(contents: Seq<u8>, log: Log, i: nat, j: nat)
    requires
        log.valid(),
        tree::stored(contents, log),
        1 <= i <= log.len(),
        algorithm::is_inode(i, j),
    ensures
        search::load_inode(contents, tree::address_of(log, i, j)) == Ok::<INodeView, DetailView>(
            tree::inode_of(log, i, j),
        ),
{
    lemma_entry_read(contents, log, i);
    tree::lemma_entry_of(log, i);
    algorithm::lemma_inode_height(i, j);
    tree::lemma_inode_found(log, i, j as u8);
}

/// Every node, an inner node or a leaf, can be read from where it is stored.
pub proof fn lemma_load_node(contents: Seq<u8>, log: Log, i: nat, j: nat)
    requires
        log.valid(),
        tree::stored(contents, log),
        1 <= i <= log.len(),
        algorithm::is_node(i, j),
    ensures
        search::load_node(contents, tree::address_of(log, i, j)) == Ok::<NodeView, DetailView>(
            tree::node_of(log, i, j),
        ),
{
    if j == 0 {
        lemma_entry_read(contents, log, i);
        tree::lemma_entry_of(log, i);
    } else {
        algorithm::lemma_inode_height(i, j);
        lemma_load_inode(contents, log, i, j);
    }
}

/// The search below the inner node `b_{i,j}` comes to each entry below it in as many steps as the
/// node is high at most.
proof fn lemma_descend(
    contents: Seq<u8>,
    log: Log,
    root: Address,
    i: nat,
    j: nat,
    k: nat,
    with_branch: bool,
    hops: nat,
)
    requires
        log.valid(),
        tree::stored(contents, log),
        1 <= i <= log.len(),
        algorithm::is_inode(i, j),
        algorithm::first_leaf(i, j) <= k < i,
        j <= hops,
    ensures
        search::descend(
            contents,
            root,
            tree::inode_of(log, i, j),
            k as u64,
            with_branch,
            hops,
        ) == search::Found::Ok(
            Some(
                (
                    log.positions[k - 1],
                    if with_branch {
                        path(log, i, j, k)
                    } else {
                        Seq::empty()
                    },
                ),
            ),
        ),
    decreases j,
{
    let split = algorithm::split(i, j);
    let below = algorithm::below(i, j);
    let l = (j - 1) as nat;
    let mover = tree::inode_of(log, i, j);
    algorithm::lemma_inode_height(i, j);
    algorithm::lemma_branches(i, j);
    lemma_load_node(contents, log, i, below);
    lemma_load_node(contents, log, split, l);
    let none = Seq::<NodeView>::empty();
    assert(none + none =~= none);
    if k <= split {
        let branch = seq![tree::node_of(log, i, below)];
        assert(search::choose_branch(mover, k as u64) == Some((mover.left, mover.right)));
        assert(branch + none =~= branch);
        if k < split {
            assert(l > 0) by {
                if l == 0 {
                    power2::lemma2_to64();
                    assert(algorithm::first_leaf(split, 0) == split);
                }
            }
            lemma_load_inode(contents, log, split, l);
            lemma_descend(
                contents,
                log,
                root,
                split,
                l,
                k,
                with_branch,
                (hops - 1) as nat,
            );
        }
    } else {
        assert(search::choose_branch(mover, k as u64) == Some((mover.right, mover.left)));
        assert(below > 0) by {
            if below == 0 {
                power2::lemma2_to64();
                assert(algorithm::first_leaf(i, 0) == i);
            }
        }
        lemma_load_inode(contents, log, i, below);
        lemma_descend(contents, log, root, i, below, k, with_branch, (hops - 1) as nat);
    }
}

/// The highest node of an entry is the root that the tree had when the entry was the last.
pub proof fn lemma_root(log: Log, i: nat)
    requires
        log.valid(),
        1 <= i <= log.len(),
    ensures
        mvht::root_of(Some(tree::entry_of(log, i))) == if i == 1 {
            RootView::ENode(tree::enode_of(log, 1))
        } else {
            RootView::INode(tree::inode_of(log, i, algorithm::root_level(i)))
        },
        i > 1 ==> algorithm::is_inode(i, algorithm::root_level(i)),
        i == 1 ==> algorithm::root_level(i) == 0,
        mvht::top_hash(
            tree::entry_of(log, i).enode.node.hash,
            tree::entry_of(log, i).inodes,
        ) == tree::node_hash(log.values, i, algorithm::root_level(i)),
{
    let levels = algorithm::levels(i, INDEX_SIZE as nat);
    tree::lemma_entry_of(log, i);
    algorithm::lemma_levels(i, INDEX_SIZE as nat);
    algorithm::lemma_root_level(i);
    if i > 1 {
        algorithm::lemma_level(i, INDEX_SIZE as nat, levels.len() - 1);
    }
}

/// The search from the root of any generation finds exactly the entries that were there, each with
/// the nodes that branch off on the way.
pub proof fn lemma_search(
    contents: Seq<u8>,
    log: Log,
    i: nat,
    k: Index,
    with_branch: bool,
)
    requires
        log.valid(),
        tree::stored(contents, log),
        2 <= i <= log.len(),
    ensures
        search::search(
            contents,
            tree::inode_of(log, i, algorithm::root_level(i)),
            k,
            with_branch,
        ) == search::Found::Ok(
            if 1 <= k <= i {
                Some(
                    (
                        log.positions[k - 1],
                        if with_branch {
                            path(log, i, algorithm::root_level(i), k as nat)
                        } else {
                            Seq::empty()
                        },
                    ),
                )
            } else {
                None
            },
        ),
{
    let j = algorithm::root_level(i);
    let root = tree::inode_of(log, i, j);
    lemma_root(log, i);
    algorithm::lemma_root_level(i);
    algorithm::lemma_branches(i, j);
    if 1 <= k < i {
        lemma_descend(
            contents,
            log,
            root.node.address,
            i,
            j,
            k as nat,
            with_branch,
            INDEX_SIZE as nat,
        );
    } else if k > i {
        assert(search::choose_branch(root, k) is None);
    }
}

/// Exactly the entries of the tree are found, each at its position.
pub proof fn lemma_locate(
    contents: Seq<u8>,
    last: Option<EntryView>,
    log: Log,
    k: Index,
    with_branch: bool,
)
    requires
        tree::holds(contents, last, log),
    ensures
        mvht::locate(contents, last, k, with_branch) == search::Found::Ok(
            if 1 <= k <= log.len() {
                Some(
                    (
                        log.positions[k - 1],
                        if with_branch {
                            path(
                                log,
                                log.len(),
                                algorithm::root_level(log.len()),
                                k as nat,
                            )
                        } else {
                            Seq::empty()
                        },
                    ),
                )
            } else {
                None
            },
        ),
{
    if log.len() > 0 {
        lemma_root(log, log.len());
        if log.len() > 1 {
            lemma_search(contents, log, log.len(), k, with_branch);
        }
    }
}

/// Exactly the nodes of the tree are found, each with its address and its hash value.
pub proof fn lemma_node(contents: Seq<u8>, last: Option<EntryView>, log: Log, i: Index, j: u8)
    requires
        tree::holds(contents, last, log),
    ensures
        mvht::node_at(contents, last, i, j) == Ok::<Option<NodeView>, DetailView>(
            if i <= log.len() && algorithm::is_node(i as nat, j as nat) {
                Some(tree::node_of(log, i as nat, j as nat))
            } else {
                None
            },
        ),
{
    lemma_locate(contents, last, log, i, false);
    if 1 <= i <= log.len() {
        lemma_entry_read(contents, log, i as nat);
        tree::lemma_entry_of(log, i as nat);
        if j > 0 {
            tree::lemma_inode_found(log, i as nat, j);
        }
    }
}

/// Reading gives back each value that was appended, and nothing for other indices.
pub proof fn lemma_get(contents: Seq<u8>, last: Option<EntryView>, log: Log, i: Index)
    requires
        tree::holds(contents, last, log),
    ensures
        mvht::value_at(contents, last, i) == Ok::<Option<Seq<u8>>, DetailView>(
            if 1 <= i <= log.len() {
                Some(log.values[i - 1])
            } else {
                None
            },
        ),
{
    lemma_node(contents, last, log, i, 0);
    if 1 <= i <= log.len() {
        lemma_entry_read(contents, log, i as nat);
        tree::lemma_entry_of(log, i as nat);
    }
}

/// The root of the tree in its generation `i`, and the nodes that branch off on the way to it. Its
/// hash value is that of the tree with the first `i` values.
pub open spec fn root_in_generation(log: Log, i: Index) -> STRootView {
    let branches = path(log, log.len(), algorithm::root_level(log.len()), i as nat);
    if i == 0 || i > log.len() {
        STRootView::Empty
    } else if i == 1 {
        STRootView::ENode(tree::enode_of(log, 1), branches)
    } else {
        let inode = tree::inode_of(log, i as nat, algorithm::root_level(i as nat));
        STRootView::INode(
            INodeView {
                node: NodeView {
                    address: inode.node.address,
                    hash: tree::root_hash(log.values.take(i as int)),
                },
                left: inode.left,
                right: inode.right,
            },
            branches,
        )
    }
}

/// The root of every generation can be read later, with the hash value of the tree as it was then, and
/// with the nodes that branch off on the way to its entry.
pub proof fn lemma_generation(contents: Seq<u8>, last: Option<EntryView>, log: Log, i: Index)
    requires
        tree::holds(contents, last, log),
    ensures
        mvht::generation_root(contents, last, i) == Ok::<STRootView, DetailView>(
            root_in_generation(log, i),
        ),
{
    let n = log.len();
    lemma_locate(contents, last, log, i, true);
    if n > 0 {
        lemma_root(log, n);
    }
    if 1 <= i <= n {
        lemma_entry_read(contents, log, i as nat);
        tree::lemma_entry_of(log, i as nat);
        lemma_root(log, i as nat);
        lemma_history(log.values, i as nat);
    }
}

/// The hash value of the root of a generation is that of the tree as it was then, whatever was
/// appended since.
pub proof fn lemma_history(values: Seq<Seq<u8>>, i: nat)
    requires
        1 <= i <= values.len() <= u64::MAX,
    ensures
        tree::node_hash(values, i, algorithm::root_level(i)) == tree::root_hash(
            values.take(i as int),
        ),
{
    algorithm::lemma_root_level(i);
    tree::lemma_node_hash_is_root(values, i, algorithm::root_level(i));
    assert(values.subrange(0, i as int) =~= values.take(i as int));
}

/// A storage that holds a tree also holds every earlier version of it.
pub proof fn lemma_versions(contents: Seq<u8>, log: Log, n: nat)
    requires
        tree::holds(contents, tree::last_of(log), log),
        n <= log.len(),
    ensures
        tree::holds(contents, tree::last_of(log.take(n)), log.take(n)),
{
    let first = log.take(n);
    assert forall|i: nat| 1 <= i <= n implies #[trigger] roundtrip::holds_entry(
        contents,
        first.positions[i - 1] as nat,
        tree::entry_of(first, i),
    ) by {
        tree::lemma_entry_agrees(first, log, n, i);
        assert(roundtrip::holds_entry(
            contents,
            log.positions[i - 1] as nat,
            tree::entry_of(log, i),
        ));
    }
}

/// The values with the indices from `i` on, `count` of them.
pub open spec fn run_of(log: Log, i: nat, count: nat) -> Seq<ValueView> {
    Seq::new(count, |x: int| ValueView { i: (i + x) as u64, value: log.values[i + x - 1] })
}

/// The values of entries that are in the tree are read one after the other.
proof fn lemma_value_run(contents: Seq<u8>, log: Log, n: nat, i: nat, count: nat)
    requires
        log.valid(),
        tree::stored(contents, log),
        2 <= n <= log.len(),
        1 <= i,
        i + count <= n + 1,
    ensures
        mvht::value_run(
            contents,
            tree::inode_of(log, n, algorithm::root_level(n)),
            i,
            count,
        ) == mvht::Values::Ok(Some(run_of(log, i, count))),
    decreases count,
{
    if count == 0 {
        assert(run_of(log, i, count) =~= Seq::empty());
    } else {
        let value = ValueView { i: i as u64, value: log.values[i - 1] };
        lemma_search(contents, log, n, i as u64, false);
        lemma_entry_read(contents, log, i);
        lemma_value_run(contents, log, n, i + 1, (count - 1) as nat);
        assert(seq![value] + run_of(log, i + 1, (count - 1) as nat) =~= run_of(log, i, count));
    }
}

/// All values below the node `b_{i,j}` in the order of their indices, and the hash values of the nodes
/// that branch off on the way to the entry `i`. There are none for an index that is not in the tree,
/// and for the first leaf with another height than 0.
pub open spec fn values_of(log: Log, i: Index, j: u8) -> Option<DataSetView> {
    if 1 <= i <= log.len() && (i == 1 ==> j == 0) {
        let first = algorithm::first_leaf(i as nat, j as nat);
        let branches = path(log, log.len(), algorithm::root_level(log.len()), i as nat);
        Some(
            DataSetView {
                values: run_of(log, first, (i - first + 1) as nat),
                hashes: mvht::node_hashes(branches),
            },
        )
    } else {
        None
    }
}

/// All values below a node are read together, wherever their entries are, with the hash values of the
/// nodes that branch off on the way to the entry of the node.
pub proof fn lemma_values(
    contents: Seq<u8>,
    last: Option<EntryView>,
    log: Log,
    i: Index,
    j: u8,
)
    requires
        tree::holds(contents, last, log),
    ensures
        mvht::values_below(contents, last, i, j) == Ok::<Option<DataSetView>, DetailView>(
            values_of(log, i, j),
        ),
{
    if i > 0 {
        let first = algorithm::first_leaf(i as nat, j as nat);
        lemma_generation(contents, last, log, i);
        algorithm::lemma_floor_step((i - 1) as nat, j as nat);
        if i == 1 {
            power2::lemma2_to64();
            if log.len() > 0 && j == 0 {
                assert(run_of(log, first, 1) =~= seq![ValueView { i, value: log.values[0] }]);
            }
        } else if i <= log.len() {
            lemma_history(log.values, i as nat);
            lemma_value_run(contents, log, i as nat, first, (i - first + 1) as nat);
        }
    }
}

/// The nodes that branch off on the way to an entry prove that a node of the entry belongs to the
/// tree: combined with them, its hash value gives that of the node the way started from. They are
/// at most as many as that node is high.
pub proof fn lemma_climb(log: Log, i: nat, j: nat, k: nat)
    requires
        1 <= i <= u64::MAX,
        algorithm::is_node(i, j),
        algorithm::first_leaf(i, j) <= k <= i,
    ensures
        algorithm::is_node(k, reached(i, j, k)),
        reached(i, j, k) <= j,
        path(log, i, j, k).len() <= j,
        climb(
            k,
            tree::node_hash(log.values, k, reached(i, j, k)),
            path(log, i, j, k),
        ) == tree::node_hash(log.values, i, j),
    decreases j,
{
    if j == 0 {
        power2::lemma2_to64();
        assert(algorithm::first_leaf(i, 0) == i);
    } else if k < i {
        let split = algorithm::split(i, j);
        let below = algorithm::below(i, j);
        algorithm::lemma_branches(i, j);
        if k <= split {
            let rest = path(log, split, (j - 1) as nat, k);
            lemma_climb(log, split, (j - 1) as nat, k);
            assert(path(log, i, j, k).drop_first() =~= rest);
        } else {
            let rest = path(log, i, below, k);
            lemma_climb(log, i, below, k);
            assert(path(log, i, j, k).drop_first() =~= rest);
        }
    }
}

/// The nodes that come with an entry when it is looked for lead to the hash value of the root.
pub proof fn lemma_membership(log: Log, k: nat)
    requires
        1 <= k <= log.len() <= u64::MAX,
    ensures
        ({
            let n = log.len();
            let top = algorithm::root_level(n);
            &&& algorithm::is_node(k, reached(n, top, k))
            &&& climb(
                k,
                tree::node_hash(log.values, k, reached(n, top, k)),
                path(log, n, top, k),
            ) == tree::root_hash(log.values)
        }),
{
    algorithm::lemma_root_level(log.len());
    lemma_climb(log, log.len(), algorithm::root_level(log.len()), k);
    lemma_history(log.values, log.len());
    assert(log.values.take(log.len() as int) =~= log.values);
}

/// The height of a tree is the smallest for which a binary tree has room for all its leaves, and 0
/// where it has none.
pub proof fn lemma_height(contents: Seq<u8>, last: Option<EntryView>, log: Log)
    requires
        tree::holds(contents, last, log),
    ensures
        mvht::size_of(last) == log.len(),
        log.len() == 0 ==> mvht::level_of(last) == 0,
        log.len() > 0 ==> {
            let j = mvht::level_of(last) as nat;
            &&& j == algorithm::root_level(log.len())
            &&& log.len() <= power2::pow2(j)
            &&& j > 0 ==> power2::pow2((j - 1) as nat) < log.len()
        },
{
    if log.len() > 0 {
        lemma_root(log, log.len());
        algorithm::lemma_root_level(log.len());
    }
}

/// The inner nodes of the next entry, made one after the other from what is stored, are those of the
/// tree with the new value.
proof fn lemma_new_inodes(
    contents: Seq<u8>,
    last: Option<EntryView>,
    log: Log,
    value: Seq<u8>,
    position: u64,
    k: nat,
)
    requires
        tree::holds(contents, last, log),
        log.len() < u64::MAX,
        k <= algorithm::levels(log.len() + 1, INDEX_SIZE as nat).len(),
    ensures
        mvht::new_inodes(
            contents,
            last,
            position,
            hash::hash_of(value),
            algorithm::inodes_of(log.len() + 1).take(k as int),
        ) == Ok::<Seq<INodeView>, DetailView>(
            tree::entry_of(log.push(value, position), log.len() + 1).inodes.take(k as int),
        ),
    decreases k,
{
    let n = log.len();
    let i = n + 1;
    let more = log.push(value, position);
    let levels = algorithm::levels(i, INDEX_SIZE as nat);
    let ids = algorithm::inodes_of(i);
    let inodes = tree::entry_of(more, i).inodes;
    if k == 0 {
        assert(ids.take(0) =~= Seq::empty());
        assert(inodes.take(0) =~= Seq::empty());
    } else {
        let l = (k - 1) as nat;
        let j = levels[l as int];
        let split = algorithm::split(i, j);
        lemma_new_inodes(contents, last, log, value, position, l);
        assert(ids.take(k as int).drop_last() =~= ids.take(l as int));
        assert(ids.take(k as int).last() == algorithm::inode_id(i, j));
        algorithm::lemma_level(i, INDEX_SIZE as nat, l as int);
        algorithm::lemma_branches(i, j);
        lemma_node(contents, last, log, split as u64, (j - 1) as u8);
        tree::lemma_node_agrees(log, more, n, split, (j - 1) as nat);
        assert(inodes[l as int] == tree::inode_of(more, i, j));
        if l > 0 {
            assert(inodes.take(l as int).last() == tree::inode_of(more, i, levels[l - 1]));
        }
        assert(inodes.take(k as int) =~= inodes.take(l as int).push(inodes[l as int]));
    }
}

/// The entry that a value is added with is that of the tree with the new value.
pub proof fn lemma_new_entry(
    contents: Seq<u8>,
    last: Option<EntryView>,
    log: Log,
    value: Seq<u8>,
)
    requires
        tree::holds(contents, last, log),
        log.len() < u64::MAX,
    ensures
        mvht::new_entry(contents, last, value) == Ok::<EntryView, DetailView>(
            tree::entry_of(log.push(value, contents.len() as u64), log.len() + 1),
        ),
{
    let position = contents.len() as u64;
    let more = log.push(value, position);
    let levels = algorithm::levels(log.len() + 1, INDEX_SIZE as nat);
    let ids = algorithm::inodes_of(log.len() + 1);
    let inodes = tree::entry_of(more, log.len() + 1).inodes;
    lemma_height(contents, last, log);
    lemma_new_inodes(contents, last, log, value, position, levels.len());
    assert(ids.take(levels.len() as int) =~= ids);
    assert(inodes.take(levels.len() as int) =~= inodes);
}

/// What is stored stays stored when more bytes are appended.
pub proof fn lemma_stored_with_more(
    contents: Seq<u8>,
    bytes: Seq<u8>,
    last: Option<EntryView>,
    log: Log,
)
    requires
        tree::holds(contents, last, log),
    ensures
        tree::holds(contents + bytes, last, log),
{
    assert((contents + bytes).take(4) =~= contents.take(4));
    assert forall|i: nat| 1 <= i <= log.len() implies #[trigger] roundtrip::holds_entry(
        contents + bytes,
        log.positions[i - 1] as nat,
        tree::entry_of(log, i),
    ) by {
        let at = log.positions[i - 1] as int;
        let e = entry::encode_entry(tree::entry_of(log, i));
        assert(roundtrip::holds_entry(contents, at as nat, tree::entry_of(log, i)));
        assert((contents + bytes).subrange(at, at + e.len()) =~= contents.subrange(
            at,
            at + e.len(),
        ));
    }
}

/// With the bytes of its entry behind the contents, the next value is stored too.
proof fn lemma_next_stored(contents: Seq<u8>, last: Option<EntryView>, log: Log, value: Seq<u8>)
    requires
        tree::holds(contents, last, log),
        contents.len() <= u64::MAX,
        log.len() < u64::MAX,
        value.len() <= MAX_PAYLOAD_SIZE,
    ensures
        ({
            let more = log.push(value, contents.len() as u64);
            let bytes = entry::encode_entry(tree::entry_of(more, more.len()));
            tree::holds(contents + bytes, tree::last_of(more), more)
        }),
{
    let n = log.len();
    let more = log.push(value, contents.len() as u64);
    let bytes = entry::encode_entry(tree::entry_of(more, n + 1));
    lemma_stored_with_more(contents, bytes, last, log);
    assert forall|i: nat| 1 <= i <= n + 1 implies #[trigger] roundtrip::holds_entry(
        contents + bytes,
        more.positions[i - 1] as nat,
        tree::entry_of(more, i),
    ) by {
        if i <= n {
            tree::lemma_entry_agrees(log, more, n, i);
            assert(roundtrip::holds_entry(
                contents + bytes,
                log.positions[i - 1] as nat,
                tree::entry_of(log, i),
            ));
        } else {
            assert((contents + bytes).subrange(
                contents.len() as int,
                (contents.len() + bytes.len()) as int,
            ) =~= bytes);
        }
    }
}

/// A tree to which something was appended stays such a tree, whatever comes of the next append. Where
/// that succeeds, the value is behind the others, and the result is its index and the hash value of
/// the new root. It succeeds on a device that does not fail and has room. Where it does not succeed,
/// all values are still there, and no other.
pub proof fn lemma_append<S: Storage>(
    before: MVHT<S>,
    after: MVHT<S>,
    log: Log,
    value: Seq<u8>,
    result: Result<(Index, Seq<u8>), DetailView>,
)
    requires
        tree::holds(before.contents(), before.last(), log),
        log.len() < u64::MAX,
        before.inv(),
        mvht::appended(before, after, value, result),
    ensures
        match result {
            Ok((i, hash)) => {
                let more = log.push(value, before.contents().len() as u64);
                &&& i == log.len() + 1
                &&& hash == tree::root_hash(more.values)
                &&& tree::holds(after.contents(), after.last(), more)
                &&& after.contents().len() == more.end(more.len())
            },
            Err(detail) => {
                &&& tree::holds(after.contents(), after.last(), log)
                &&& if value.len() > MAX_PAYLOAD_SIZE {
                    detail == (DetailView::TooLargePayload { size: value.len() as usize })
                } else {
                    &&& detail.is_fault()
                    &&& before.faultless() ==> before.contents().len() + tree::entry_size(
                        log.len() + 1,
                        value.len(),
                    ) > before.capacity()
                }
            },
        },
{
    let n = log.len();
    let contents = before.contents();
    let position = contents.len() as u64;
    let more = log.push(value, position);
    let new = tree::entry_of(more, n + 1);
    let bytes = entry::encode_entry(new);
    before.lemma_length();
    if value.len() <= MAX_PAYLOAD_SIZE {
        lemma_new_entry(contents, before.last(), log, value);
        lemma_height(contents, before.last(), log);
        assert(more.valid());
        tree::lemma_entry_of(more, n + 1);
        match result {
            Ok(_) => {
                lemma_root(more, n + 1);
                lemma_history(more.values, n + 1);
                assert(more.values.take((n + 1) as int) =~= more.values);
                lemma_next_stored(contents, before.last(), log, value);
            },
            Err(_) => {
                let count = choose|count: int|
                    0 <= count <= bytes.len() && after.contents() == #[trigger] (contents
                        + bytes.take(count));
                lemma_stored_with_more(contents, bytes.take(count), before.last(), log);
            },
        }
    }
}

/// An empty storage becomes that of the empty tree when it is opened.
pub proof fn lemma_start()
    ensures
        mvht::open_result(Seq::empty()) == Ok::<Option<EntryView>, DetailView>(None),
        tree::holds(mvht::opened(Seq::empty()), None, Log::empty()),
        mvht::opened(Seq::empty()).len() == Log::empty().end(0),
{
    mvht::lemma_header();
    assert(mvht::header().take(4) =~= mvht::header());
}

/// The last entry is found from the end of the contents, where it ends.
proof fn lemma_last_entry(contents: Seq<u8>, log: Log)
    requires
        log.valid(),
        log.len() > 0,
        tree::stored(contents, log),
        contents.len() == log.end(log.len()),
    ensures
        mvht::last_entry_of(contents) == Ok::<Option<EntryView>, DetailView>(tree::last_of(log)),
{
    let n = log.len();
    let at = log.positions[n - 1] as nat;
    let e = tree::entry_of(log, n);
    tree::lemma_entry_of(log, n);
    assert(roundtrip::holds_entry(contents, at, e));
    roundtrip::lemma_entry_round_trip(contents, at, e, 0);
    entry::lemma_encode_len(e);
    let trailer = (contents.len() - 12) as nat;
    assert(trailer == entry::entry_end(contents, at));
    assert(mvht::retreat(contents.len(), 12, "The first entry is corrupted."@) == Ok::<
        nat,
        DetailView,
    >(trailer));
    assert(mvht::retreat(
        trailer + 4,
        (entry::u32_at(contents, trailer) + 4) as nat,
        "The last entry is corrupted."@,
    ) == Ok::<nat, DetailView>(at));
}

/// Opening a storage again gives the tree that was left on it. The contents have to end with the last
/// entry, as they do where the last append did not fail.
pub proof fn lemma_open(contents: Seq<u8>, last: Option<EntryView>, log: Log)
    requires
        tree::holds(contents, last, log),
        contents.len() == log.end(log.len()),
    ensures
        mvht::open_result(contents) == Ok::<Option<EntryView>, DetailView>(last),
        mvht::opened(contents) == contents,
{
    mvht::lemma_header();
    if log.len() > 0 {
        lemma_last_entry(contents, log);
    }
}

} // verus!
