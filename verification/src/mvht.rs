//! The hash tree.
use crate::algorithm;
use crate::algorithm::{Generation, INodeId, Index, NodeId, INDEX_SIZE};
use crate::endian;
use crate::entry;
use crate::entry::MAX_PAYLOAD_SIZE;
use crate::error;
use crate::error::{Detail, DetailView};
use crate::guarantees;
use crate::hash;
use crate::laws;
use crate::model;
use crate::model::{
    Address, DataSet, DataSetView, ENode, ENodeView, Entry, EntryView, INode, INodeView, Node,
    NodeHash, NodeHashView, NodeView, Root, RootView, STRoot, STRootView, Value, ValueView,
};
use crate::search;
use crate::storage;
use crate::storage::{Cursor, Reader, SeekFrom, Storage};
use crate::text;
use crate::tree;
use crate::tree::Log;
use vstd::arithmetic::power2;
use vstd::prelude::*;

verus! {

/// The major version of the format that this library writes.
pub const STORAGE_MAJOR_VERSION: u8 = 0;

/// The minor version of the format that this library writes.
pub const STORAGE_MINOR_VERSION: u8 = 0;

/// Both versions in one byte.
pub const STORAGE_VERSION: u8 = (STORAGE_MAJOR_VERSION << 4) | (STORAGE_MINOR_VERSION & 0x0F);

/// The identifier at the head of a storage that holds a hash tree.
pub const STORAGE_IDENTIFIER: [u8; 3] = [0x01u8, 0xF3u8, 0x33u8];

/// Whether storages with this version can be read. In the major version 0 the minor version has to
/// be the same.
pub open spec fn version_compatible(version: u8) -> bool {
    &&& version / 16 == STORAGE_MAJOR_VERSION
    &&& STORAGE_MAJOR_VERSION != 0 || version % 16 == STORAGE_MINOR_VERSION
}

/// Tells whether storages with this version can be read.
pub fn is_version_compatible(version: u8) -> (result: bool)
    ensures
        result == version_compatible(version),
        result == (version == 0),
{
    assert(version >> 4 == version / 16) by (bit_vector);
    assert(version & 0x0F == version % 16) by (bit_vector);
    version >> 4 == STORAGE_MAJOR_VERSION && (STORAGE_MAJOR_VERSION != 0 || version & 0x0F
        == STORAGE_MINOR_VERSION)
}

/// The bytes at the head of a storage.
pub open spec fn header() -> Seq<u8> {
    STORAGE_IDENTIFIER@.push(STORAGE_VERSION)
}

/// What a storage with these bytes at its head is.
pub open spec fn header_result(head: Seq<u8>) -> Result<(), DetailView> {
    if head.take(3) != STORAGE_IDENTIFIER@ {
        Err(bad_magic_number())
    } else if !version_compatible(head[3]) {
        Err(DetailView::IncompatibleVersion((head[3] / 16) as u8, (head[3] % 16) as u8))
    } else {
        Ok(())
    }
}

/// The error for a storage that does not start with the identifier.
pub open spec fn bad_magic_number() -> DetailView {
    DetailView::FileIsNotContentsOfMVHTree { message: "bad magic number"@ }
}

/// Checks the bytes at the head of a storage.
pub fn check_header(head: &[u8]) -> (result: Result<(), Detail>)
    requires
        head@.len() == 4,
    ensures
        match result {
            Ok(()) => header_result(head@) == Ok::<(), DetailView>(()),
            Err(detail) => header_result(head@) == Err::<(), DetailView>(detail@),
        },
        result is Ok <==> head@ == seq![0x01u8, 0xF3u8, 0x33u8, 0x00u8],
{
    proof {
        guarantees::lemma_constants();
        guarantees::lemma_version(head@[3]);
        if head@[0] == 0x01 && head@[1] == 0xF3 && head@[2] == 0x33 && head@[3] == 0 {
            assert(head@ =~= seq![0x01u8, 0xF3u8, 0x33u8, 0x00u8]);
        }
    }
    assert(head@.take(3) == STORAGE_IDENTIFIER@ <==> head@[0] == STORAGE_IDENTIFIER@[0] && head@[1]
        == STORAGE_IDENTIFIER@[1] && head@[2] == STORAGE_IDENTIFIER@[2]) by {
        if head@[0] == STORAGE_IDENTIFIER@[0] && head@[1] == STORAGE_IDENTIFIER@[1] && head@[2]
            == STORAGE_IDENTIFIER@[2] {
            assert(head@.take(3) =~= STORAGE_IDENTIFIER@);
        }
        assert(head@.take(3)[0] == head@[0]);
        assert(head@.take(3)[1] == head@[1]);
        assert(head@.take(3)[2] == head@[2]);
    }
    let version: u8 = head[3];
    if head[0] != STORAGE_IDENTIFIER[0] || head[1] != STORAGE_IDENTIFIER[1] || head[2]
        != STORAGE_IDENTIFIER[2] {
        return Err(Detail::FileIsNotContentsOfMVHTree { message: "bad magic number" });
    } else if !is_version_compatible(version) {
        assert(version >> 4 == version / 16) by (bit_vector);
        assert(version & 0x0F == version % 16) by (bit_vector);
        return Err(Detail::IncompatibleVersion(version >> 4, version & 0x0F));
    }
    Ok(())
}

/// What is written at the head of a storage is accepted there.
pub proof fn lemma_header()
    ensures
        header().len() == 4,
        header_result(header()) == Ok::<(), DetailView>(()),
{
    assert(((0u8 << 4) | (0u8 & 0x0F)) == 0) by (bit_vector);
    assert(header().take(3) =~= STORAGE_IDENTIFIER@);
}

/// What was written of one of the two parts of the header is a part of the header.
proof fn lemma_part_of_header(contents: Seq<u8>, before: Seq<u8>, bytes: Seq<u8>)
    requires
        before + bytes == header().take((before.len() + bytes.len()) as int),
        before.len() + bytes.len() <= header().len(),
        storage::appended_part(before, contents, bytes),
    ensures
        storage::appended_part(Seq::empty(), contents, header()),
{
    let count = choose|count: int|
        0 <= count <= bytes.len() && contents == #[trigger] (before + bytes.take(count));
    let all = before.len() + count;
    assert(before + bytes.take(count) =~= (before + bytes).take(all));
    assert((before + bytes).take(all) =~= header().take(all));
    assert(Seq::empty() + header().take(all) =~= header().take(all));
}

/// What moving back from the position `from` by `distance` bytes gives.
pub open spec fn retreat(from: nat, distance: nat, if_err: Seq<char>) -> Result<nat, DetailView> {
    if from - distance < STORAGE_IDENTIFIER@.len() + 1 {
        Err(
            DetailView::DamagedStorage(
                if_err + " (cannot move position from "@ + text::decimal(from) + " to "@
                    + text::signed_decimal(from - distance) + ")"@,
            ),
        )
    } else {
        Ok((from - distance) as nat)
    }
}

/// Moves the cursor back by `distance` bytes from where it is. Where it would come before the first
/// entry it is not moved. The error is then that the storage is damaged, and its message starts with
/// `if_err`.
pub fn back_to_safety<C: Cursor>(cursor: &mut C, distance: u64, if_err: &'static str) -> (result:
    Result<u64, Detail>)
    requires
        distance <= i64::MAX,
    ensures
        final(cursor).contents() == old(cursor).contents(),
        storage::same_device(*final(cursor), *old(cursor)),
        ({
            let expected = retreat(old(cursor).position(), distance as nat, if_err@);
            match result {
                Ok(to) => {
                    &&& expected == Ok::<nat, DetailView>(to as nat)
                    &&& final(cursor).position() == to
                },
                Err(detail) => error::failed(old(cursor).faultless(), detail, expected),
            }
        }),
        retreat(old(cursor).position(), distance as nat, if_err@) is Err ==>
            final(cursor).position() == old(cursor).position(),
        result matches Ok(to) ==> to == old(cursor).position() - distance && to >= 4,
        old(cursor).position() < distance + 4 ==> result is Err,
{
    let from: u64 = match cursor.stream_position() {
        Ok(from) => from,
        Err(detail) => return Err(detail),
    };
    if from < distance || from - distance < STORAGE_IDENTIFIER.len() as u64 + 1 {
        let mut message = String::from_str(if_err);
        message.append(" (cannot move position from ");
        text::push_decimal(&mut message, from);
        message.append(" to ");
        text::push_difference(&mut message, from, distance);
        message.append(")");
        Err(Detail::DamagedStorage(message))
    } else {
        cursor.seek(SeekFrom::Current(-(distance as i64)))
    }
}

/// The last entry of a storage with these contents, if it has one.
pub open spec fn last_entry_of(contents: Seq<u8>) -> Result<Option<EntryView>, DetailView> {
    if contents.len() == 4 {
        Ok(None)
    } else {
        match retreat(contents.len(), 12, "The first entry is corrupted."@) {
            Err(detail) => Err(detail),
            Ok(trailer) => {
                let offset = entry::u32_at(contents, trailer);
                match retreat(
                    trailer + 4,
                    (offset + 4) as nat,
                    "The last entry is corrupted."@,
                ) {
                    Err(detail) => Err(detail),
                    Ok(at) => match entry::parse_checked_entry(contents, at, 0) {
                        Err(detail) => Err(detail),
                        Ok(entry) => if entry::entry_end(contents, at) + 12 != contents.len() {
                            Err(DetailView::DamagedStorage("The last entry is corrupted."@))
                        } else {
                            Ok(Some(entry))
                        },
                    },
                }
            },
        }
    }
}

/// What opening a storage with these contents gives: its last entry, if it has one.
pub open spec fn open_result(contents: Seq<u8>) -> Result<Option<EntryView>, DetailView> {
    if contents.len() == 0 {
        Ok(None)
    } else if contents.len() < 4 {
        Err(bad_magic_number())
    } else {
        match header_result(contents.take(4)) {
            Err(detail) => Err(detail),
            Ok(()) => last_entry_of(contents),
        }
    }
}

/// The contents of a storage after it was opened.
pub open spec fn opened(contents: Seq<u8>) -> Seq<u8> {
    if contents.len() == 0 {
        header()
    } else {
        contents
    }
}

/// Reads the last entry, which ends where the contents end. The cursor is at that end before.
fn read_last_entry<C: Cursor>(r: &mut C) -> (result: Result<Option<Entry>, Detail>)
    requires
        old(r).position() == old(r).contents().len(),
        old(r).contents().len() <= u64::MAX,
    ensures
        final(r).contents() == old(r).contents(),
        storage::same_device(*final(r), *old(r)),
        ({
            let expected = last_entry_of(old(r).contents());
            match result {
                Ok(Some(entry)) => expected == Ok::<Option<EntryView>, DetailView>(Some(entry@)),
                Ok(None) => expected == Ok::<Option<EntryView>, DetailView>(None),
                Err(detail) => error::failed(old(r).faultless(), detail, expected),
            }
        }),
{
    let length: u64 = match r.stream_position() {
        Ok(length) => length,
        Err(detail) => return Err(detail),
    };
    if length == 4 {
        return Ok(None);
    }
    match back_to_safety(r, 4 + 8, "The first entry is corrupted.") {
        Ok(_) => {},
        Err(detail) => return Err(detail),
    }
    let offset: u32 = match storage::read_u32(r) {
        Ok(offset) => offset,
        Err(detail) => return Err(detail),
    };
    match back_to_safety(r, offset as u64 + 4, "The last entry is corrupted.") {
        Ok(_) => {},
        Err(detail) => return Err(detail),
    }
    let entry = match entry::read_entry(r, 0) {
        Ok(entry) => entry,
        Err(detail) => return Err(detail),
    };
    let end: u64 = match r.stream_position() {
        Ok(end) => end,
        Err(detail) => return Err(detail),
    };
    if end != length {
        // An offset from a damaged storage may happen to point at the head of some sound entry. That
        // entry can be read, but it does not end where the contents end.
        return Err(Detail::DamagedStorage(String::from_str("The last entry is corrupted.")));
    }
    Ok(Some(entry))
}

/// The root of the tree whose last entry is `last`.
pub open spec fn root_of(last: Option<EntryView>) -> RootView {
    match last {
        None => RootView::Empty,
        Some(entry) => if entry.inodes.len() > 0 {
            RootView::INode(entry.inodes.last())
        } else {
            RootView::ENode(entry.enode)
        },
    }
}

/// The number of values in the tree whose last entry is `last`.
pub open spec fn size_of(last: Option<EntryView>) -> Index {
    match root_of(last) {
        RootView::Empty => 0,
        RootView::INode(inode) => inode.node.address.i,
        RootView::ENode(enode) => enode.node.address.i,
    }
}

/// The height of the tree whose last entry is `last`.
pub open spec fn level_of(last: Option<EntryView>) -> u8 {
    match root_of(last) {
        RootView::Empty => 0,
        RootView::INode(inode) => inode.node.address.j,
        RootView::ENode(enode) => enode.node.address.j,
    }
}

/// The position of the entry `i` of a tree, if it is there, and the nodes that branch off on the
/// way to it from the root.
pub open spec fn locate(
    contents: Seq<u8>,
    last: Option<EntryView>,
    i: Index,
    with_branch: bool,
) -> search::Found {
    match root_of(last) {
        RootView::Empty => Ok(None),
        RootView::INode(root) => search::search(contents, root, i, with_branch),
        RootView::ENode(root) => if root.node.address.i == i {
            Ok(Some((root.node.address.position, Seq::empty())))
        } else {
            Ok(None)
        },
    }
}

/// Whether the root of a tree alone tells that there is no entry `i`.
pub open spec fn out_of_range(last: Option<EntryView>, i: Index) -> bool {
    match root_of(last) {
        RootView::Empty => true,
        RootView::INode(root) => root.node.address.i != i && (i == 0 || search::choose_branch(
            root,
            i,
        ) is None),
        RootView::ENode(root) => root.node.address.i != i,
    }
}

/// The node `b_{i,j}` of a tree, if it is there.
pub open spec fn node_at(contents: Seq<u8>, last: Option<EntryView>, i: Index, j: u8) -> Result<
    Option<NodeView>,
    DetailView,
> {
    match locate(contents, last, i, false) {
        Err(detail) => Err(detail),
        Ok(None) => Ok(None),
        Ok(Some((position, _))) => if j == 0 {
            match entry::parse_entry(contents, position as nat, position, i) {
                Err(detail) => Err(detail),
                Ok(entry) => Ok(Some(entry.enode.node)),
            }
        } else {
            match entry::parse_inodes(contents, position as nat, position) {
                Err(detail) => Err(detail),
                Ok(inodes) => match search::inode_at_level(inodes, j) {
                    Some(inode) => Ok(Some(inode.node)),
                    None => Ok(None),
                },
            }
        },
    }
}

/// The value with the index `i` in a tree, if it is there.
pub open spec fn value_at(contents: Seq<u8>, last: Option<EntryView>, i: Index) -> Result<
    Option<Seq<u8>>,
    DetailView,
> {
    match node_at(contents, last, i, 0) {
        Err(detail) => Err(detail),
        Ok(None) => Ok(None),
        Ok(Some(node)) => match entry::parse_entry(
            contents,
            node.address.position as nat,
            node.address.position,
            node.address.i,
        ) {
            Err(detail) => Err(detail),
            Ok(entry) => Ok(Some(entry.enode.payload)),
        },
    }
}

/// The root of a tree in its generation `i`, and the nodes that branch off on the way to it.
pub open spec fn generation_root(contents: Seq<u8>, last: Option<EntryView>, i: Index) -> Result<
    STRootView,
    DetailView,
> {
    match root_of(last) {
        RootView::Empty => Ok(STRootView::Empty),
        RootView::INode(root) => if root.node.address.i == i {
            Ok(STRootView::INode(root, Seq::empty()))
        } else {
            match locate(contents, last, i, true) {
                Err(detail) => Err(detail),
                Ok(None) => Ok(STRootView::Empty),
                Ok(Some((position, branches))) => if i == 1 {
                    match entry::parse_entry(contents, position as nat, position, i) {
                        Err(detail) => Err(detail),
                        Ok(entry) => Ok(STRootView::ENode(entry.enode, branches)),
                    }
                } else {
                    match entry::parse_inodes(contents, position as nat, position) {
                        Err(detail) => Err(detail),
                        Ok(inodes) => if inodes.len() > 0 {
                            Ok(STRootView::INode(inodes.last(), branches))
                        } else {
                            Ok(STRootView::Empty)
                        },
                    }
                },
            }
        },
        RootView::ENode(root) => if root.node.address.i == i {
            Ok(STRootView::ENode(root, Seq::empty()))
        } else {
            Ok(STRootView::Empty)
        },
    }
}

/// What reading some values gives: the values, if all their entries are there.
pub type Values = Result<Option<Seq<ValueView>>, DetailView>;

/// The values with the indices from `i` on, `count` of them, in the tree below the inner node `root`.
pub open spec fn value_run(contents: Seq<u8>, root: INodeView, i: nat, count: nat) -> Values
    decreases count,
{
    if count == 0 {
        Ok(Some(Seq::empty()))
    } else {
        match search::search(contents, root, i as u64, false) {
            Err(detail) => Err(detail),
            Ok(None) => Ok(None),
            Ok(Some((position, _))) => match entry::parse_entry(
                contents,
                position as nat,
                position,
                i as u64,
            ) {
                Err(detail) => Err(detail),
                Ok(entry) => after(
                    seq![ValueView { i: i as u64, value: entry.enode.payload }],
                    value_run(contents, root, i + 1, (count - 1) as nat),
                ),
            },
        }
    }
}

/// The values with others in front of them.
pub open spec fn after(values: Seq<ValueView>, rest: Values) -> Values {
    match rest {
        Ok(Some(more)) => Ok(Some(values + more)),
        _ => rest,
    }
}

/// The hash values of nodes, without the positions.
pub open spec fn node_hashes(nodes: Seq<NodeView>) -> Seq<NodeHashView> {
    nodes.map_values(
        |node: NodeView|
            NodeHashView { i: node.address.i, j: node.address.j, hash: node.hash },
    )
}

/// All values below the node `b_{i,j}` of a tree, with the hash values of the nodes that branch off
/// on the way to the entry `i`.
pub open spec fn values_below(contents: Seq<u8>, last: Option<EntryView>, i: Index, j: u8) -> Result<
    Option<DataSetView>,
    DetailView,
> {
    if i == 0 {
        Ok(None)
    } else {
        match generation_root(contents, last, i) {
            Err(detail) => Err(detail),
            Ok(STRootView::Empty) => Ok(None),
            Ok(STRootView::INode(root, branches)) => {
                let first = algorithm::first_leaf(i as nat, j as nat);
                match value_run(contents, root, first, (i - first + 1) as nat) {
                    Err(detail) => Err(detail),
                    Ok(None) => Ok(None),
                    Ok(Some(values)) => Ok(
                        Some(DataSetView { values, hashes: node_hashes(branches) }),
                    ),
                }
            },
            Ok(STRootView::ENode(enode, branches)) => if enode.node.address.i == i && j == 0 {
                let value = ValueView { i, value: enode.payload };
                Ok(Some(DataSetView { values: seq![value], hashes: node_hashes(branches) }))
            } else {
                Ok(None)
            },
        }
    }
}

/// The inner node `id` in an entry at `position` with the left branch `left` and the hash value
/// `hash`.
pub open spec fn joined(id: INodeId, position: u64, left: NodeView, hash: Seq<u8>) -> INodeView {
    INodeView {
        node: NodeView {
            address: Address { i: id.node.i, j: id.node.j, position },
            hash,
        },
        left: left.address,
        right: Address { i: id.right.i, j: id.right.j, position },
    }
}

/// Makes the inner node `id` in an entry at `position` with the left branch `left` and the hash
/// value `hash`.
pub fn join(id: &INodeId, position: u64, left: &Node, hash: hash::Hash) -> (inode: INode)
    ensures
        inode@ == joined(*id, position, left@, hash@),
{
    let right = Address::new(id.right.i, id.right.j, position);
    let node = Node::new(Address::new(id.node.i, id.node.j, position), hash);
    INode::new(node, left.address, right)
}

/// The message for a node that is missing.
pub open spec fn missing_message(id: NodeId) -> Seq<char> {
    "cannot find the node b_{"@ + text::decimal(id.i as nat) + ","@ + text::decimal(id.j as nat)
        + "}"@
}

/// The hash value of the highest node of an entry.
pub open spec fn top_hash(leaf_hash: Seq<u8>, inodes: Seq<INodeView>) -> Seq<u8> {
    if inodes.len() == 0 {
        leaf_hash
    } else {
        inodes.last().node.hash
    }
}

/// The inner nodes `ids`, from the lowest to the highest, of the entry at `position` that is added
/// to a tree. The hash value of its leaf is `leaf_hash`.
pub open spec fn new_inodes(
    contents: Seq<u8>,
    last: Option<EntryView>,
    position: u64,
    leaf_hash: Seq<u8>,
    ids: Seq<INodeId>,
) -> Result<Seq<INodeView>, DetailView>
    decreases ids.len(),
{
    if ids.len() == 0 {
        Ok(Seq::empty())
    } else {
        match new_inodes(contents, last, position, leaf_hash, ids.drop_last()) {
            Err(detail) => Err(detail),
            Ok(inodes) => {
                let id = ids.last();
                match node_at(contents, last, id.left.i, id.left.j) {
                    Err(detail) => Err(detail),
                    Ok(None) => Err(
                        DetailView::InternalStateInconsistency {
                            message: missing_message(id.left),
                        },
                    ),
                    Ok(Some(left)) => {
                        let hash = hash::hash_of(left.hash + top_hash(leaf_hash, inodes));
                        Ok(inodes.push(joined(id, position, left, hash)))
                    },
                }
            },
        }
    }
}

/// Where some of the first inner nodes cannot be made, the error is the same for all.
proof fn lemma_new_inodes_stop(
    contents: Seq<u8>,
    last: Option<EntryView>,
    position: u64,
    leaf_hash: Seq<u8>,
    ids: Seq<INodeId>,
    k: int,
)
    requires
        0 <= k <= ids.len(),
    ensures
        new_inodes(contents, last, position, leaf_hash, ids.take(k)) is Err ==> new_inodes(
            contents,
            last,
            position,
            leaf_hash,
            ids.take(k),
        ) == new_inodes(contents, last, position, leaf_hash, ids),
    decreases ids.len() - k,
{
    if k == ids.len() {
        assert(ids.take(k) =~= ids);
    } else {
        lemma_new_inodes_stop(contents, last, position, leaf_hash, ids, k + 1);
        assert(ids.take(k + 1).drop_last() =~= ids.take(k));
    }
}

/// The entry that `value` is added to a tree with.
pub open spec fn new_entry(contents: Seq<u8>, last: Option<EntryView>, value: Seq<u8>) -> Result<
    EntryView,
    DetailView,
> {
    let i = (size_of(last) + 1) as u64;
    let position = contents.len() as u64;
    let leaf_hash = hash::hash_of(value);
    match new_inodes(contents, last, position, leaf_hash, algorithm::inodes_of(i as nat)) {
        Err(detail) => Err(detail),
        Ok(inodes) => Ok(
            EntryView {
                enode: ENodeView {
                    node: NodeView { address: Address { i, j: 0, position }, hash: leaf_hash },
                    payload: value,
                },
                inodes,
            },
        ),
    }
}

/// Whether appending `value` to the tree `before` may leave the tree `after` and have this result.
/// A value that is too large is refused. Otherwise the entry of the value is appended to the
/// contents, and the result is the index of the value and the hash value of the new root. Where the
/// storage does not fit to the tree, or the device fails, the last entry of the tree stays the
/// same; only a device that fails can have taken a part of the new entry.
pub open spec fn appended<S: Storage>(
    before: MVHT<S>,
    after: MVHT<S>,
    value: Seq<u8>,
    result: Result<(Index, Seq<u8>), DetailView>,
) -> bool {
    if value.len() > MAX_PAYLOAD_SIZE {
        &&& result == Err::<(Index, Seq<u8>), DetailView>(
            DetailView::TooLargePayload { size: value.len() as usize },
        )
        &&& after.contents() == before.contents()
        &&& after.last() == before.last()
    } else {
        match new_entry(before.contents(), before.last(), value) {
            Err(expected) => {
                &&& result matches Err(detail)
                &&& detail == expected || !before.faultless() && detail.is_fault()
                &&& after.contents() == before.contents()
                &&& after.last() == before.last()
            },
            Ok(entry) => match result {
                Ok((i, hash)) => {
                    &&& i == size_of(before.last()) + 1
                    &&& hash == top_hash(entry.enode.node.hash, entry.inodes)
                    &&& after.contents() == before.contents() + entry::encode_entry(entry)
                    &&& after.last() == Some(entry)
                },
                Err(detail) => {
                    &&& detail.is_fault()
                    &&& before.faultless() ==> before.contents().len() + entry::encode_entry(
                        entry,
                    ).len() > before.capacity()
                    &&& storage::appended_part(
                        before.contents(),
                        after.contents(),
                        entry::encode_entry(entry),
                    )
                    &&& after.last() == before.last()
                },
            },
        }
    }
}

/// The hash values of nodes, without the positions.
fn hashes_of(nodes: &Vec<Node>) -> (hashes: Vec<NodeHash>)
    ensures
        hashes@.map_values(|hash: NodeHash| hash@) == node_hashes(model::node_views(nodes@)),
{
    let mut hashes: Vec<NodeHash> = Vec::with_capacity(nodes.len());
    let mut k: usize = 0;
    while k < nodes.len()
        invariant
            k <= nodes.len(),
            hashes@.len() == k,
            forall|l: int|
                0 <= l < k ==> (#[trigger] hashes@[l])@ == node_hashes(
                    model::node_views(nodes@),
                )[l],
        decreases nodes.len() - k,
    {
        let node = nodes[k];
        hashes.push(NodeHash { i: node.address.i, j: node.address.j, hash: node.hash });
        k = k + 1;
    }
    assert(hashes@.map_values(|hash: NodeHash| hash@) =~= node_hashes(model::node_views(nodes@)));
    hashes
}

/// The hash value of the highest node of the entry.
pub fn entry_hash(entry: &Entry) -> (hash: hash::Hash)
    ensures
        hash@ == top_hash(entry@.enode.node.hash, entry@.inodes),
{
    let count: usize = entry.inodes.len();
    if count == 0 {
        entry.enode.node.hash
    } else {
        assert(entry@.inodes.last() == entry.inodes@.last()@);
        entry.inodes[count - 1].node.hash
    }
}

proof fn lemma_after_nothing(run: Values)
    ensures
        after(Seq::empty(), run) == run,
{
    if let Ok(Some(values)) = run {
        assert(Seq::<ValueView>::empty() + values =~= values);
    }
}

proof fn lemma_after_both(first: Seq<ValueView>, second: Seq<ValueView>, run: Values)
    ensures
        after(first, after(second, run)) == after(first + second, run),
{
    if let Ok(Some(values)) = run {
        assert(first + (second + values) =~= first + second + values);
    }
}

/// A hash tree that keeps every version of itself. Values are only ever appended, each in an entry
/// of the storage.
pub struct MVHT<S: Storage> {
    cursor: S::Handle,
    last: Option<Entry>,
}

impl<S: Storage> MVHT<S> {
    /// The bytes on the storage.
    pub closed spec fn contents(&self) -> Seq<u8> {
        self.cursor.contents()
    }

    /// The last entry, if there is one.
    pub closed spec fn last(&self) -> Option<EntryView> {
        match self.last {
            Some(entry) => Some(entry@),
            None => None,
        }
    }

    /// Whether the device of the storage never fails.
    pub closed spec fn faultless(&self) -> bool {
        self.cursor.faultless()
    }

    /// The number of bytes for which the device of the storage has room.
    pub closed spec fn capacity(&self) -> nat {
        self.cursor.capacity()
    }

    /// Whether the next entry will be appended to the contents.
    pub closed spec fn inv(&self) -> bool {
        &&& self.cursor.position() == self.cursor.contents().len()
        &&& self.cursor.contents().len() <= u64::MAX
        &&& self.cursor.writable()
    }

    /// The positions on the storage fit in 64 bits.
    pub proof fn lemma_length(&self)
        requires
            self.inv(),
        ensures
            self.contents().len() <= u64::MAX,
    {
    }

    /// Opens the tree on the storage, or starts one where the storage is empty.
    pub fn new(storage: S) -> (result: Result<MVHT<S>, Detail>)
        ensures
            match result {
                Ok(tree) => {
                    &&& open_result(storage.contents()) == Ok::<_, DetailView>(tree.last())
                    &&& tree.contents() == opened(storage.contents())
                    &&& tree.faultless() == storage.faultless()
                    &&& tree.capacity() == storage.capacity()
                    &&& tree.inv()
                    &&& storage.contents().len() == 0 ==> tree.contents() == seq![
                        0x01u8,
                        0xF3u8,
                        0x33u8,
                        0x00u8,
                    ]
                    &&& storage.contents().len() > 0 ==> tree.contents() == storage.contents()
                    &&& tree.contents().len() >= 4
                    &&& tree.contents()[0] == 0x01
                    &&& tree.contents()[1] == 0xF3
                    &&& tree.contents()[2] == 0x33
                    &&& tree.contents()[3] == 0x00
                    &&& tree.last() is None <==> tree.contents().len() == 4
                    &&& tree.last() matches Some(e) ==> {
                        let contents = tree.contents();
                        let end = contents.len() as int;
                        let at = e.enode.node.address.position as int;
                        let size = e.enode.payload.len();
                        &&& 4 <= at
                        &&& end == at + 57 + 50 * e.inodes.len() + size
                        &&& e.enode.payload == contents.subrange(end - 44 - size, end - 44)
                        &&& endian::le_value(contents.subrange(end - 12, end - 8)) == end - 12 - at
                        &&& endian::le_value(contents.subrange(end - 8, end))
                            == hash::highway_hash64(
                            guarantees::checksum_key(),
                            contents.subrange(at, end - 8),
                        )
                    }
                },
                Err(detail) => error::failed(
                    storage.faultless() && (storage.contents().len() == 0 ==> header().len()
                        <= storage.capacity()),
                    detail,
                    open_result(storage.contents()),
                ),
            },
            storage.contents().len() == 0 ==> match result {
                Ok(tree) => tree::holds(
                    tree.contents(),
                    tree.last(),
                    (Log { values: Seq::empty(), positions: Seq::empty() }),
                ),
                Err(detail) => detail@.is_fault() && (!storage.faultless() || storage.capacity()
                    < 4),
            },
            forall|log: Log|
                #[trigger] tree::holds(storage.contents(), tree::last_of(log), log)
                    && storage.contents().len() == log.end(log.len()) ==> match result {
                    Ok(tree) => tree::holds(tree.contents(), tree.last(), log),
                    Err(detail) => !storage.faultless() && detail@.is_fault(),
                },
    {
        proof {
            guarantees::lemma_constants();
            laws::lemma_start();
            assert(storage.contents().len() == 0 ==> storage.contents() =~= Seq::empty());
            assert forall|log: Log| #[trigger]
                tree::holds(storage.contents(), tree::last_of(log), log)
                    && storage.contents().len() == log.end(log.len()) implies open_result(
                storage.contents(),
            ) == Ok::<Option<EntryView>, DetailView>(tree::last_of(log)) && opened(
                storage.contents(),
            ) == storage.contents() by {
                laws::lemma_open(storage.contents(), tree::last_of(log), log);
            }
        }
        let mut cursor = match storage.open(true) {
            Ok(cursor) => cursor,
            Err(detail) => return Err(detail),
        };
        let last = match Self::init(&mut cursor) {
            Ok(last) => last,
            Err(detail) => return Err(detail),
        };
        proof {
            guarantees::lemma_opened_is_sound(storage.contents());
            guarantees::lemma_contents_opened(storage.contents());
        }
        Ok(MVHT { cursor, last })
    }

    /// Checks the head of the storage, or writes it where the storage is empty, and reads the last
    /// entry. Where that fails, nothing but the head was written, and only to an empty storage.
    fn init(cursor: &mut S::Handle) -> (result: Result<Option<Entry>, Detail>)
        requires
            old(cursor).writable(),
            old(cursor).contents().len() <= u64::MAX,
        ensures
            storage::same_device(*final(cursor), *old(cursor)),
            ({
                let expected = open_result(old(cursor).contents());
                match result {
                    Ok(last) => {
                        &&& expected == Ok::<Option<EntryView>, DetailView>(
                            match last {
                                Some(entry) => Some(entry@),
                                None => None,
                            },
                        )
                        &&& final(cursor).contents() == opened(old(cursor).contents())
                        &&& final(cursor).contents().len() <= u64::MAX
                        &&& final(cursor).position() == final(cursor).contents().len()
                    },
                    Err(detail) => {
                        &&& error::failed(
                            old(cursor).faultless() && (old(cursor).contents().len() == 0
                                ==> header().len() <= old(cursor).capacity()),
                            detail,
                            expected,
                        )
                        &&& if old(cursor).contents().len() > 0 {
                            final(cursor).contents() == old(cursor).contents()
                        } else {
                            storage::appended_part(
                                old(cursor).contents(),
                                final(cursor).contents(),
                                header(),
                            )
                        }
                    },
                }
            }),
    {
        assert(old(cursor).contents() + header().take(0) =~= old(cursor).contents());
        let length: u64 = match cursor.seek(SeekFrom::End(0)) {
            Ok(length) => length,
            Err(detail) => return Err(detail),
        };
        if length == 0 {
            // write the magic number
            match storage::write_all(cursor, STORAGE_IDENTIFIER.as_slice()) {
                Ok(()) => {},
                Err(detail) => {
                    proof {
                        assert(old(cursor).contents() =~= Seq::empty());
                        assert(Seq::empty() + STORAGE_IDENTIFIER@ =~= header().take(3));
                        lemma_part_of_header(cursor.contents(), Seq::empty(), STORAGE_IDENTIFIER@);
                    }
                    return Err(detail);
                },
            }
            match storage::write_all(cursor, [STORAGE_VERSION].as_slice()) {
                Ok(()) => {},
                Err(detail) => {
                    proof {
                        let version = [STORAGE_VERSION]@;
                        assert(old(cursor).contents() =~= Seq::empty());
                        assert(Seq::empty() + STORAGE_IDENTIFIER@ =~= STORAGE_IDENTIFIER@);
                        assert(STORAGE_IDENTIFIER@ + version =~= header().take(4));
                        lemma_part_of_header(cursor.contents(), STORAGE_IDENTIFIER@, version);
                    }
                    return Err(detail);
                },
            }
            proof {
                assert(cursor.contents() =~= header());
                assert(header().take(4) =~= header());
                assert(old(cursor).contents() + header().take(4) =~= header());
            }
        } else if length <= 3 {
            return Err(Detail::FileIsNotContentsOfMVHTree { message: "bad magic number" });
        } else {
            // check the magic number
            match cursor.seek(SeekFrom::Start(0)) {
                Ok(_) => {},
                Err(detail) => return Err(detail),
            }
            let head = match storage::read_exact(cursor, 4) {
                Ok(head) => head,
                Err(detail) => return Err(detail),
            };
            assert(head@ =~= cursor.contents().take(4));
            match check_header(head.as_slice()) {
                Ok(()) => {},
                Err(detail) => return Err(detail),
            }
        }
        match cursor.seek(SeekFrom::End(0)) {
            Ok(_) => {},
            Err(detail) => return Err(detail),
        }
        let last = match read_last_entry(cursor) {
            Ok(last) => last,
            Err(detail) => return Err(detail),
        };
        match cursor.seek(SeekFrom::End(0)) {
            Ok(_) => Ok(last),
            Err(detail) => Err(detail),
        }
    }

    /// The cursor that entries are written with. It gives access to the bytes on the storage.
    pub fn cursor(&self) -> (cursor: &S::Handle)
        ensures
            cursor.contents() == self.contents(),
            cursor.faultless() == self.faultless(),
            cursor.capacity() == self.capacity(),
            self.inv() ==> cursor.writable() && cursor.position() == self.contents().len(),
    {
        &self.cursor
    }

    /// Closes the tree and gives back the cursor, and with it what was recorded.
    pub fn into_cursor(self) -> (cursor: S::Handle)
        ensures
            cursor.contents() == self.contents(),
            cursor.faultless() == self.faultless(),
            cursor.capacity() == self.capacity(),
            self.inv() ==> cursor.writable() && cursor.position() == self.contents().len(),
    {
        self.cursor
    }

    /// The root of the tree.
    pub fn root(&self) -> (root: Root<'_>)
        ensures
            root@ == root_of(self.last()),
    {
        match &self.last {
            None => Root::Empty,
            Some(entry) => {
                let count: usize = entry.inodes.len();
                if count > 0 {
                    assert(entry@.inodes.last() == entry.inodes@[count - 1]@);
                    Root::INode(&entry.inodes[count - 1])
                } else {
                    Root::ENode(&entry.enode)
                }
            },
        }
    }

    /// The number of values in the tree.
    pub fn size(&self) -> (size: Index)
        ensures
            size == size_of(self.last()),
            forall|log: Log|
                #[trigger] tree::holds(self.contents(), self.last(), log) ==> size
                    == log.values.len(),
    {
        proof {
            assert forall|log: Log| #[trigger]
                tree::holds(self.contents(), self.last(), log) implies size_of(self.last())
                == log.values.len() by {
                laws::lemma_height(self.contents(), self.last(), log);
            }
        }
        match self.root() {
            Root::Empty => 0,
            Root::INode(inode) => inode.node.address.i,
            Root::ENode(enode) => enode.node.address.i,
        }
    }

    /// The height of the tree, which is 0 where it has no nodes.
    pub fn level(&self) -> (level: u8)
        ensures
            level == level_of(self.last()),
            forall|log: Log|
                #[trigger] tree::holds(self.contents(), self.last(), log) ==> {
                    &&& log.values.len() <= 1 ==> level == 0
                    &&& log.values.len() > 1 ==> level > 0 && power2::pow2((level - 1) as nat)
                        < log.values.len() <= power2::pow2(level as nat)
                },
    {
        proof {
            assert forall|log: Log| #[trigger]
                tree::holds(self.contents(), self.last(), log) implies {
                let level = level_of(self.last());
                &&& log.values.len() <= 1 ==> level == 0
                &&& log.values.len() > 1 ==> level > 0 && power2::pow2((level - 1) as nat)
                    < log.values.len() <= power2::pow2(level as nat)
            } by {
                laws::lemma_height(self.contents(), self.last(), log);
                power2::lemma2_to64();
                let level = level_of(self.last());
                if level > 0 {
                    power2::lemma_pow2_pos((level - 1) as nat);
                }
            }
        }
        match self.root() {
            Root::INode(inode) => inode.node.address.j,
            Root::ENode(enode) => enode.node.address.j,
            Root::Empty => 0,
        }
    }

    /// Finds the position of the entry `i`, if it is there, from the root of the tree. With
    /// `with_branch` the nodes that branch off on the way are read too.
    pub fn get_entry_position<R: Reader>(
        &self,
        cursor: &mut R,
        i: Index,
        with_branch: bool,
    ) -> (result: Result<Option<(u64, Vec<Node>)>, Detail>)
        ensures
            final(cursor).contents() == old(cursor).contents(),
            storage::same_device(*final(cursor), *old(cursor)),
            ({
                let expected = locate(old(cursor).contents(), self.last(), i, with_branch);
                match result {
                    Ok(Some((position, branches))) => expected == search::Found::Ok(
                        Some((position, model::node_views(branches@))),
                    ),
                    Ok(None) => expected == search::Found::Ok(None),
                    Err(detail) => error::failed(old(cursor).faultless(), detail, expected),
                }
            }),
            (match root_of(self.last()) {
                RootView::INode(root) => search::ends_at_once(root, i, with_branch),
                _ => true,
            }) ==> result is Ok && final(cursor).position() == old(cursor).position(),
            forall|log: Log|
                #[trigger] tree::holds(old(cursor).contents(), self.last(), log) ==> match result {
                    Ok(Some((position, branches))) => {
                        &&& 1 <= i <= log.len()
                        &&& position == log.positions[i - 1]
                        &&& model::node_views(branches@) == if with_branch {
                            laws::path(
                                log,
                                log.len(),
                                algorithm::root_level(log.len()),
                                i as nat,
                            )
                        } else {
                            Seq::empty()
                        }
                    },
                    Ok(None) => !(1 <= i <= log.len()),
                    Err(detail) => !old(cursor).faultless() && detail@.is_fault(),
                },
    {
        proof {
            let contents = cursor.contents();
            assert forall|log: Log| #[trigger]
                tree::holds(contents, self.last(), log) implies locate(
                contents,
                self.last(),
                i,
                with_branch,
            ) == search::Found::Ok(
                if 1 <= i <= log.len() {
                    Some(
                        (
                            log.positions[i - 1],
                            if with_branch {
                                laws::path(
                                    log,
                                    log.len(),
                                    algorithm::root_level(log.len()),
                                    i as nat,
                                )
                            } else {
                                Seq::empty()
                            },
                        ),
                    )
                } else {
                    None
                },
            ) by {
                laws::lemma_locate(contents, self.last(), log, i, with_branch);
            }
        }
        match self.root() {
            Root::INode(root) => search::search_entry_position(cursor, root, i, with_branch),
            Root::ENode(root) => {
                if root.node.address.i != i {
                    return Ok(None);
                }
                let branches: Vec<Node> = Vec::new();
                assert(model::node_views(branches@) =~= Seq::empty());
                Ok(Some((root.node.address.position, branches)))
            },
            Root::Empty => Ok(None),
        }
    }

    /// Reads the node `b_{i,j}`, if it is there.
    pub fn get_node<R: Reader>(&self, cursor: &mut R, i: Index, j: u8) -> (result: Result<
        Option<Node>,
        Detail,
    >)
        ensures
            final(cursor).contents() == old(cursor).contents(),
            storage::same_device(*final(cursor), *old(cursor)),
            ({
                let expected = node_at(old(cursor).contents(), self.last(), i, j);
                match result {
                    Ok(Some(node)) => expected == Ok::<Option<NodeView>, DetailView>(Some(node@)),
                    Ok(None) => expected == Ok::<Option<NodeView>, DetailView>(None),
                    Err(detail) => error::failed(old(cursor).faultless(), detail, expected),
                }
            }),
            out_of_range(self.last(), i) ==> result == Ok::<Option<Node>, Detail>(None)
                && final(cursor).position() == old(cursor).position(),
            forall|log: Log|
                #[trigger] tree::holds(old(cursor).contents(), self.last(), log) ==> {
                    let present = i <= log.len() && algorithm::is_node(i as nat, j as nat);
                    match result {
                        Ok(Some(node)) => present && node@ == tree::node_of(
                            log,
                            i as nat,
                            j as nat,
                        ),
                        Ok(None) => !present,
                        Err(detail) => !old(cursor).faultless() && detail@.is_fault(),
                    }
                },
    {
        proof {
            let contents = cursor.contents();
            assert forall|log: Log| #[trigger]
                tree::holds(contents, self.last(), log) implies node_at(
                contents,
                self.last(),
                i,
                j,
            ) == Ok::<Option<NodeView>, DetailView>(
                if i <= log.len() && algorithm::is_node(i as nat, j as nat) {
                    Some(tree::node_of(log, i as nat, j as nat))
                } else {
                    None
                },
            ) by {
                laws::lemma_node(contents, self.last(), log, i, j);
            }
        }
        let position: u64 = match self.get_entry_position(cursor, i, false) {
            Ok(Some((position, _))) => position,
            Ok(None) => return Ok(None),
            Err(detail) => return Err(detail),
        };
        match cursor.move_to(position) {
            Ok(_) => {},
            Err(detail) => return Err(detail),
        }
        if j == 0 {
            match entry::read_entry_without_check(cursor, position, i) {
                Ok(entry) => Ok(Some(entry.enode.node)),
                Err(detail) => Err(detail),
            }
        } else {
            match entry::read_inodes(cursor, position) {
                Ok(inodes) => match search::find_inode(&inodes, j) {
                    Some(inode) => Ok(Some(inode.node)),
                    None => Ok(None),
                },
                Err(detail) => Err(detail),
            }
        }
    }

    /// Reads the root that the tree had in its generation `i`.
    pub fn get_root_of_ith_generation<R: Reader>(&self, cursor: &mut R, i: Index) -> (result:
        Result<STRoot, Detail>)
        ensures
            final(cursor).contents() == old(cursor).contents(),
            storage::same_device(*final(cursor), *old(cursor)),
            ({
                let expected = generation_root(old(cursor).contents(), self.last(), i);
                match result {
                    Ok(root) => expected == Ok::<STRootView, DetailView>(root@),
                    Err(detail) => error::failed(old(cursor).faultless(), detail, expected),
                }
            }),
            out_of_range(self.last(), i) || size_of(self.last()) == i ==> result is Ok
                && final(cursor).position() == old(cursor).position(),
            forall|log: Log|
                #[trigger] tree::holds(old(cursor).contents(), self.last(), log) ==> match result {
                    Ok(root) => root@ == laws::root_in_generation(log, i),
                    Err(detail) => !old(cursor).faultless() && detail@.is_fault(),
                },
    {
        proof {
            let contents = cursor.contents();
            assert forall|log: Log| #[trigger]
                tree::holds(contents, self.last(), log) implies generation_root(
                contents,
                self.last(),
                i,
            ) == Ok::<STRootView, DetailView>(laws::root_in_generation(log, i)) by {
                laws::lemma_generation(contents, self.last(), log, i);
            }
        }
        match self.root() {
            Root::INode(root) => {
                if root.node.address.i == i {
                    let branches: Vec<Node> = Vec::new();
                    assert(model::node_views(branches@) =~= Seq::empty());
                    return Ok(STRoot::INode(*root, branches));
                }
                let (position, branches) = match self.get_entry_position(cursor, i, true) {
                    Ok(Some(found)) => found,
                    Ok(None) => return Ok(STRoot::Empty),
                    Err(detail) => return Err(detail),
                };
                match cursor.move_to(position) {
                    Ok(_) => {},
                    Err(detail) => return Err(detail),
                }
                if i == 1 {
                    match entry::read_entry_without_check(cursor, position, i) {
                        Ok(entry) => Ok(STRoot::ENode(entry.enode, branches)),
                        Err(detail) => Err(detail),
                    }
                } else {
                    let inodes = match entry::read_inodes(cursor, position) {
                        Ok(inodes) => inodes,
                        Err(detail) => return Err(detail),
                    };
                    if inodes.len() == 0 {
                        return Ok(STRoot::Empty);
                    }
                    assert(model::inode_views(inodes@).last() == inodes@.last()@);
                    Ok(STRoot::INode(inodes[inodes.len() - 1], branches))
                }
            },
            Root::ENode(root) => {
                if root.node.address.i != i {
                    return Ok(STRoot::Empty);
                }
                let branches: Vec<Node> = Vec::new();
                assert(model::node_views(branches@) =~= Seq::empty());
                let mut payload: Vec<u8> = Vec::with_capacity(root.payload.len());
                payload.extend_from_slice(root.payload.as_slice());
                assert(payload@ =~= root.payload@);
                Ok(STRoot::ENode(ENode { node: root.node, payload }, branches))
            },
            Root::Empty => Ok(STRoot::Empty),
        }
    }

    /// The value with the index `i`, if there is one.
    pub fn get(&self, i: Index) -> (result: Result<Option<Vec<u8>>, Detail>)
        ensures
            ({
                let expected = value_at(self.contents(), self.last(), i);
                match result {
                    Ok(Some(value)) => expected == Ok::<Option<Seq<u8>>, DetailView>(Some(value@)),
                    Ok(None) => expected == Ok::<Option<Seq<u8>>, DetailView>(None),
                    Err(detail) => error::failed(self.faultless(), detail, expected),
                }
            }),
            forall|log: Log|
                #[trigger] tree::holds(self.contents(), self.last(), log) ==> match result {
                    Ok(Some(value)) => 1 <= i <= log.len() && value@ == log.values[i - 1],
                    Ok(None) => !(1 <= i <= log.len()),
                    Err(detail) => !self.faultless() && detail@.is_fault(),
                },
    {
        proof {
            assert forall|log: Log| #[trigger]
                tree::holds(self.contents(), self.last(), log) implies value_at(
                self.contents(),
                self.last(),
                i,
            ) == Ok::<Option<Seq<u8>>, DetailView>(
                if 1 <= i <= log.len() {
                    Some(log.values[i - 1])
                } else {
                    None
                },
            ) by {
                laws::lemma_get(self.contents(), self.last(), log, i);
            }
        }
        let mut cursor = match self.cursor.reopen() {
            Ok(cursor) => cursor,
            Err(detail) => return Err(detail),
        };
        let node = match self.get_node(&mut cursor, i, 0) {
            Ok(Some(node)) => node,
            Ok(None) => return Ok(None),
            Err(detail) => return Err(detail),
        };
        match cursor.move_to(node.address.position) {
            Ok(_) => {},
            Err(detail) => return Err(detail),
        }
        match entry::read_entry_without_check(&mut cursor, node.address.position, node.address.i) {
            Ok(entry) => Ok(Some(entry.enode.payload)),
            Err(detail) => Err(detail),
        }
    }

    /// Reads the values with the indices from `first` on, `count` of them, in the tree below the inner
    /// node `root`. There are none where one of their entries is missing.
    fn read_values<R: Reader>(cursor: &mut R, root: &INode, first: Index, count: u64) -> (result:
        Result<Option<Vec<Value>>, Detail>)
        requires
            first + count <= u64::MAX + 1,
        ensures
            final(cursor).contents() == old(cursor).contents(),
            storage::same_device(*final(cursor), *old(cursor)),
            ({
                let expected = value_run(
                    old(cursor).contents(),
                    root@,
                    first as nat,
                    count as nat,
                );
                match result {
                    Ok(Some(values)) => expected == Values::Ok(
                        Some(values@.map_values(|value: Value| value@)),
                    ),
                    Ok(None) => expected == Values::Ok(None),
                    Err(detail) => error::failed(old(cursor).faultless(), detail, expected),
                }
            }),
    {
        let ghost contents = cursor.contents();
        let ghost expected = value_run(contents, root@, first as nat, count as nat);
        let mut values: Vec<Value> = Vec::with_capacity(INDEX_SIZE as usize);
        proof {
            assert(values@.map_values(|value: Value| value@) =~= Seq::empty());
            lemma_after_nothing(expected);
        }
        let mut x: u64 = 0;
        while x < count
            invariant
                x <= count,
                first + count <= u64::MAX + 1,
                contents == old(cursor).contents(),
                expected == value_run(contents, root@, first as nat, count as nat),
                cursor.contents() == contents,
                storage::same_device(*cursor, *old(cursor)),
                expected == after(
                    values@.map_values(|value: Value| value@),
                    value_run(contents, root@, (first + x) as nat, (count - x) as nat),
                ),
            decreases count - x,
        {
            let ghost before = values@.map_values(|value: Value| value@);
            let i: Index = first + x;
            let position: u64 = match search::search_entry_position(cursor, root, i, false) {
                Ok(Some((position, _))) => position,
                Ok(None) => return Ok(None),
                Err(detail) => return Err(detail),
            };
            match cursor.move_to(position) {
                Ok(_) => {},
                Err(detail) => return Err(detail),
            }
            let entry = match entry::read_entry_without_check(cursor, position, i) {
                Ok(entry) => entry,
                Err(detail) => return Err(detail),
            };
            let ghost value = ValueView { i, value: entry@.enode.payload };
            values.push(Value { i, value: entry.enode.payload });
            x = x + 1;
            proof {
                assert(values@.map_values(|value: Value| value@) =~= before + seq![value]);
                lemma_after_both(
                    before,
                    seq![value],
                    value_run(contents, root@, (first + x) as nat, (count - x) as nat),
                );
            }
        }
        proof {
            let views = values@.map_values(|value: Value| value@);
            assert(views + Seq::empty() =~= views);
        }
        Ok(Some(values))
    }

    /// Reads the values below the node `b_{i,j}`, and the nodes that branch off on the way to the entry
    /// `i`.
    fn collect_values(&self, i: Index, j: u8) -> (result: Result<
        Option<DataSet>,
        Detail,
    >)
        ensures
            ({
                let expected = values_below(self.contents(), self.last(), i, j);
                match result {
                    Ok(Some(set)) => expected == Ok::<Option<DataSetView>, DetailView>(Some(set@)),
                    Ok(None) => expected == Ok::<Option<DataSetView>, DetailView>(None),
                    Err(detail) => error::failed(self.faultless(), detail, expected),
                }
            }),
            forall|log: Log|
                #[trigger] tree::holds(self.contents(), self.last(), log) ==> match result {
                    Ok(Some(set)) => laws::values_of(log, i, j) == Some(set@),
                    Ok(None) => laws::values_of(log, i, j) is None,
                    Err(detail) => !self.faultless() && detail@.is_fault(),
                },
    {
        proof {
            assert forall|log: Log| #[trigger]
                tree::holds(self.contents(), self.last(), log) implies values_below(
                self.contents(),
                self.last(),
                i,
                j,
            ) == Ok::<Option<DataSetView>, DetailView>(laws::values_of(log, i, j)) by {
                laws::lemma_values(self.contents(), self.last(), log, i, j);
            }
        }
        let mut cursor = match self.cursor.reopen() {
            Ok(cursor) => cursor,
            Err(detail) => return Err(detail),
        };
        if i == 0 {
            return Ok(None);
        }
        let root = match self.get_root_of_ith_generation(&mut cursor, i) {
            Ok(root) => root,
            Err(detail) => return Err(detail),
        };
        match root {
            STRoot::INode(root, branches) => {
                let first: Index = algorithm::range_start(i, j);
                match Self::read_values(&mut cursor, &root, first, i - first + 1) {
                    Ok(Some(values)) => Ok(Some(DataSet { values, hashes: hashes_of(&branches) })),
                    Ok(None) => Ok(None),
                    Err(detail) => Err(detail),
                }
            },
            STRoot::ENode(enode, branches) if enode.node.address.i == i && j == 0 => {
                let mut values: Vec<Value> = Vec::with_capacity(1);
                let ghost value = ValueView { i, value: enode.payload@ };
                values.push(Value { i, value: enode.payload });
                assert(values@.map_values(|value: Value| value@) =~= seq![value]);
                Ok(Some(DataSet { values, hashes: hashes_of(&branches) }))
            },
            _ => Ok(None),
        }
    }

    /// All values below the node `b_{i,j}`, with the hash values of the nodes that branch off on the
    /// way to the entry `i`.
    pub fn get_values_with_hashes(&self, i: Index, j: u8) -> (result: Result<
        Option<DataSet>,
        Detail,
    >)
        ensures
            ({
                let expected = values_below(self.contents(), self.last(), i, j);
                match result {
                    Ok(Some(set)) => expected == Ok::<Option<DataSetView>, DetailView>(Some(set@)),
                    Ok(None) => expected == Ok::<Option<DataSetView>, DetailView>(None),
                    Err(detail) => error::failed(self.faultless(), detail, expected),
                }
            }),
            forall|log: Log|
                #[trigger] tree::holds(self.contents(), self.last(), log) ==> match result {
                    Ok(Some(set)) => laws::values_of(log, i, j) == Some(set@),
                    Ok(None) => laws::values_of(log, i, j) is None,
                    Err(detail) => !self.faultless() && detail@.is_fault(),
                },
            forall|log: Log|
                #[trigger] tree::holds(self.contents(), self.last(), log) ==> match result {
                    Ok(Some(set)) => {
                        let first = guarantees::before_first(i as nat, j as nat);
                        &&& first < i <= log.values.len()
                        &&& set.values@.len() == i - first
                        &&& set.hashes@.len() == set@.hashes.len()
                        &&& forall|x: int|
                            #![trigger set.values@[x]]
                            0 <= x < i - first ==> set.values@[x].i == first + 1 + x
                                && set.values@[x].value@ == log.values[first + x]
                        &&& exists|width: int|
                            1 <= width <= i && #[trigger] guarantees::climb(
                                i as nat,
                                tree::root_hash(log.values.subrange(i - width, i as int)),
                                set@.hashes,
                            ) == tree::root_hash(log.values)
                    },
                    Ok(None) => !(1 <= i <= log.values.len() && (i == 1 ==> j == 0)),
                    Err(_) => true,
                },
    {
        let result = self.collect_values(i, j);
        proof {
            assert forall|log: Log| #[trigger]
                tree::holds(self.contents(), self.last(), log) implies match result {
                    Ok(Some(set)) => {
                        let first = guarantees::before_first(i as nat, j as nat);
                        &&& first < i <= log.values.len()
                        &&& set.values@.len() == i - first
                        &&& set.hashes@.len() == set@.hashes.len()
                        &&& forall|x: int|
                            #![trigger set.values@[x]]
                            0 <= x < i - first ==> set.values@[x].i == first + 1 + x
                                && set.values@[x].value@ == log.values[first + x]
                        &&& exists|width: int|
                            1 <= width <= i && #[trigger] guarantees::climb(
                                i as nat,
                                tree::root_hash(log.values.subrange(i - width, i as int)),
                                set@.hashes,
                            ) == tree::root_hash(log.values)
                    },
                    Ok(None) => !(1 <= i <= log.values.len() && (i == 1 ==> j == 0)),
                    Err(_) => true,
                } by {
                guarantees::lemma_values_are_proved(log, i, j);
                if let Ok(Some(set)) = &result {
                    let first = guarantees::before_first(i as nat, j as nat);
                    assert forall|x: int| #![trigger set.values@[x]] 0 <= x < i - first implies
                        set.values@[x].i == first + 1 + x && set.values@[x].value@
                        == log.values[first + x] by {
                        assert(set@.values[x] == set.values@[x]@);
                    }
                }
            }
        }
        result
    }

    /// Makes the inner nodes, from the lowest to the highest, of the entry `i` at `position` whose
    /// leaf has the hash value `hash`. Their left branches are read from the storage, with a cursor
    /// that is gone before anything is written.
    fn build_inodes(&self, i: Index, position: u64, hash: hash::Hash) -> (result: Result<
        Vec<INode>,
        Detail,
    >)
        requires
            i >= 1,
        ensures
            ({
                let expected = new_inodes(
                    self.contents(),
                    self.last(),
                    position,
                    hash@,
                    algorithm::inodes_of(i as nat),
                );
                match result {
                    Ok(inodes) => {
                        &&& expected == Ok::<Seq<INodeView>, DetailView>(
                            model::inode_views(inodes@),
                        )
                        &&& inodes@.len() <= INDEX_SIZE
                        &&& forall|k: int|
                            0 <= k < inodes@.len() ==> 1 <= (
                            #[trigger] inodes@[k]).node.address.j <= INDEX_SIZE
                    },
                    Err(detail) => error::failed(self.faultless(), detail, expected),
                }
            }),
    {
        let mut cursor = match self.cursor.reopen() {
            Ok(cursor) => cursor,
            Err(detail) => return Err(detail),
        };
        let ids = Generation::new(i).inodes();
        let ghost contents = self.contents();
        let ghost levels = algorithm::levels(i as nat, INDEX_SIZE as nat);
        let mut inodes: Vec<INode> = Vec::with_capacity(INDEX_SIZE as usize);
        let mut right_hash = hash;
        let mut k: usize = 0;
        proof {
            algorithm::lemma_levels(i as nat, INDEX_SIZE as nat);
            assert(model::inode_views(inodes@) =~= Seq::empty());
            assert(ids@.take(0) =~= Seq::empty());
        }
        while k < ids.len()
            invariant
                k <= ids.len(),
                contents == self.contents(),
                cursor.contents() == contents,
                cursor.faultless() == self.faultless(),
                levels == algorithm::levels(i as nat, INDEX_SIZE as nat),
                levels.len() <= INDEX_SIZE,
                ids@ == algorithm::inodes_of(i as nat),
                inodes@.len() == k,
                new_inodes(contents, self.last(), position, hash@, ids@.take(k as int)) == Ok::<
                    Seq<INodeView>,
                    DetailView,
                >(model::inode_views(inodes@)),
                right_hash@ == top_hash(hash@, model::inode_views(inodes@)),
                forall|l: int|
                    0 <= l < k ==> 1 <= (#[trigger] inodes@[l]).node.address.j <= INDEX_SIZE,
            decreases ids.len() - k,
        {
            let id = ids[k];
            proof {
                let taken = ids@.take(k + 1);
                assert(taken.drop_last() =~= ids@.take(k as int));
                assert(taken.last() == id);
                lemma_new_inodes_stop(contents, self.last(), position, hash@, ids@, k + 1);
                algorithm::lemma_level(i as nat, INDEX_SIZE as nat, k as int);
                assert(id == algorithm::inode_id(i as nat, levels[k as int]));
            }
            let left = match self.get_node(&mut cursor, id.left.i, id.left.j) {
                Ok(Some(left)) => left,
                Ok(None) => {
                    // the tree structure and the data on the storage contradict each other
                    let mut message = String::from_str("cannot find the node b_{");
                    text::push_decimal(&mut message, id.left.i);
                    message.append(",");
                    text::push_decimal(&mut message, id.left.j as u64);
                    message.append("}");
                    return error::inconsistency(message);
                },
                Err(detail) => return Err(detail),
            };
            right_hash = left.hash.combine(&right_hash);
            let inode = join(&id, position, &left, right_hash);
            let ghost before = model::inode_views(inodes@);
            inodes.push(inode);
            k = k + 1;
            assert(model::inode_views(inodes@) =~= before.push(inode@));
        }
        assert(ids@.take(k as int) =~= ids@);
        Ok(inodes)
    }

    /// Makes the entry of the value and appends it to the contents.
    fn append_entry(&mut self, value: &[u8]) -> (result: Result<(Index, hash::Hash), Detail>)
        requires
            old(self).inv(),
            value@.len() <= MAX_PAYLOAD_SIZE ==> size_of(old(self).last()) < u64::MAX,
        ensures
            final(self).inv(),
            final(self).faultless() == old(self).faultless(),
            final(self).capacity() == old(self).capacity(),
            appended(
                *old(self),
                *final(self),
                value@,
                match result {
                    Ok((i, hash)) => Ok((i, hash@)),
                    Err(detail) => Err(detail@),
                },
            ),
    {
        if value.len() > MAX_PAYLOAD_SIZE {
            return Err(Detail::TooLargePayload { size: value.len() });
        }
        let ghost expected = new_entry(old(self).contents(), old(self).last(), value@);
        assert(expected matches Ok(entry) ==> storage::appended_part(
            old(self).contents(),
            old(self).contents(),
            entry::encode_entry(entry),
        )) by {
            if let Ok(entry) = expected {
                let bytes = entry::encode_entry(entry);
                assert(old(self).contents() + bytes.take(0) =~= old(self).contents());
            }
        }
        // the leaf
        let position: u64 = match self.cursor.stream_position() {
            Ok(position) => position,
            Err(detail) => return Err(detail),
        };
        let i: Index = self.size() + 1;
        let hash = hash::Hash::hash(value);
        let mut payload: Vec<u8> = Vec::with_capacity(value.len());
        payload.extend_from_slice(value);
        assert(payload@ =~= value@);
        let enode = ENode { node: Node::new(Address::new(i, 0, position), hash), payload };
        // the inner nodes
        let inodes = match self.build_inodes(i, position, hash) {
            Ok(inodes) => inodes,
            Err(detail) => return Err(detail),
        };
        // write the entry and update the state
        let entry = Entry { enode, inodes };
        let root_hash = entry_hash(&entry);
        match entry::write_entry(&mut self.cursor, &entry) {
            Ok(_) => {},
            Err(detail) => return Err(detail),
        }
        self.last = Some(entry);
        Ok((i, root_hash))
    }

    /// Appends the value to the tree. The result is its index, and the hash value of the root that
    /// the tree has now.
    pub fn append(&mut self, value: &[u8]) -> (result: Result<(Index, hash::Hash), Detail>)
        requires
            old(self).inv(),
            value@.len() <= MAX_PAYLOAD_SIZE ==> size_of(old(self).last()) < u64::MAX,
        ensures
            final(self).inv(),
            final(self).faultless() == old(self).faultless(),
            final(self).capacity() == old(self).capacity(),
            appended(
                *old(self),
                *final(self),
                value@,
                match result {
                    Ok((i, hash)) => Ok((i, hash@)),
                    Err(detail) => Err(detail@),
                },
            ),
            value@.len() > 0x7FFF_FFFF ==> (result matches Err(detail) && detail@ == (
            DetailView::TooLargePayload { size: value@.len() as usize }) && final(self).contents()
                == old(self).contents() && final(self).last() == old(self).last()),
            forall|log: Log|
                #[trigger] tree::holds(old(self).contents(), old(self).last(), log)
                    && log.values.len() < u64::MAX ==> match result {
                    Ok((i, hash)) => {
                        let values = log.values.push(value@);
                        let positions = log.positions.push(old(self).contents().len() as u64);
                        &&& i == values.len()
                        &&& hash@ == tree::root_hash(values)
                        &&& tree::holds(
                            final(self).contents(),
                            final(self).last(),
                            Log { values, positions },
                        )
                        &&& final(self).contents().len() > old(self).contents().len()
                        &&& final(self).contents().take(old(self).contents().len() as int) == old(
                            self,
                        ).contents()
                    },
                    Err(detail) => {
                        &&& tree::holds(final(self).contents(), final(self).last(), log)
                        &&& value@.len() <= 0x7FFF_FFFF ==> detail@.is_fault() && (
                        !old(self).faultless() || old(self).contents().len() + 57 + 50 * 64
                            + value@.len() > old(self).capacity())
                    },
                },
    {
        let result = self.append_entry(value);
        let ghost outcome = match &result {
            Ok((i, hash)) => Ok((*i, hash@)),
            Err(detail) => Err(detail@),
        };
        proof {
            guarantees::lemma_constants();
            assert forall|log: Log| #[trigger]
                tree::holds(old(self).contents(), old(self).last(), log) && log.values.len()
                    < u64::MAX implies match result {
                Ok((i, hash)) => {
                    let values = log.values.push(value@);
                    let positions = log.positions.push(old(self).contents().len() as u64);
                    &&& i == values.len()
                    &&& hash@ == tree::root_hash(values)
                    &&& tree::holds(self.contents(), self.last(), Log { values, positions })
                    &&& self.contents().len() > old(self).contents().len()
                    &&& self.contents().take(old(self).contents().len() as int) == old(
                        self,
                    ).contents()
                },
                Err(detail) => {
                    &&& tree::holds(self.contents(), self.last(), log)
                    &&& value@.len() <= 0x7FFF_FFFF ==> detail@.is_fault() && (
                    !old(self).faultless() || old(self).contents().len() + 57 + 50 * 64
                        + value@.len() > old(self).capacity())
                },
            } by {
                laws::lemma_append(*old(self), *self, log, value@, outcome);
                guarantees::lemma_entry_size(log.values.len() + 1, value@.len());
                if let Ok(_) = result {
                    let before = old(self).contents();
                    assert(self.contents().take(before.len() as int) =~= before);
                }
            }
        }
        result
    }
}

} // verus!
