//! Reading an entry gives back what was written.
use crate::algorithm::Index;
use crate::endian;
use crate::entry;
use crate::entry::INODE_BYTES;
use crate::error::DetailView;
use crate::hash::HASH_SIZE;
use crate::model::{Address, EntryView, INodeView};
use crate::storage;
use vstd::prelude::*;

verus! {

/// Whether this is an entry as one at `position` is: all its nodes are there and have the index of
/// its leaf, the right branch of each inner node is the node before it, and only the first entry
/// has no inner nodes.
pub open spec fn is_entry_at(e: EntryView, position: u64) -> bool {
    let i = e.enode.node.address.i;
    &&& entry::is_writable(e)
    &&& e.enode.node.address == Address { i, j: 0, position }
    &&& e.inodes.len() == 0 ==> i == 1
    &&& forall|k: int|
        #![trigger e.inodes[k]]
        0 <= k < e.inodes.len() ==> {
            &&& e.inodes[k].node.address.i == i
            &&& e.inodes[k].node.address.position == position
            &&& e.inodes[k].right == Address { i, j: right_level(e.inodes, k), position }
        }
}

/// The height of the right branch of the inner node number `k`.
pub open spec fn right_level(inodes: Seq<INodeView>, k: int) -> u8 {
    if k == 0 {
        0
    } else {
        inodes[k - 1].node.address.j
    }
}

/// Whether the bytes of the entry are at `at`.
pub open spec fn holds_entry(contents: Seq<u8>, at: nat, e: EntryView) -> bool {
    let bytes = entry::encode_entry(e);
    &&& at + bytes.len() <= contents.len()
    &&& contents.subrange(at as int, (at + bytes.len()) as int) == bytes
}

/// A part of bytes that are at `at` is as far behind `at` as it is in them.
proof fn lemma_part(contents: Seq<u8>, at: nat, bytes: Seq<u8>, offset: nat, part: Seq<u8>)
    requires
        at + bytes.len() <= contents.len(),
        contents.subrange(at as int, (at + bytes.len()) as int) == bytes,
        offset + part.len() <= bytes.len(),
        bytes.subrange(offset as int, (offset + part.len()) as int) == part,
    ensures
        storage::bytes_at(contents, at + offset, part.len()) == part,
{
    assert forall|k: int| 0 <= k < part.len() implies contents[at + offset + k] == part[k] by {
        assert(bytes.subrange(offset as int, (offset + part.len()) as int)[k] == bytes[offset + k]);
        assert(contents.subrange(at as int, (at + bytes.len()) as int)[offset + k] == contents[at
            + (offset + k)]);
    }
    assert(storage::bytes_at(contents, at + offset, part.len()) =~= part);
}

/// The bytes of inner node number `k` among those of all.
proof fn lemma_encoded_inode(inodes: Seq<INodeView>, k: nat)
    requires
        k < inodes.len(),
        forall|l: int|
            #![trigger inodes[l]]
            0 <= l < inodes.len() ==> inodes[l].node.hash.len() == HASH_SIZE,
    ensures
        entry::encode_inode(inodes[k as int]).len() == INODE_BYTES,
        (k + 1) * INODE_BYTES <= entry::encode_inodes(inodes).len(),
        entry::encode_inodes(inodes).subrange(
            (k * INODE_BYTES as nat) as int,
            (k * INODE_BYTES as nat + INODE_BYTES as nat) as int,
        ) == entry::encode_inode(inodes[k as int]),
    decreases inodes.len(),
{
    let before = inodes.drop_last();
    let bytes = entry::encode_inodes(inodes);
    let inode = inodes[k as int];
    endian::lemma_le_bytes_len(inode.left.position as nat, 8);
    endian::lemma_le_bytes_len(inode.left.i as nat, 8);
    assert(entry::encode_inode(inode).len() == INODE_BYTES);
    entry::lemma_encode_inodes_len(before);
    entry::lemma_encode_inodes_len(inodes);
    assert((k + 1) * INODE_BYTES == k * INODE_BYTES as nat + INODE_BYTES) by (nonlinear_arith);
    assert(k + 1 <= inodes.len() ==> (k + 1) * INODE_BYTES <= inodes.len() * INODE_BYTES)
        by (nonlinear_arith);
    if k + 1 == inodes.len() {
        assert(bytes.subrange(
            (k * INODE_BYTES as nat) as int,
            (k * INODE_BYTES as nat + INODE_BYTES as nat) as int,
        ) =~= entry::encode_inode(inode));
    } else {
        lemma_encoded_inode(before, k);
        assert(before[k as int] == inode);
        assert(bytes.subrange(
            (k * INODE_BYTES as nat) as int,
            (k * INODE_BYTES as nat + INODE_BYTES as nat) as int,
        ) =~= entry::encode_inodes(before).subrange(
            (k * INODE_BYTES as nat) as int,
            (k * INODE_BYTES as nat + INODE_BYTES as nat) as int,
        ));
    }
}

/// The numbers and bytes of a stored inner node are those of the inner node.
pub proof fn lemma_inode_fields(contents: Seq<u8>, p: nat, inode: INodeView)
    requires
        p + INODE_BYTES <= contents.len(),
        contents.subrange(p as int, p + INODE_BYTES) == entry::encode_inode(inode),
        1 <= inode.node.address.j <= 64,
        inode.node.hash.len() == HASH_SIZE,
    ensures
        entry::byte_at(contents, p) == inode.node.address.j - 1,
        entry::u64_at(contents, p + 1) == inode.left.position,
        entry::u64_at(contents, p + 9) == inode.left.i,
        entry::byte_at(contents, p + 17) == inode.left.j,
        storage::bytes_at(contents, p + 18, HASH_SIZE as nat) == inode.node.hash,
{
    let bytes = entry::encode_inode(inode);
    let left_position = endian::le_bytes(inode.left.position as nat, 8);
    let left_i = endian::le_bytes(inode.left.i as nat, 8);
    endian::lemma_le_bytes_len(inode.left.position as nat, 8);
    endian::lemma_le_bytes_len(inode.left.i as nat, 8);
    endian::lemma_le_limits();
    endian::lemma_le_round_trip(inode.left.position as nat, 8);
    endian::lemma_le_round_trip(inode.left.i as nat, 8);
    assert(bytes.len() == INODE_BYTES);
    assert(contents.subrange(p as int, p + INODE_BYTES)[0] == contents[p as int]);
    assert(contents.subrange(p as int, p + INODE_BYTES)[17] == contents[p as int + 17]);
    assert(bytes.subrange(1, 9) =~= left_position);
    lemma_part(contents, p, bytes, 1, left_position);
    assert(bytes.subrange(9, 17) =~= left_i);
    lemma_part(contents, p, bytes, 9, left_i);
    assert(bytes.subrange(18, 18 + HASH_SIZE) =~= inode.node.hash);
    lemma_part(contents, p, bytes, 18, inode.node.hash);
}

/// Where the parts of an entry are.
pub proof fn lemma_entry_parts(contents: Seq<u8>, at: nat, e: EntryView)
    requires
        entry::is_writable(e),
        holds_entry(contents, at, e),
    ensures
        entry::u64_at(contents, at) == e.enode.node.address.i,
        entry::byte_at(contents, at + 8) == e.inodes.len(),
        at + 9 <= contents.len(),
        entry::inodes_end(contents, at) + 4 <= contents.len(),
        entry::u32_at(contents, entry::inodes_end(contents, at)) == e.enode.payload.len(),
        entry::payload_size(contents, at) == e.enode.payload.len(),
        entry::entry_end(contents, at) == at + entry::encode_body(e).len(),
        entry::entry_end(contents, at) + 12 == at + entry::encode_entry(e).len(),
        storage::bytes_at(contents, entry::inodes_end(contents, at) + 4, e.enode.payload.len())
            == e.enode.payload,
        storage::bytes_at(
            contents,
            entry::inodes_end(contents, at) + 4 + e.enode.payload.len(),
            HASH_SIZE as nat,
        ) == e.enode.node.hash,
        forall|k: int|
            #![trigger e.inodes[k]]
            0 <= k < e.inodes.len() ==> {
                let p = entry::inode_position(at, k as nat);
                &&& p + INODE_BYTES <= contents.len()
                &&& contents.subrange(p as int, p + INODE_BYTES) == entry::encode_inode(e.inodes[k])
            },
{
    let bytes = entry::encode_entry(e);
    let index = endian::le_bytes(e.enode.node.address.i as nat, 8);
    let inodes = entry::encode_inodes(e.inodes);
    let size = endian::le_bytes(e.enode.payload.len(), 4);
    let n = inodes.len();
    entry::lemma_encode_len(e);
    entry::lemma_encode_inodes_len(e.inodes);
    endian::lemma_le_bytes_len(e.enode.node.address.i as nat, 8);
    endian::lemma_le_bytes_len(e.enode.payload.len(), 4);
    endian::lemma_le_limits();
    endian::lemma_le_round_trip(e.enode.node.address.i as nat, 8);
    endian::lemma_le_round_trip(e.enode.payload.len(), 4);
    assert(bytes.subrange(0, 8) =~= index);
    lemma_part(contents, at, bytes, 0, index);
    assert(bytes[8] == e.inodes.len() as u8);
    assert(contents.subrange(at as int, (at + bytes.len()) as int)[8] == contents[at as int + 8]);
    assert(bytes.subrange((9 + n) as int, (13 + n) as int) =~= size);
    lemma_part(contents, at, bytes, 9 + n, size);
    assert(bytes.subrange((13 + n) as int, (13 + n + e.enode.payload.len()) as int)
        =~= e.enode.payload);
    lemma_part(contents, at, bytes, 13 + n, e.enode.payload);
    let m = 13 + n + e.enode.payload.len();
    assert(bytes.subrange(m as int, (m + HASH_SIZE) as int) =~= e.enode.node.hash);
    lemma_part(contents, at, bytes, m, e.enode.node.hash);
    assert forall|k: int|
        #![trigger e.inodes[k]]
        0 <= k < e.inodes.len() implies {
        let p = entry::inode_position(at, k as nat);
        &&& p + INODE_BYTES <= contents.len()
        &&& contents.subrange(p as int, p + INODE_BYTES) == entry::encode_inode(e.inodes[k])
    } by {
        lemma_encoded_inode(e.inodes, k as nat);
        let inode = entry::encode_inode(e.inodes[k]);
        let from = k as nat * INODE_BYTES as nat;
        assert((k as nat + 1) * INODE_BYTES == from + INODE_BYTES) by (nonlinear_arith)
            requires
                from == k as nat * INODE_BYTES as nat,
        ;
        assert(bytes.subrange((9 + from) as int, (9 + from + INODE_BYTES) as int)
            =~= inodes.subrange(from as int, (from + INODE_BYTES as nat) as int));
        lemma_part(contents, at, bytes, 9 + from, inode);
    }
}

/// The inner nodes of an entry are read back from where the entry is.
pub proof fn lemma_inodes_round_trip(contents: Seq<u8>, at: nat, e: EntryView)
    requires
        is_entry_at(e, at as u64),
        holds_entry(contents, at, e),
    ensures
        entry::parse_inodes(contents, at, at as u64) == Ok::<Seq<INodeView>, DetailView>(e.inodes),
{
    lemma_entry_parts(contents, at, e);
    let position = at as u64;
    assert forall|k: int| 0 <= k < e.inodes.len() implies entry::stored_inode(
        contents,
        at,
        position,
        k as nat,
    ) == e.inodes[k] by {
        let p = entry::inode_position(at, k as nat);
        lemma_inode_fields(contents, p, e.inodes[k]);
        if k > 0 {
            let before = e.inodes[k - 1];
            lemma_inode_fields(contents, entry::inode_position(at, (k - 1) as nat), before);
        }
    }
    entry::lemma_encode_len(e);
    assert(Seq::new(
        e.inodes.len(),
        |k: int| entry::stored_inode(contents, at, position, k as nat),
    ) =~= e.inodes);
}

/// Where the trailer of an entry is, and what it holds.
pub proof fn lemma_trailer(contents: Seq<u8>, at: nat, e: EntryView)
    requires
        entry::is_writable(e),
        holds_entry(contents, at, e),
    ensures
        entry::u32_at(contents, at + entry::encode_body(e).len()) == entry::encode_body(e).len(),
        entry::u64_at(contents, at + entry::encode_body(e).len() + 4) == entry::checksum_of(
            entry::encode_sealed(e),
        ),
        storage::bytes_at(contents, at, entry::encode_body(e).len() + 4) == entry::encode_sealed(e),
{
    entry::lemma_encode_len(e);
    let bytes = entry::encode_entry(e);
    let sealed = entry::encode_sealed(e);
    let body = entry::encode_body(e);
    let offset = endian::le_bytes(body.len(), 4);
    let checksum = endian::le_bytes(entry::checksum_of(sealed) as nat, 8);
    endian::lemma_le_bytes_len(body.len(), 4);
    endian::lemma_le_bytes_len(entry::checksum_of(sealed) as nat, 8);
    endian::lemma_le_limits();
    endian::lemma_le_round_trip(body.len(), 4);
    endian::lemma_le_round_trip(entry::checksum_of(sealed) as nat, 8);
    assert(bytes.subrange(body.len() as int, (body.len() + 4) as int) =~= offset);
    lemma_part(contents, at, bytes, body.len(), offset);
    assert(bytes.subrange((body.len() + 4) as int, (body.len() + 12) as int) =~= checksum);
    lemma_part(contents, at, bytes, body.len() + 4, checksum);
    assert(bytes.subrange(0, (body.len() + 4) as int) =~= sealed);
    lemma_part(contents, at, bytes, 0, sealed);
}

/// An entry is read back, with and without a check of its trailer, from where it was written.
pub proof fn lemma_entry_round_trip(contents: Seq<u8>, at: nat, e: EntryView, i_expected: Index)
    requires
        is_entry_at(e, at as u64),
        holds_entry(contents, at, e),
        at <= u64::MAX,
        i_expected == 0 || i_expected == e.enode.node.address.i,
    ensures
        entry::parse_entry(contents, at, at as u64, i_expected) == Ok::<EntryView, DetailView>(e),
        entry::parse_checked_entry(contents, at, i_expected) == Ok::<EntryView, DetailView>(e),
        entry::entry_end(contents, at) + 12 == at + entry::encode_entry(e).len(),
        entry::u32_at(contents, entry::entry_end(contents, at)) == entry::entry_end(contents, at)
            - at,
{
    lemma_inodes_round_trip(contents, at, e);
    lemma_entry_parts(contents, at, e);
    entry::lemma_encode_len(e);
    if e.inodes.len() > 0 {
        assert(e.inodes[0].node.address.i == e.enode.node.address.i);
    }
    lemma_trailer(contents, at, e);
}

} // verus!
