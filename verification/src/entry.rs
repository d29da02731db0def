//! The format of the entries on a storage.
//!
//! An entry is the index of its leaf (8 bytes), the number of its inner nodes (1 byte), the inner
//! nodes, the length of the payload (4 bytes), the payload and the hash value of the leaf. Its
//! trailer is the length of all that (4 bytes) and a checksum of everything before (8 bytes). An
//! inner node is its height less one (1 byte), the position (8 bytes), the index (8 bytes) and the
//! height (1 byte) of its left branch, and its hash value. Numbers are little-endian.
use crate::algorithm::{Index, INDEX_SIZE};
use crate::endian;
use crate::error;
use crate::error::{Detail, DetailView};
use crate::guarantees;
use crate::hash;
use crate::hash::HASH_SIZE;
use crate::model;
use crate::model::{Address, ENode, ENodeView, Entry, EntryView, INode, INodeView, Node, NodeView};
use crate::storage;
use crate::storage::{Cursor, Reader};
use vstd::prelude::*;

verus! {

/// The largest size of a payload. The length of an entry has to fit in 32 bits. The bits of this
/// number are also used as a mask.
pub const MAX_PAYLOAD_SIZE: usize = 0x7FFFFFFF;

/// The key of the checksums of entries.
pub const CHECKSUM_HW64_KEY: [u64; 4] = [
    0xFA5015F2E22BCFC6u64,
    0xCE5A4ED9A4025C80u64,
    0x16B9731717F6315Eu64,
    0x0F34D06AE93BD8E9u64,
];

/// The number of bytes of an inner node.
pub const INODE_BYTES: usize = 18 + HASH_SIZE;

/// The byte at `position`.
pub open spec fn byte_at(contents: Seq<u8>, position: nat) -> u8 {
    contents[position as int]
}

/// The 32-bit number at `position`.
pub open spec fn u32_at(contents: Seq<u8>, position: nat) -> u32 {
    endian::le_value(storage::bytes_at(contents, position, 4)) as u32
}

/// The 64-bit number at `position`.
pub open spec fn u64_at(contents: Seq<u8>, position: nat) -> u64 {
    endian::le_value(storage::bytes_at(contents, position, 8)) as u64
}

/// The position of the inner node number `k` of the entry at `at`.
pub open spec fn inode_position(at: nat, k: nat) -> nat {
    at + 9 + k * INODE_BYTES as nat
}

/// The position behind the inner nodes of the entry at `at`.
pub open spec fn inodes_end(contents: Seq<u8>, at: nat) -> nat {
    inode_position(at, byte_at(contents, at + 8) as nat)
}

/// The height of the inner node number `k` of the entry at `at`. Only the six lowest bits of the
/// stored byte count.
pub open spec fn stored_level(contents: Seq<u8>, at: nat, k: nat) -> u8 {
    (byte_at(contents, inode_position(at, k)) % 64 + 1) as u8
}

/// The inner node number `k` of the entry at `at`, taken as one at the position `position`.
pub open spec fn stored_inode(contents: Seq<u8>, at: nat, position: u64, k: nat) -> INodeView {
    let i = u64_at(contents, at);
    let p = inode_position(at, k);
    INodeView {
        node: NodeView {
            address: Address { i, j: stored_level(contents, at, k), position },
            hash: storage::bytes_at(contents, p + 18, HASH_SIZE as nat),
        },
        left: Address {
            i: u64_at(contents, p + 9),
            j: byte_at(contents, p + 17),
            position: u64_at(contents, p + 1),
        },
        right: Address {
            i,
            j: if k == 0 {
                0
            } else {
                stored_level(contents, at, (k - 1) as nat)
            },
            position,
        },
    }
}

/// The inner nodes of the entry at `at`, taken as one at the position `position`.
pub open spec fn parse_inodes(contents: Seq<u8>, at: nat, position: u64) -> Result<
    Seq<INodeView>,
    DetailView,
> {
    if at + 9 > contents.len() || inodes_end(contents, at) > contents.len() {
        Err(error::unexpected_eof())
    } else {
        Ok(
            Seq::new(
                byte_at(contents, at + 8) as nat,
                |k: int| stored_inode(contents, at, position, k as nat),
            ),
        )
    }
}

/// Reads the inner nodes of the entry at the cursor, which is taken as one at `position`.
/// Afterwards the cursor is behind the last of them.
pub fn read_inodes<R: Reader>(r: &mut R, position: u64) -> (result: Result<Vec<INode>, Detail>)
    ensures
        final(r).contents() == old(r).contents(),
        storage::same_device(*final(r), *old(r)),
        ({
            let expected = parse_inodes(old(r).contents(), old(r).position(), position);
            match result {
                Ok(inodes) => {
                    &&& expected == Ok::<Seq<INodeView>, DetailView>(model::inode_views(inodes@))
                    &&& final(r).position() == inodes_end(old(r).contents(), old(r).position())
                },
                Err(detail) => error::failed(old(r).faultless(), detail, expected),
            }
        }),
{
    let ghost contents = r.contents();
    let ghost at = r.position();
    let i: u64 = match storage::read_u64(r) {
        Ok(i) => i,
        Err(detail) => return Err(detail),
    };
    let inode_count: u8 = match storage::read_u8(r) {
        Ok(count) => count,
        Err(detail) => return Err(detail),
    };
    let mut right_j: u8 = 0;
    let mut inodes: Vec<INode> = Vec::with_capacity(inode_count as usize);
    let mut k: u8 = 0;
    while k < inode_count
        invariant
            k <= inode_count,
            contents == old(r).contents(),
            at == old(r).position(),
            r.contents() == contents,
            storage::same_device(*r, *old(r)),
            at + 9 <= contents.len(),
            inode_count == byte_at(contents, at + 8),
            i == u64_at(contents, at),
            r.position() == inode_position(at, k as nat),
            r.position() <= contents.len(),
            right_j == if k == 0 {
                0
            } else {
                stored_level(contents, at, (k - 1) as nat)
            },
            model::inode_views(inodes@) == Seq::new(
                k as nat,
                |l: int| stored_inode(contents, at, position, l as nat),
            ),
        decreases inode_count - k,
    {
        proof {
            assert(inode_position(at, (k + 1) as nat) == inode_position(at, k as nat)
                + INODE_BYTES) by (nonlinear_arith);
            assert(inode_position(at, (k + 1) as nat) <= inode_position(at, inode_count as nat))
                by (nonlinear_arith)
                requires
                    k + 1 <= inode_count,
            ;
        }
        let level: u8 = match storage::read_u8(r) {
            Ok(level) => level,
            Err(detail) => return Err(detail),
        };
        assert(level & 63 == level % 64) by (bit_vector);
        let j: u8 = (level & (INDEX_SIZE - 1)) + 1;
        let left_position: u64 = match storage::read_u64(r) {
            Ok(position) => position,
            Err(detail) => return Err(detail),
        };
        let left_i: u64 = match storage::read_u64(r) {
            Ok(i) => i,
            Err(detail) => return Err(detail),
        };
        let left_j: u8 = match storage::read_u8(r) {
            Ok(j) => j,
            Err(detail) => return Err(detail),
        };
        let hash = match storage::read_exact(r, HASH_SIZE) {
            Ok(hash) => hash,
            Err(detail) => return Err(detail),
        };
        let inode = INode::new(
            Node::new(Address::new(i, j, position), hash::Hash::from_slice(hash.as_slice())),
            Address::new(left_i, left_j, left_position),
            Address::new(i, right_j, position),
        );
        let ghost before = inodes@;
        inodes.push(inode);
        right_j = j;
        proof {
            assert(inode@ == stored_inode(contents, at, position, k as nat));
            assert(model::inode_views(inodes@) =~= model::inode_views(before).push(inode@));
        }
        k = k + 1;
        assert(model::inode_views(inodes@) =~= Seq::new(
            k as nat,
            |l: int| stored_inode(contents, at, position, l as nat),
        ));
    }
    Ok(inodes)
}

/// The size of the payload of the entry at `at`. The highest bit of the stored number does not
/// count.
pub open spec fn payload_size(contents: Seq<u8>, at: nat) -> nat {
    (u32_at(contents, inodes_end(contents, at)) % 0x8000_0000) as nat
}

/// The position of the trailer of the entry at `at`.
pub open spec fn entry_end(contents: Seq<u8>, at: nat) -> nat {
    inodes_end(contents, at) + 4 + payload_size(contents, at) + HASH_SIZE as nat
}

/// The index of the leaf of the entry with these inner nodes. The only entry without any is the
/// first.
pub open spec fn entry_index(inodes: Seq<INodeView>) -> Index {
    if inodes.len() == 0 {
        1
    } else {
        inodes[0].node.address.i
    }
}

/// The entry at `at`, taken as one at the position `position`. It has to be the one with the index
/// `i_expected`, unless that is 0.
pub open spec fn parse_entry(
    contents: Seq<u8>,
    at: nat,
    position: u64,
    i_expected: Index,
) -> Result<EntryView, DetailView> {
    match parse_inodes(contents, at, position) {
        Err(detail) => Err(detail),
        Ok(inodes) => {
            let i = entry_index(inodes);
            let p = inodes_end(contents, at);
            if i != i_expected && i_expected != 0 {
                Err(DetailView::IncorrectNodeBoundary { at: position })
            } else if p + 4 > contents.len() || entry_end(contents, at) > contents.len() {
                Err(error::unexpected_eof())
            } else {
                let size = payload_size(contents, at);
                Ok(
                    EntryView {
                        enode: ENodeView {
                            node: NodeView {
                                address: Address { i, j: 0, position },
                                hash: storage::bytes_at(contents, p + 4 + size, HASH_SIZE as nat),
                            },
                            payload: storage::bytes_at(contents, p + 4, size),
                        },
                        inodes,
                    },
                )
            }
        },
    }
}

/// Reads the entry at the cursor, which is taken as one at `position`, without checking its
/// trailer. Afterwards the cursor is at the trailer.
pub fn read_entry_without_check<R: Reader>(
    r: &mut R,
    position: u64,
    i_expected: Index,
) -> (result: Result<Entry, Detail>)
    ensures
        final(r).contents() == old(r).contents(),
        storage::same_device(*final(r), *old(r)),
        ({
            let expected = parse_entry(old(r).contents(), old(r).position(), position, i_expected);
            match result {
                Ok(entry) => {
                    let contents = old(r).contents();
                    let end = final(r).position() as int;
                    let size = entry.enode.payload@.len();
                    &&& expected == Ok::<EntryView, DetailView>(entry@)
                    &&& final(r).position() == entry_end(old(r).contents(), old(r).position())
                    &&& end <= contents.len()
                    &&& end == old(r).position() + 45 + 50 * entry.inodes@.len() + size
                    &&& entry.enode.payload@ == contents.subrange(end - 32 - size, end - 32)
                    &&& entry.enode.node.hash.value@ == contents.subrange(end - 32, end)
                    &&& i_expected != 0 ==> entry.enode.node.address.i == i_expected
                },
                Err(detail) => error::failed(old(r).faultless(), detail, expected),
            }
        }),
{
    // the inner nodes
    let inodes = match read_inodes(r, position) {
        Ok(inodes) => inodes,
        Err(detail) => return Err(detail),
    };
    let i: Index = if inodes.len() == 0 {
        1
    } else {
        inodes[0].node.address.i
    };
    if i != i_expected && i_expected != 0 {
        return Err(Detail::IncorrectNodeBoundary { at: position });
    }
    // the leaf
    let stored_size: u32 = match storage::read_u32(r) {
        Ok(size) => size,
        Err(detail) => return Err(detail),
    };
    let size: u32 = stored_size & MAX_PAYLOAD_SIZE as u32;
    assert(stored_size & 0x7FFFFFFF == stored_size % 0x8000_0000) by (bit_vector);
    let payload = match storage::read_exact(r, size as usize) {
        Ok(payload) => payload,
        Err(detail) => return Err(detail),
    };
    let hash = match storage::read_exact(r, HASH_SIZE) {
        Ok(hash) => hash,
        Err(detail) => return Err(detail),
    };
    let node = Node::new(Address::new(i, 0, position), hash::Hash::from_slice(hash.as_slice()));
    proof {
        guarantees::lemma_entry_read(old(r).contents(), old(r).position(), position, i_expected);
    }
    Ok(Entry { enode: ENode { node, payload }, inodes })
}

/// The checksum of `bytes`.
pub open spec fn checksum_of(bytes: Seq<u8>) -> u64 {
    hash::highway_hash64(CHECKSUM_HW64_KEY@, bytes)
}

/// The entry at `at` with its trailer checked.
pub open spec fn parse_checked_entry(contents: Seq<u8>, at: nat, i_expected: Index) -> Result<
    EntryView,
    DetailView,
> {
    match parse_entry(contents, at, at as u64, i_expected) {
        Err(detail) => Err(detail),
        Ok(entry) => {
            let end = entry_end(contents, at);
            let offset = (end - at) as nat;
            if end + 4 > contents.len() {
                Err(error::unexpected_eof())
            } else if offset != u32_at(contents, end) {
                Err(
                    DetailView::IncorrectEntryHeadOffset {
                        expected: u32_at(contents, end),
                        actual: offset as u64,
                    },
                )
            } else if end + 12 > contents.len() {
                Err(error::unexpected_eof())
            } else {
                let checksum = checksum_of(storage::bytes_at(contents, at, offset + 4));
                match checked(at as u64, offset as u32, u64_at(contents, end + 4), checksum) {
                    Err(detail) => Err(detail),
                    Ok(()) => Ok(entry),
                }
            }
        },
    }
}

/// What becomes of the entry of `offset` bytes at `at` whose trailer holds the checksum `expected`
/// while `actual` is that of its bytes.
pub open spec fn checked(at: u64, offset: u32, expected: u64, actual: u64) -> Result<
    (),
    DetailView,
> {
    if actual != expected {
        Err(
            DetailView::ChecksumVerificationFailed {
                at,
                length: (offset + 12) as u32,
                expected,
                actual,
            },
        )
    } else {
        Ok(())
    }
}

/// Compares the checksum in the trailer of an entry with that of its bytes.
pub fn verify_checksum(at: u64, offset: u32, expected: u64, actual: u64) -> (result: Result<
    (),
    Detail,
>)
    requires
        offset + 12 <= u32::MAX,
    ensures
        match result {
            Ok(()) => checked(at, offset, expected, actual) == Ok::<(), DetailView>(()),
            Err(detail) => checked(at, offset, expected, actual) == Err::<(), DetailView>(detail@),
        },
{
    if actual != expected {
        let length: u32 = offset + 4 + 8;
        return Err(Detail::ChecksumVerificationFailed { at, length, expected, actual });
    }
    Ok(())
}

/// Reads the entry at the cursor and checks its trailer. Afterwards the cursor is at the next
/// entry.
pub fn read_entry<R: Reader>(r: &mut R, i_expected: Index) -> (result: Result<Entry, Detail>)
    ensures
        final(r).contents() == old(r).contents(),
        storage::same_device(*final(r), *old(r)),
        ({
            let expected = parse_checked_entry(
                old(r).contents(),
                old(r).position(),
                i_expected,
            );
            match result {
                Ok(entry) => {
                    let contents = old(r).contents();
                    let at = old(r).position() as int;
                    let end = final(r).position() as int;
                    let size = entry.enode.payload@.len();
                    &&& expected == Ok::<EntryView, DetailView>(entry@)
                    &&& final(r).position() == entry_end(old(r).contents(), old(r).position())
                        + 12
                    &&& end <= contents.len()
                    &&& end == at + 57 + 50 * entry.inodes@.len() + size
                    &&& entry.enode.payload@ == contents.subrange(end - 44 - size, end - 44)
                    &&& endian::le_value(contents.subrange(end - 12, end - 8)) == end - 12 - at
                    &&& endian::le_value(contents.subrange(end - 8, end)) == hash::highway_hash64(
                        guarantees::checksum_key(),
                        contents.subrange(at, end - 8),
                    )
                },
                Err(detail) => error::failed(old(r).faultless(), detail, expected),
            }
        }),
{
    let ghost contents = r.contents();
    let ghost at = r.position();
    let position: u64 = match r.stream_position() {
        Ok(position) => position,
        Err(detail) => return Err(detail),
    };
    let entry = match read_entry_without_check(r, position, i_expected) {
        Ok(entry) => entry,
        Err(detail) => return Err(detail),
    };
    // the offset
    let end: u64 = match r.stream_position() {
        Ok(end) => end,
        Err(detail) => return Err(detail),
    };
    let offset: u64 = end - position;
    let trailer_offset: u32 = match storage::read_u32(r) {
        Ok(offset) => offset,
        Err(detail) => return Err(detail),
    };
    if offset != trailer_offset as u64 {
        return Err(
            Detail::IncorrectEntryHeadOffset { expected: trailer_offset, actual: offset },
        );
    }
    // the checksum
    proof {
        lemma_entry_size(contents, at);
    }
    match r.move_to(position) {
        Ok(_) => {},
        Err(detail) => return Err(detail),
    }
    let sealed = match storage::read_exact(r, trailer_offset as usize + 4) {
        Ok(sealed) => sealed,
        Err(detail) => return Err(detail),
    };
    let checksum: u64 = hash::highway64(&CHECKSUM_HW64_KEY, sealed.as_slice());
    let trailer_checksum: u64 = match storage::read_u64(r) {
        Ok(checksum) => checksum,
        Err(detail) => return Err(detail),
    };
    proof {
        guarantees::lemma_entry_checked(contents, at, i_expected);
        guarantees::lemma_entry_read(contents, at, position, i_expected);
    }
    match verify_checksum(position, trailer_offset, trailer_checksum, checksum) {
        Ok(()) => Ok(entry),
        Err(detail) => Err(detail),
    }
}

/// An entry without its trailer takes less than two gigabytes and a few kilobytes.
proof fn lemma_entry_size(contents: Seq<u8>, at: nat)
    ensures
        at + 13 + HASH_SIZE <= entry_end(contents, at) <= at + 13 + 255 * INODE_BYTES + 0x7FFF_FFFF
            + HASH_SIZE,
{
    assert(0 <= byte_at(contents, at + 8) as nat * INODE_BYTES as nat <= 255 * INODE_BYTES)
        by (nonlinear_arith)
        requires
            0 <= byte_at(contents, at + 8) <= 255,
    ;
}

/// The bytes of an inner node.
pub open spec fn encode_inode(inode: INodeView) -> Seq<u8> {
    seq![(inode.node.address.j - 1) as u8] + endian::le_bytes(inode.left.position as nat, 8)
        + endian::le_bytes(inode.left.i as nat, 8) + seq![inode.left.j] + inode.node.hash
}

/// The bytes of inner nodes.
pub open spec fn encode_inodes(inodes: Seq<INodeView>) -> Seq<u8>
    decreases inodes.len(),
{
    if inodes.len() == 0 {
        Seq::empty()
    } else {
        encode_inodes(inodes.drop_last()) + encode_inode(inodes.last())
    }
}

/// The bytes of an entry before its trailer.
pub open spec fn encode_body(entry: EntryView) -> Seq<u8> {
    endian::le_bytes(entry.enode.node.address.i as nat, 8) + seq![entry.inodes.len() as u8]
        + encode_inodes(entry.inodes) + endian::le_bytes(entry.enode.payload.len(), 4)
        + entry.enode.payload + entry.enode.node.hash
}

/// The bytes of an entry before its checksum.
pub open spec fn encode_sealed(entry: EntryView) -> Seq<u8> {
    encode_body(entry) + endian::le_bytes(encode_body(entry).len(), 4)
}

/// The bytes of an entry.
pub open spec fn encode_entry(entry: EntryView) -> Seq<u8> {
    encode_sealed(entry) + endian::le_bytes(checksum_of(encode_sealed(entry)) as nat, 8)
}

/// Whether an entry can be written: its payload is not too large, it does not have too many inner
/// nodes, and their heights are those of inner nodes.
pub open spec fn is_writable(entry: EntryView) -> bool {
    &&& entry.enode.payload.len() <= MAX_PAYLOAD_SIZE
    &&& entry.enode.node.hash.len() == HASH_SIZE
    &&& entry.inodes.len() <= 0xFF
    &&& forall|k: int|
        #![trigger entry.inodes[k]]
        0 <= k < entry.inodes.len() ==> 1 <= entry.inodes[k].node.address.j <= INDEX_SIZE
            && entry.inodes[k].node.hash.len() == HASH_SIZE
}

/// The number of bytes of inner nodes.
pub proof fn lemma_encode_inodes_len(inodes: Seq<INodeView>)
    requires
        forall|k: int|
            #![trigger inodes[k]]
            0 <= k < inodes.len() ==> inodes[k].node.hash.len() == HASH_SIZE,
    ensures
        encode_inodes(inodes).len() == inodes.len() * INODE_BYTES,
    decreases inodes.len(),
{
    if inodes.len() > 0 {
        lemma_encode_inodes_len(inodes.drop_last());
        let last = inodes.last();
        endian::lemma_le_bytes_len(last.left.position as nat, 8);
        endian::lemma_le_bytes_len(last.left.i as nat, 8);
        assert(encode_inode(last).len() == INODE_BYTES);
        assert(inodes.len() * INODE_BYTES == (inodes.len() - 1) * INODE_BYTES + INODE_BYTES)
            by (nonlinear_arith);
    }
}

/// The number of bytes of an entry before its trailer.
pub open spec fn body_size(inode_count: nat, payload_len: nat) -> nat {
    13 + inode_count * INODE_BYTES as nat + payload_len + HASH_SIZE as nat
}

/// The number of bytes of an entry.
pub proof fn lemma_encode_len(entry: EntryView)
    requires
        is_writable(entry),
    ensures
        encode_body(entry).len() == body_size(entry.inodes.len(), entry.enode.payload.len()),
        encode_body(entry).len() <= 13 + 255 * INODE_BYTES + MAX_PAYLOAD_SIZE + HASH_SIZE,
        encode_sealed(entry).len() == encode_body(entry).len() + 4,
        encode_entry(entry).len() == encode_body(entry).len() + 12,
{
    lemma_encode_inodes_len(entry.inodes);
    endian::lemma_le_bytes_len(entry.enode.node.address.i as nat, 8);
    endian::lemma_le_bytes_len(entry.enode.payload.len(), 4);
    endian::lemma_le_bytes_len(encode_body(entry).len(), 4);
    endian::lemma_le_bytes_len(checksum_of(encode_sealed(entry)) as nat, 8);
    assert(entry.inodes.len() * INODE_BYTES as nat <= 255 * INODE_BYTES) by (nonlinear_arith)
        requires
            entry.inodes.len() <= 255,
    ;
}

/// Lays out an entry before its checksum.
pub fn seal_entry(e: &Entry) -> (sealed: Vec<u8>)
    requires
        is_writable(e@),
    ensures
        sealed@ == encode_sealed(e@),
{
    proof {
        lemma_encode_len(e@);
    }
    let mut bytes: Vec<u8> = endian::encode_u64(e.enode.node.address.i);
    bytes.push(e.inodes.len() as u8);
    let ghost header = bytes@;
    let mut k: usize = 0;
    assert(encode_inodes(e@.inodes.take(0)) =~= Seq::empty());
    while k < e.inodes.len()
        invariant
            k <= e.inodes.len(),
            is_writable(e@),
            bytes@ == header + encode_inodes(e@.inodes.take(k as int)),
        decreases e.inodes.len() - k,
    {
        let inode = e.inodes[k];
        assert(inode@ == e@.inodes[k as int]);
        let level: u8 = inode.node.address.j - 1;
        assert(level <= 63 ==> level & 63 == level) by (bit_vector);
        bytes.push(level & (INDEX_SIZE - 1));
        let mut left_position = endian::encode_u64(inode.left.position);
        bytes.append(&mut left_position);
        let mut left_i = endian::encode_u64(inode.left.i);
        bytes.append(&mut left_i);
        bytes.push(inode.left.j);
        bytes.extend_from_slice(inode.node.hash.value.as_slice());
        k = k + 1;
        proof {
            let taken = e@.inodes.take(k as int);
            assert(taken.drop_last() =~= e@.inodes.take(k - 1));
            assert(taken.last() == inode@);
            assert(bytes@ =~= header + (encode_inodes(e@.inodes.take(k - 1)) + encode_inode(
                inode@,
            )));
        }
    }
    assert(e@.inodes.take(k as int) =~= e@.inodes);
    let mut payload_size = endian::encode_u32(e.enode.payload.len() as u32);
    bytes.append(&mut payload_size);
    bytes.extend_from_slice(e.enode.payload.as_slice());
    bytes.extend_from_slice(e.enode.node.hash.value.as_slice());
    assert(bytes@ =~= encode_body(e@));
    let mut offset = endian::encode_u32(bytes.len() as u32);
    bytes.append(&mut offset);
    bytes
}

/// Appends the entry to the contents and returns the number of bytes that it takes. Where the
/// device fails, its first bytes may have been appended.
pub fn write_entry<C: Cursor>(w: &mut C, e: &Entry) -> (result: Result<usize, Detail>)
    requires
        is_writable(e@),
        old(w).position() == old(w).contents().len(),
        old(w).contents().len() <= u64::MAX,
    ensures
        storage::same_device(*final(w), *old(w)),
        final(w).position() == final(w).contents().len(),
        final(w).contents().len() <= u64::MAX,
        result matches Ok(length) ==> {
            let at = old(w).contents().len() as int;
            let end = final(w).contents().len() as int;
            let size = e.enode.payload@.len();
            &&& length == encode_entry(e@).len()
            &&& final(w).contents() == old(w).contents() + encode_entry(e@)
            &&& length == 57 + 50 * e.inodes@.len() + size
            &&& end == at + length
            &&& final(w).contents().subrange(end - 44 - size, end - 44) == e.enode.payload@
            &&& endian::le_value(final(w).contents().subrange(end - 12, end - 8)) == length - 12
            &&& endian::le_value(final(w).contents().subrange(end - 8, end))
                == hash::highway_hash64(
                guarantees::checksum_key(),
                final(w).contents().subrange(at, end - 8),
            )
        },
        result is Err ==> storage::appended_part(
            old(w).contents(),
            final(w).contents(),
            encode_entry(e@),
        ),
        old(w).writable() ==> (result matches Err(detail) ==> detail@.is_fault()),
        !old(w).writable() ==> result is Err && final(w).contents() == old(w).contents(),
        old(w).faultless() && old(w).writable() && old(w).contents().len() + encode_entry(e@).len()
            <= old(w).capacity() ==> result is Ok,
{
    let mut bytes = seal_entry(e);
    let checksum: u64 = hash::highway64(&CHECKSUM_HW64_KEY, bytes.as_slice());
    let mut trailer = endian::encode_u64(checksum);
    bytes.append(&mut trailer);
    proof {
        lemma_encode_len(e@);
    }
    match storage::write_all(w, bytes.as_slice()) {
        Ok(()) => {
            proof {
                let at = old(w).contents().len() as int;
                let after = w.contents();
                assert(after.subrange(at, at + bytes@.len()) =~= bytes@);
                guarantees::lemma_held(after, at, bytes@, e@);
            }
            Ok(bytes.len())
        },
        Err(detail) => Err(detail),
    }
}

} // verus!
