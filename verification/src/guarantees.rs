//! What the operations guarantee, said of bytes, numbers and the outside hash functions alone.
//!
//! The laws of this module do not lean on the words in which the other modules describe what is read
//! and written. They say what these descriptions come to.
use crate::algorithm;
use crate::algorithm::Index;
use crate::endian;
use crate::entry;
use crate::error;
use crate::error::{Detail, DetailView, IoError, IoErrorView};
use crate::hash;
use crate::hash::HashAlgorithm;
use crate::laws;
use crate::memory;
use crate::model;
use crate::model::{
    Address, DataSet, DataSetView, ENode, Entry, EntryView, INode, INodeView, Node, NodeHashView,
    NodeView, Root, RootView, STRoot, STRootView,
};
use crate::mvht;
use crate::mvht::MVHT;
use crate::roundtrip;
use crate::search;
use crate::storage;
use crate::storage::{Reader, SeekFrom, Storage};
use crate::text;
use crate::tree;
use crate::tree::Log;
use vstd::arithmetic::power2;
use vstd::prelude::*;

verus! {

/// The constants of the format.
pub proof fn lemma_constants()
    ensures
        entry::MAX_PAYLOAD_SIZE == 0x7FFF_FFFF,
        entry::INODE_BYTES == 50,
        hash::HASH_SIZE == 32,
        algorithm::INDEX_SIZE == 64,
        mvht::STORAGE_IDENTIFIER@ == seq![0x01u8, 0xF3u8, 0x33u8],
        mvht::STORAGE_VERSION == 0,
        mvht::header() == seq![0x01u8, 0xF3u8, 0x33u8, 0x00u8],
        entry::CHECKSUM_HW64_KEY@ == checksum_key(),
{
    mvht::lemma_header();
    assert(((0u8 << 4) | (0u8 & 0x0F)) == 0) by (bit_vector);
    assert(mvht::STORAGE_IDENTIFIER@ =~= seq![0x01u8, 0xF3u8, 0x33u8]);
    assert(mvht::header() =~= seq![0x01u8, 0xF3u8, 0x33u8, 0x00u8]);
    assert(entry::CHECKSUM_HW64_KEY@ =~= checksum_key());
}

/// The key of the checksums.
pub open spec fn checksum_key() -> Seq<u64> {
    seq![
        0xFA5015F2E22BCFC6u64,
        0xCE5A4ED9A4025C80u64,
        0x16B9731717F6315Eu64,
        0x0F34D06AE93BD8E9u64,
    ]
}

/// A hash value has 32 bytes, and they are those of the SHA-256 digest of all bytes of the value.
pub proof fn lemma_hash_of(value: Seq<u8>)
    ensures
        hash::hash_of(value).len() == 32,
        forall|k: int|
            0 <= k < 32 ==> #[trigger] hash::hash_of(value)[k] == hash::sha256_digest(value)[k],
{
}

/// Each algorithm gives the digest of all bytes of the value that it is named after.
pub proof fn lemma_digests(value: Seq<u8>)
    ensures
        HashAlgorithm::Sha224.digest_of(value) == hash::sha224_digest(value),
        HashAlgorithm::Sha256.digest_of(value) == hash::sha256_digest(value),
        HashAlgorithm::Sha512.digest_of(value) == hash::sha512_digest(value),
        HashAlgorithm::Sha512Trunc224.digest_of(value) == hash::sha512_trunc224_digest(value),
        HashAlgorithm::Sha512Trunc256.digest_of(value) == hash::sha512_trunc256_digest(value),
        HashAlgorithm::HighwayHash64.digest_of(value).len() == 8,
        endian::le_value(HashAlgorithm::HighwayHash64.digest_of(value)) == hash::highway_hash64(
            seq![0u64, 0u64, 0u64, 0u64],
            value,
        ),
        HashAlgorithm::HighwayHash64.digest_size() == 8,
        HashAlgorithm::Sha224.digest_size() == 28,
        HashAlgorithm::Sha256.digest_size() == 32,
        HashAlgorithm::Sha512.digest_size() == 64,
        HashAlgorithm::Sha512Trunc224.digest_size() == 28,
        HashAlgorithm::Sha512Trunc256.digest_size() == 32,
{
    let n = hash::highway_hash64(seq![0u64, 0u64, 0u64, 0u64], value) as nat;
    endian::lemma_le_bytes_len(n, 8);
    endian::lemma_le_limits();
    endian::lemma_le_round_trip(n, 8);
}

/// The checksum of bytes is the hash of all of them with the fixed key.
pub proof fn lemma_checksum(bytes: Seq<u8>)
    ensures
        entry::checksum_of(bytes) == hash::highway_hash64(checksum_key(), bytes),
{
    lemma_constants();
}

/// Four bytes are a number with the lowest byte first, and so are eight.
pub proof fn lemma_little_endian(bytes: Seq<u8>)
    ensures
        bytes.len() == 4 ==> endian::le_value(bytes) == bytes[0] + 0x100 * bytes[1] + 0x1_0000
            * bytes[2] + 0x100_0000 * bytes[3],
        bytes.len() == 8 ==> endian::le_value(bytes) == bytes[0] + 0x100 * bytes[1] + 0x1_0000
            * bytes[2] + 0x100_0000 * bytes[3] + 0x1_0000_0000 * bytes[4] + 0x100_0000_0000
            * bytes[5] + 0x1_0000_0000_0000 * bytes[6] + 0x100_0000_0000_0000 * bytes[7],
{
    if bytes.len() == 4 || bytes.len() == 8 {
        reveal_with_fuel(endian::le_value, 9);
        let b1 = bytes.drop_first();
        let b2 = b1.drop_first();
        let b3 = b2.drop_first();
        assert(b1[0] == bytes[1]);
        assert(b2[0] == bytes[2]);
        assert(b3[0] == bytes[3]);
        let b4 = b3.drop_first();
        if bytes.len() == 8 {
            let b5 = b4.drop_first();
            let b6 = b5.drop_first();
            let b7 = b6.drop_first();
            assert(b4[0] == bytes[4]);
            assert(b5[0] == bytes[5]);
            assert(b6[0] == bytes[6]);
            assert(b7[0] == bytes[7]);
        }
    }
}

/// The bytes that a number is written with give back the number.
pub proof fn lemma_number_bytes(n: nat)
    ensures
        n <= u32::MAX ==> endian::le_bytes(n, 4).len() == 4 && endian::le_value(
            endian::le_bytes(n, 4),
        ) == n,
        n <= u64::MAX ==> endian::le_bytes(n, 8).len() == 8 && endian::le_value(
            endian::le_bytes(n, 8),
        ) == n,
{
    endian::lemma_le_limits();
    endian::lemma_le_bytes_len(n, 4);
    endian::lemma_le_bytes_len(n, 8);
    if n <= u32::MAX {
        endian::lemma_le_round_trip(n, 4);
    }
    if n <= u64::MAX {
        endian::lemma_le_round_trip(n, 8);
    }
}

/// Eight bytes are a number of 64 bits, four bytes one of 32 bits.
proof fn lemma_number_fits(bytes: Seq<u8>)
    ensures
        bytes.len() == 4 ==> endian::le_value(bytes) <= u32::MAX,
        bytes.len() == 8 ==> endian::le_value(bytes) <= u64::MAX,
{
    lemma_little_endian(bytes);
}

/// The number in the `width` bytes of `contents` at `at`.
pub open spec fn number(contents: Seq<u8>, at: int, width: int) -> nat {
    endian::le_value(contents.subrange(at, at + width))
}

/// The bytes of `k` inner nodes.
proof fn lemma_inode_bytes(k: nat)
    ensures
        k * entry::INODE_BYTES as nat == 50 * k,
{
    assert(entry::INODE_BYTES == 50);
    assert(k * entry::INODE_BYTES as nat == 50 * k) by (nonlinear_arith)
        requires
            entry::INODE_BYTES == 50,
    ;
}

/// A number is read from the bytes at its place.
proof fn lemma_number_at(contents: Seq<u8>, at: nat)
    ensures
        at + 4 <= contents.len() ==> entry::u32_at(contents, at) == number(contents, at as int, 4),
        at + 8 <= contents.len() ==> entry::u64_at(contents, at) == number(contents, at as int, 8),
{
    if at + 4 <= contents.len() {
        lemma_number_fits(contents.subrange(at as int, at as int + 4));
    }
    if at + 8 <= contents.len() {
        lemma_number_fits(contents.subrange(at as int, at as int + 8));
    }
}

/// The bytes of an entry. In front are its index and the number of its inner nodes. Behind the inner
/// nodes come the length of the value, the value and its hash value. At the end are the length of all
/// that, and the checksum of everything before it.
pub proof fn lemma_entry_layout(e: EntryView)
    requires
        entry::is_writable(e),
    ensures
        ({
            let bytes = entry::encode_entry(e);
            let n = e.inodes.len() as int;
            let size = e.enode.payload.len() as int;
            let body = 45 + 50 * n + size;
            &&& bytes.len() == body + 12
            &&& number(bytes, 0, 8) == e.enode.node.address.i
            &&& bytes[8] == n
            &&& number(bytes, 9 + 50 * n, 4) == size
            &&& bytes.subrange(13 + 50 * n, 13 + 50 * n + size) == e.enode.payload
            &&& bytes.subrange(body - 32, body) == e.enode.node.hash
            &&& number(bytes, body, 4) == body
            &&& number(bytes, body + 4, 8) == hash::highway_hash64(
                checksum_key(),
                bytes.subrange(0, body + 4),
            )
        }),
{
    let bytes = entry::encode_entry(e);
    let n = e.inodes.len() as int;
    let size = e.enode.payload.len() as int;
    let body = 45 + 50 * n + size;
    lemma_whole(e);
    roundtrip::lemma_entry_parts(bytes, 0, e);
    roundtrip::lemma_trailer(bytes, 0, e);
    lemma_checksum(entry::encode_sealed(e));
    lemma_inodes_end(bytes, 0);
    lemma_number_at(bytes, 0);
    lemma_number_at(bytes, (9 + 50 * n) as nat);
    lemma_number_at(bytes, body as nat);
    lemma_number_at(bytes, (body + 4) as nat);
    assert(bytes.subrange(13 + 50 * n, 13 + 50 * n + size) =~= e.enode.payload);
}

/// The bytes of an inner node: its height less one, the position, the index and the height of its left
/// branch, and its hash value.
pub proof fn lemma_inode_layout(e: EntryView, k: int)
    requires
        entry::is_writable(e),
        0 <= k < e.inodes.len(),
    ensures
        ({
            let bytes = entry::encode_entry(e);
            let inode = e.inodes[k];
            let p = 9 + 50 * k;
            &&& bytes[p] == inode.node.address.j - 1
            &&& number(bytes, p + 1, 8) == inode.left.position
            &&& number(bytes, p + 9, 8) == inode.left.i
            &&& bytes[p + 17] == inode.left.j
            &&& bytes.subrange(p + 18, p + 50) == inode.node.hash
        }),
{
    let bytes = entry::encode_entry(e);
    let p = (9 + 50 * k) as nat;
    lemma_whole(e);
    roundtrip::lemma_entry_parts(bytes, 0, e);
    lemma_inode_bytes(k as nat);
    roundtrip::lemma_inode_fields(bytes, p, e.inodes[k]);
    lemma_number_at(bytes, p + 1);
    lemma_number_at(bytes, p + 9);
}

proof fn lemma_whole(e: EntryView)
    requires
        entry::is_writable(e),
    ensures
        roundtrip::holds_entry(entry::encode_entry(e), 0, e),
        entry::encode_body(e).len() == 45 + 50 * e.inodes.len() + e.enode.payload.len(),
        entry::encode_entry(e).len() == 57 + 50 * e.inodes.len() + e.enode.payload.len(),
{
    let bytes = entry::encode_entry(e);
    entry::lemma_encode_len(e);
    lemma_inode_bytes(e.inodes.len());
    assert(bytes.subrange(0, bytes.len() as int) =~= bytes);
}

/// The inner nodes of an entry are read where all their bytes are there.
pub proof fn lemma_inodes_complete(contents: Seq<u8>, at: nat, position: u64)
    ensures
        match entry::parse_inodes(contents, at, position) {
            Ok(inodes) => {
                &&& at + 9 <= contents.len()
                &&& inodes.len() == contents[at as int + 8]
                &&& at + 9 + 50 * inodes.len() <= contents.len()
            },
            Err(detail) => {
                &&& detail == DetailView::Io(IoErrorView::UnexpectedEof)
                &&& at + 9 > contents.len() || at + 9 + 50 * contents[at as int + 8] > contents.len()
            },
        },
{
    lemma_inodes_end(contents, at);
}

/// Where the inner nodes of an entry end.
proof fn lemma_inodes_end(contents: Seq<u8>, at: nat)
    ensures
        entry::inodes_end(contents, at) == at + 9 + 50 * contents[at as int + 8],
{
    lemma_inode_bytes(contents[at as int + 8] as nat);
}

/// What is read of an inner node are the bytes at its place. All nodes of an entry have its index, and
/// the right branch of each is the one before it.
pub proof fn lemma_inode_read(contents: Seq<u8>, at: nat, position: u64, k: int)
    requires
        entry::parse_inodes(contents, at, position) is Ok,
        0 <= k < contents[at as int + 8],
    ensures
        ({
            let inode = entry::parse_inodes(contents, at, position)->Ok_0[k];
            let p = at + 9 + 50 * k;
            &&& inode.node.address.i == number(contents, at as int, 8)
            &&& inode.node.address.j == contents[p] % 64 + 1
            &&& inode.node.address.position == position
            &&& inode.node.hash == contents.subrange(p + 18, p + 50)
            &&& inode.left.position == number(contents, p + 1, 8)
            &&& inode.left.i == number(contents, p + 9, 8)
            &&& inode.left.j == contents[p + 17]
            &&& inode.right.i == inode.node.address.i
            &&& inode.right.position == position
            &&& inode.right.j == if k == 0 {
                0
            } else {
                contents[p - 50] % 64 + 1
            }
        }),
{
    let p = (at + 9 + 50 * k) as nat;
    lemma_inodes_complete(contents, at, position);
    lemma_inode_bytes(k as nat);
    lemma_inode_bytes((k - 1) as nat);
    lemma_number_at(contents, at);
    lemma_number_at(contents, p + 1);
    lemma_number_at(contents, p + 9);
}

/// An entry is read where all its bytes are there and its index is the one that is expected, if one is.
/// Its value is what the bytes say: as many bytes as the length in front of them, whose highest bit
/// does not count.
pub proof fn lemma_entry_read(contents: Seq<u8>, at: nat, position: u64, i_expected: Index)
    ensures
        ({
            let n = contents[at as int + 8] as int;
            let p = at + 9 + 50 * n;
            let size = number(contents, p, 4) as int % 0x8000_0000;
            let i = if n == 0 {
                1
            } else {
                number(contents, at as int, 8)
            };
            match entry::parse_entry(contents, at, position, i_expected) {
                Ok(e) => {
                    &&& p + 36 + size <= contents.len()
                    &&& i_expected == 0 || i_expected == i
                    &&& e.enode.node.address.i == i
                    &&& e.enode.node.address.j == 0
                    &&& e.enode.node.address.position == position
                    &&& e.enode.payload == contents.subrange(p + 4, p + 4 + size)
                    &&& e.enode.node.hash == contents.subrange(p + 4 + size, p + 36 + size)
                    &&& entry::parse_inodes(contents, at, position) == Ok::<
                        Seq<INodeView>,
                        DetailView,
                    >(e.inodes)
                    &&& e.inodes.len() == n
                    &&& entry::entry_end(contents, at) == p + 36 + size
                },
                Err(detail) => {
                    ||| detail == DetailView::Io(IoErrorView::UnexpectedEof) && (at + 9
                        > contents.len() || p > contents.len() || ((i_expected == 0 || i_expected
                        == i) && (p + 4 > contents.len() || p + 36 + size > contents.len())))
                    ||| detail == (DetailView::IncorrectNodeBoundary { at: position })
                        && i_expected != 0 && i_expected != i && p <= contents.len()
                },
            }
        }),
{
    let n = contents[at as int + 8] as int;
    let p = (at + 9 + 50 * n) as nat;
    lemma_inodes_complete(contents, at, position);
    lemma_inodes_end(contents, at);
    if p <= contents.len() {
        lemma_number_at(contents, at);
        if n > 0 && entry::parse_inodes(contents, at, position) is Ok {
            lemma_inode_read(contents, at, position, 0);
        }
        lemma_number_at(contents, p);
        if let Ok(e) = entry::parse_entry(contents, at, position, i_expected) {
            let size = number(contents, p as int, 4) as int % 0x8000_0000;
            assert(e.enode.payload =~= contents.subrange(p as int + 4, p + 4 + size));
            assert(e.enode.node.hash =~= contents.subrange(p + 4 + size, p + 36 + size));
        }
    }
}

/// An entry is accepted where, besides, its trailer fits to it: the length is that of the bytes before,
/// and the checksum is that of all bytes before it. Otherwise the error tells both numbers.
pub proof fn lemma_entry_checked(contents: Seq<u8>, at: nat, i_expected: Index)
    ensures
        ({
            let found = entry::parse_entry(contents, at, at as u64, i_expected);
            let end = entry::entry_end(contents, at) as int;
            let offset = number(contents, end, 4);
            let stored = number(contents, end + 4, 8);
            let actual = hash::highway_hash64(
                checksum_key(),
                contents.subrange(at as int, end + 4),
            );
            match entry::parse_checked_entry(contents, at, i_expected) {
                Ok(e) => {
                    &&& found == Ok::<EntryView, DetailView>(e)
                    &&& end + 12 <= contents.len()
                    &&& offset == end - at
                    &&& stored == actual
                },
                Err(detail) => {
                    ||| found == Err::<EntryView, DetailView>(detail)
                    ||| found is Ok && detail == DetailView::Io(IoErrorView::UnexpectedEof) && (end
                        + 4 > contents.len() || (offset == end - at && end + 12 > contents.len()))
                    ||| found is Ok && end + 4 <= contents.len() && offset != end - at && detail == (
                    DetailView::IncorrectEntryHeadOffset {
                        expected: offset as u32,
                        actual: (end - at) as u64,
                    })
                    ||| found is Ok && end + 12 <= contents.len() && offset == end - at && stored
                        != actual && detail == (DetailView::ChecksumVerificationFailed {
                        at: at as u64,
                        length: (end - at + 12) as u32,
                        expected: stored as u64,
                        actual,
                    })
                },
            }
        }),
{
    let end = entry::entry_end(contents, at);
    lemma_inodes_end(contents, at);
    lemma_number_at(contents, end);
    lemma_number_at(contents, end + 4);
    if end + 4 <= contents.len() {
        let sealed = contents.subrange(at as int, end as int + 4);
        lemma_checksum(sealed);
        assert(storage::bytes_at(contents, at, (end - at) as nat + 4) =~= sealed);
    }
}

/// A version is accepted where it is the one that is written.
pub proof fn lemma_version(version: u8)
    ensures
        mvht::version_compatible(version) <==> version == 0,
{
}

/// Moving back stops behind the four bytes of the head.
pub proof fn lemma_retreat(from: nat, distance: nat, if_err: Seq<char>)
    ensures
        mvht::retreat(from, distance, if_err) == if from >= distance + 4 {
            Ok::<nat, DetailView>((from - distance) as nat)
        } else {
            Err::<nat, DetailView>(
                DetailView::DamagedStorage(
                    if_err + " (cannot move position from "@ + text::decimal(from) + " to "@
                        + text::signed_decimal(from - distance) + ")"@,
                ),
            )
        },
{
}

/// Whether the four bytes at the head of a storage are those that are written there.
pub open spec fn has_head(contents: Seq<u8>) -> bool {
    &&& contents.len() >= 4
    &&& contents[0] == 0x01
    &&& contents[1] == 0xF3
    &&& contents[2] == 0x33
    &&& contents[3] == 0x00
}

/// A storage is opened only where it is empty or has the right head. It is opened without an entry only
/// where nothing is behind the head, and with one only where its contents end with the bytes of a
/// complete entry whose checksum, over all bytes of the entry before it, is right.
pub proof fn lemma_opened_is_sound(contents: Seq<u8>)
    requires
        contents.len() <= u64::MAX,
    ensures
        mvht::open_result(contents) matches Ok(last) ==> contents.len() == 0 || has_head(contents),
        mvht::open_result(contents) matches Ok(None) ==> contents.len() == 0 || contents.len() == 4,
        mvht::open_result(contents) matches Ok(Some(e)) ==> {
            let at = e.enode.node.address.position as int;
            let n = e.inodes.len() as int;
            let size = e.enode.payload.len() as int;
            let length = contents.len() as int;
            &&& 4 <= at
            &&& length == at + 57 + 50 * n + size
            &&& contents[at + 8] == n
            &&& n > 0 ==> number(contents, at, 8) == e.enode.node.address.i
            &&& n == 0 ==> e.enode.node.address.i == 1
            &&& number(contents, at + 9 + 50 * n, 4) as int % 0x8000_0000 == size
            &&& contents.subrange(at + 13 + 50 * n, at + 13 + 50 * n + size) == e.enode.payload
            &&& contents.subrange(length - 44, length - 12) == e.enode.node.hash
            &&& number(contents, length - 12, 4) == length - 12 - at
            &&& number(contents, length - 8, 8) == hash::highway_hash64(
                checksum_key(),
                contents.subrange(at, length - 8),
            )
        },
{
    lemma_constants();
    if contents.len() >= 4 {
        let head = contents.take(4);
        lemma_version(head[3]);
        if head.take(3) == mvht::STORAGE_IDENTIFIER@ {
            assert(head.take(3)[0] == contents[0]);
            assert(head.take(3)[1] == contents[1]);
            assert(head.take(3)[2] == contents[2]);
        }
    }
    if let Ok(Some(e)) = mvht::open_result(contents) {
        let trailer = (contents.len() - 12) as nat;
        let offset = entry::u32_at(contents, trailer);
        lemma_retreat(contents.len(), 12, "The first entry is corrupted."@);
        lemma_retreat(trailer + 4, (offset + 4) as nat, "The last entry is corrupted."@);
        let at = (trailer - offset) as nat;
        lemma_entry_checked(contents, at, 0);
        lemma_entry_read(contents, at, at as u64, 0);
        assert(e.enode.node.address.position == at);
        let n = e.inodes.len() as int;
        let size = e.enode.payload.len() as int;
        assert(n == contents[at as int + 8]);
        assert(entry::entry_end(contents, at) == at + 45 + 50 * n + size);
        assert(entry::entry_end(contents, at) + 12 == contents.len());
    }
}

/// What a storage is refused for. The identifier is judged before the version, and both before the
/// entries. The last entry is looked for where the length in front of the last checksum says.
pub proof fn lemma_refused(contents: Seq<u8>)
    requires
        contents.len() <= u64::MAX,
    ensures
        contents.len() > 0 && (contents.len() < 4 || contents[0] != 0x01 || contents[1] != 0xF3
            || contents[2] != 0x33) ==> mvht::open_result(contents) == Err::<
            Option<EntryView>,
            DetailView,
        >(DetailView::FileIsNotContentsOfMVHTree { message: "bad magic number"@ }),
        contents.len() >= 4 && contents[0] == 0x01 && contents[1] == 0xF3 && contents[2] == 0x33
            && contents[3] != 0 ==> mvht::open_result(contents) == Err::<
            Option<EntryView>,
            DetailView,
        >(DetailView::IncompatibleVersion((contents[3] / 16) as u8, (contents[3] % 16) as u8)),
        has_head(contents) && contents.len() == 4 ==> mvht::open_result(contents) == Ok::<
            Option<EntryView>,
            DetailView,
        >(None),
        has_head(contents) && 4 < contents.len() < 16 ==> mvht::open_result(contents) == Err::<
            Option<EntryView>,
            DetailView,
        >(
            DetailView::DamagedStorage(
                "The first entry is corrupted."@ + " (cannot move position from "@ + text::decimal(
                    contents.len(),
                ) + " to "@ + text::signed_decimal(contents.len() - 12) + ")"@,
            ),
        ),
        has_head(contents) && contents.len() >= 16 ==> {
            let length = contents.len() as int;
            let at = length - 12 - number(contents, length - 12, 4);
            mvht::open_result(contents) == if at < 4 {
                Err::<Option<EntryView>, DetailView>(
                    DetailView::DamagedStorage(
                        "The last entry is corrupted."@ + " (cannot move position from "@
                            + text::decimal((length - 8) as nat) + " to "@ + text::signed_decimal(at)
                            + ")"@,
                    ),
                )
            } else {
                match entry::parse_checked_entry(contents, at as nat, 0) {
                    Err(detail) => Err::<Option<EntryView>, DetailView>(detail),
                    Ok(e) => if length == at + 57 + 50 * e.inodes.len() + e.enode.payload.len() {
                        Ok::<Option<EntryView>, DetailView>(Some(e))
                    } else {
                        Err::<Option<EntryView>, DetailView>(
                            DetailView::DamagedStorage("The last entry is corrupted."@),
                        )
                    },
                }
            }
        },
{
    lemma_constants();
    if contents.len() >= 4 {
        let head = contents.take(4);
        lemma_version(head[3]);
        if contents[0] == 0x01 && contents[1] == 0xF3 && contents[2] == 0x33 {
            assert(head.take(3) =~= mvht::STORAGE_IDENTIFIER@);
        } else if head.take(3) == mvht::STORAGE_IDENTIFIER@ {
            assert(head.take(3)[0] == contents[0]);
            assert(head.take(3)[1] == contents[1]);
            assert(head.take(3)[2] == contents[2]);
        }
    }
    lemma_retreat(contents.len(), 12, "The first entry is corrupted."@);
    if has_head(contents) && contents.len() >= 16 {
        let trailer = (contents.len() - 12) as nat;
        lemma_number_at(contents, trailer);
        let offset = entry::u32_at(contents, trailer);
        lemma_retreat(trailer + 4, (offset + 4) as nat, "The last entry is corrupted."@);
        let at = trailer - offset;
        if at >= 4 {
            lemma_entry_checked(contents, at as nat, 0);
            lemma_entry_read(contents, at as nat, at as u64, 0);
        }
    }
}

/// A storage that was empty has the head after it was opened, and any other is unchanged.
pub proof fn lemma_contents_opened(contents: Seq<u8>)
    ensures
        contents.len() == 0 ==> mvht::opened(contents) == seq![0x01u8, 0xF3u8, 0x33u8, 0x00u8],
        contents.len() > 0 ==> mvht::opened(contents) == contents,
{
    lemma_constants();
}

/// An operation fails as it should, or because the device reports a fault, which one that never fails
/// does not do.
pub proof fn lemma_failed<V>(faultless: bool, detail: Detail, expected: Result<V, DetailView>)
    requires
        error::failed(faultless, detail, expected),
    ensures
        faultless ==> expected == Err::<V, DetailView>(detail@),
        expected is Ok ==> (detail matches Detail::Io(_)) && detail@.is_fault(),
        expected is Ok ==> detail@ != DetailView::Io(IoErrorView::UnexpectedEof) && detail@
            != DetailView::Io(IoErrorView::PermissionDenied) && detail@ != DetailView::Io(
            IoErrorView::InvalidSeek,
        ),
{
}

/// The place that is meant by an offset.
pub proof fn lemma_target(length: nat, position: nat, start: u64, offset: i64)
    ensures
        SeekFrom::Start(start).target(length, position) == start,
        SeekFrom::End(offset).target(length, position) == length + offset,
        SeekFrom::Current(offset).target(length, position) == position + offset,
{
}

/// Reading an exact number of bytes gives the bytes at the place, if they are all there.
pub proof fn lemma_exact_read(contents: Seq<u8>, position: nat, length: nat)
    ensures
        length > 0 && position + length <= contents.len() ==> storage::exact_read(
            contents,
            position,
            length,
        ) == Ok::<Seq<u8>, DetailView>(
            contents.subrange(position as int, (position + length) as int),
        ),
        length > 0 && position + length > contents.len() ==> storage::exact_read(
            contents,
            position,
            length,
        ) == Err::<Seq<u8>, DetailView>(DetailView::Io(IoErrorView::UnexpectedEof)),
        storage::exact_read(contents, position, 0) == Ok::<Seq<u8>, DetailView>(Seq::empty()),
{
}

/// What a write that failed has left is what was there, and behind it the first of the new bytes.
pub proof fn lemma_appended_part(before: Seq<u8>, after: Seq<u8>, bytes: Seq<u8>)
    requires
        storage::appended_part(before, after, bytes),
    ensures
        before.len() <= after.len() <= before.len() + bytes.len(),
        after.take(before.len() as int) == before,
        after.skip(before.len() as int) == bytes.take(after.len() - before.len()),
{
    let count = choose|count: int|
        0 <= count <= bytes.len() && after == #[trigger] (before + bytes.take(count));
    assert(after.take(before.len() as int) =~= before);
    assert(after.skip(before.len() as int) =~= bytes.take(count));
}

/// A storage in memory reads all bytes that were asked for, or all that are left.
pub proof fn lemma_memory_read(contents: Seq<u8>, position: nat, length: nat)
    ensures
        ({
            let bytes = memory::bytes_from(contents, position, length);
            &&& position >= contents.len() ==> bytes.len() == 0
            &&& position < contents.len() && position + length <= contents.len() ==> bytes.len()
                == length
            &&& position < contents.len() && position + length > contents.len() ==> bytes.len()
                == contents.len() - position
            &&& forall|k: int|
                0 <= k < bytes.len() ==> #[trigger] bytes[k] == contents[position + k]
        }),
{
}

/// The digits in upper case.
pub proof fn lemma_digits(digit: int)
    requires
        0 <= digit < 16,
    ensures
        text::digit_char(digit) == "0123456789ABCDEF"@[digit],
{
    reveal_strlit("0123456789ABCDEF");
}

/// Each byte is written with two digits, the higher one first.
pub proof fn lemma_hex(bytes: Seq<u8>, k: int)
    requires
        0 <= k < bytes.len(),
    ensures
        text::hex_chars(bytes).len() == 2 * bytes.len(),
        text::hex_chars(bytes)[2 * k] == "0123456789ABCDEF"@[bytes[k] as int / 16],
        text::hex_chars(bytes)[2 * k + 1] == "0123456789ABCDEF"@[bytes[k] as int % 16],
    decreases bytes.len(),
{
    let before = bytes.drop_last();
    if before.len() == 0 {
        assert(text::hex_chars(before).len() == 0);
    } else if k < before.len() {
        lemma_hex(before, k);
    } else {
        lemma_hex(before, 0);
    }
    lemma_digits(bytes.last() as int / 16);
    lemma_digits(bytes.last() as int % 16);
}

/// The number that decimal digits are.
pub open spec fn decimal_value(digits: Seq<char>) -> int
    decreases digits.len(),
{
    if digits.len() == 0 {
        0
    } else {
        10 * decimal_value(digits.drop_last()) + (digits.last() as int - '0' as int)
    }
}

/// A number is written with the digits that are that number, and without needless zeros.
pub proof fn lemma_decimal(n: nat)
    ensures
        decimal_value(text::decimal(n)) == n,
        text::decimal(n).len() >= 1,
        n > 0 ==> text::decimal(n)[0] != '0',
        n == 0 ==> text::decimal(n) == seq!['0'],
        forall|k: int|
            0 <= k < text::decimal(n).len() ==> '0' <= #[trigger] text::decimal(n)[k] <= '9',
    decreases n,
{
    reveal_with_fuel(decimal_value, 2);
    if n >= 10 {
        lemma_decimal(n / 10);
        let digits = text::decimal(n);
        assert(digits.drop_last() =~= text::decimal(n / 10));
    } else {
        assert(text::decimal(n).drop_last() =~= Seq::empty());
    }
}

/// A negative number is written with a minus in front.
pub proof fn lemma_signed_decimal(n: int)
    ensures
        n >= 0 ==> text::signed_decimal(n) == text::decimal(n as nat),
        n < 0 ==> text::signed_decimal(n) == seq!['-'] + text::decimal((-n) as nat),
{
}

/// The texts of the errors that tell of a contradiction.
pub proof fn lemma_messages(i: u64, j: u8, position: u64, k: u64)
    ensures
        search::no_inode_message(Address { i, j, position }) == "entry i="@ + text::decimal(i as nat)
            + " in storage doesn't contain an inode at specified level j="@ + text::decimal(
            j as nat,
        ),
        search::hop_message(Address { i, j, position }, k)
            == "The maximum hop count was exceeded before reaching node b_"@ + text::decimal(
            k as nat,
        ) + " from node b_{"@ + text::decimal(i as nat) + ","@ + text::decimal(j as nat)
            + "}.The data on the storage probably have circular references."@,
        mvht::missing_message(algorithm::NodeId { i, j }) == "cannot find the node b_{"@
            + text::decimal(i as nat) + ","@ + text::decimal(j as nat) + "}"@,
{
}

/// The inner node of a height is the first with that height, and there is none only where no node has
/// it.
pub proof fn lemma_first_of_height(inodes: Seq<INodeView>, j: u8)
    ensures
        match search::inode_at_level(inodes, j) {
            Some(inode) => exists|k: int|
                0 <= k < inodes.len() && #[trigger] inodes[k] == inode && inode.node.address.j == j
                    && forall|l: int| 0 <= l < k ==> (#[trigger] inodes[l]).node.address.j != j,
            None => forall|k: int|
                0 <= k < inodes.len() ==> (#[trigger] inodes[k]).node.address.j != j,
        },
    decreases inodes.len(),
{
    if inodes.len() > 0 && inodes[0].node.address.j != j {
        let rest = inodes.drop_first();
        lemma_first_of_height(rest, j);
        match search::inode_at_level(rest, j) {
            Some(inode) => {
                let k = choose|k: int|
                    0 <= k < rest.len() && #[trigger] rest[k] == inode && inode.node.address.j == j
                        && forall|l: int| 0 <= l < k ==> (#[trigger] rest[l]).node.address.j != j;
                assert(inodes[k + 1] == inode);
                assert forall|l: int| 0 <= l < k + 1 implies (#[trigger] inodes[l]).node.address.j
                    != j by {
                    if l > 0 {
                        assert(rest[l - 1] == inodes[l]);
                    }
                }
            },
            None => {
                assert forall|k: int| 0 <= k < inodes.len() implies (
                #[trigger] inodes[k]).node.address.j != j by {
                    if k > 0 {
                        assert(rest[k - 1] == inodes[k]);
                    }
                }
            },
        }
    } else if inodes.len() > 0 {
        assert(inodes[0].node.address.j == j);
    }
}

/// What a search finds without going further down than one step.
pub proof fn lemma_search_near(contents: Seq<u8>, root: INodeView, i: Index)
    ensures
        root.node.address.i == i ==> search::search(contents, root, i, true) == search::Found::Ok(
            Some((root.node.address.position, Seq::empty())),
        ) && search::search(contents, root, i, false) == search::search(contents, root, i, true),
        root.node.address.i != i && (i == 0 || (i > root.left.i && i > root.node.address.i))
            ==> search::search(contents, root, i, false) == search::Found::Ok(None)
            && search::search(contents, root, i, true) == search::Found::Ok(None),
        root.node.address.i != i && i != 0 && root.left.i == i ==> search::search(
            contents,
            root,
            i,
            false,
        ) == search::Found::Ok(Some((root.left.position, Seq::empty()))),
        root.node.address.i != i && i != 0 && i < root.left.i && root.left.j == 0
            ==> search::search(contents, root, i, false) == search::Found::Ok(None),
{
}

/// A search goes on below the root for 64 steps. With no step left it ends with an error.
pub proof fn lemma_search_steps(
    contents: Seq<u8>,
    root: INodeView,
    mover: INodeView,
    i: Index,
    with_branch: bool,
    hops: nat,
)
    ensures
        root.node.address.i != i && i != 0 ==> search::search(contents, root, i, with_branch)
            == search::descend(contents, root.node.address, root, i, with_branch, 64),
        search::descend(contents, root.node.address, mover, i, with_branch, 0)
            == search::Found::Err(
            DetailView::InternalStateInconsistency {
                message: search::hop_message(root.node.address, i),
            },
        ),
        hops > 0 && i > mover.left.i && i > mover.node.address.i ==> search::descend(
            contents,
            root.node.address,
            mover,
            i,
            with_branch,
            hops,
        ) == search::Found::Ok(None),
{
}

/// A search that comes back to the same inner node again and again ends with an error.
pub proof fn lemma_search_circle(
    contents: Seq<u8>,
    root: Address,
    mover: INodeView,
    i: Index,
    hops: nat,
)
    requires
        i <= mover.left.i || i <= mover.node.address.i,
        ({
            let next = if i <= mover.left.i {
                mover.left
            } else {
                mover.right
            };
            &&& next.i != i
            &&& next.j != 0
            &&& search::load_inode(contents, next) == Ok::<INodeView, DetailView>(mover)
        }),
    ensures
        search::descend(contents, root, mover, i, false, hops) == search::Found::Err(
            DetailView::InternalStateInconsistency { message: search::hop_message(root, i) },
        ),
    decreases hops,
{
    if hops > 0 {
        lemma_search_circle(contents, root, mover, i, (hops - 1) as nat);
    }
}

/// The hash value of the root of a tree with one value is the digest of the value.
pub proof fn lemma_root_of_one(value: Seq<u8>, k: int)
    requires
        0 <= k < 32,
    ensures
        tree::root_hash(seq![value]).len() == 32,
        tree::root_hash(seq![value])[k] == hash::sha256_digest(value)[k],
{
    lemma_hash_of(value);
}

/// The hash value of the root of a tree with more values is the digest of those of two trees. The first
/// of them has the values up to the largest power of two that is less than their number.
pub proof fn lemma_root_of_more(values: Seq<Seq<u8>>, j: nat, k: int)
    requires
        power2::pow2(j) < values.len() <= 2 * power2::pow2(j),
        0 <= k < 32,
    ensures
        tree::root_hash(values).len() == 32,
        tree::root_hash(values)[k] == hash::sha256_digest(
            tree::root_hash(values.take(power2::pow2(j) as int)) + tree::root_hash(
                values.skip(power2::pow2(j) as int),
            ),
        )[k],
{
    let half = power2::pow2(j) as int;
    power2::lemma_pow2_pos(j);
    algorithm::lemma_power_below_is(values.len(), j);
    lemma_hash_of(tree::root_hash(values.take(half)) + tree::root_hash(values.skip(half)));
}

/// Which nodes there are: the leaves, and the inner nodes `b_{i,j}` where the binary digit with the
/// number `j - 1` of `i - 1` is set.
pub proof fn lemma_nodes(i: nat, j: nat)
    ensures
        algorithm::is_node(i, 0) <==> i >= 1,
        j >= 1 ==> (algorithm::is_node(i, j) <==> i >= 1 && ((i - 1) as nat / power2::pow2(
            (j - 1) as nat,
        )) % 2 == 1),
        i >= 1 ==> algorithm::first_leaf(i, j) == before_first(i, j) + 1,
{
}

/// The number of values before the first one below the node `b_{i,j}`.
pub open spec fn before_first(i: nat, j: nat) -> nat {
    ((i - 1) as nat / power2::pow2(j)) * power2::pow2(j)
}

/// The inner nodes of an entry with their branches. The left branch of one with the height `j` is lower
/// by one and ends with the last multiple of 2 to the power of `j - 1` before the index, which is an
/// odd one. The right branch belongs to the entry, and is lower.
pub proof fn lemma_inodes_of(i: nat, k: int)
    requires
        1 <= i <= u64::MAX,
        0 <= k < algorithm::inodes_of(i).len(),
    ensures
        ({
            let id = algorithm::inodes_of(i)[k];
            let half = power2::pow2((id.node.j - 1) as nat);
            &&& id.node.i == i
            &&& 1 <= id.node.j <= 64
            &&& id.left.j == id.node.j - 1
            &&& 1 <= id.left.i < i <= id.left.i + half
            &&& id.left.i as nat % half == 0
            &&& (id.left.i as nat / half) % 2 == 1
            &&& id.right.i == i
            &&& id.right.j < id.node.j
            &&& k == 0 ==> id.right.j == 0
            &&& k > 0 ==> id.right.j == algorithm::inodes_of(i)[k - 1].node.j
        }),
{
    let levels = algorithm::levels(i, 64);
    algorithm::lemma_level(i, 64, k);
    let j = levels[k];
    let x = (i - 1) as nat;
    let half = power2::pow2((j - 1) as nat);
    let q = x / half;
    algorithm::lemma_branches(i, j);
    algorithm::lemma_floor_step(x, (j - 1) as nat);
    power2::lemma_pow2_pos((j - 1) as nat);
    assert(algorithm::inodes_of(i)[k] == algorithm::inode_id(i, j));
    assert(q * half == half * q) by (nonlinear_arith);
    vstd::arithmetic::div_mod::lemma_mod_multiples_basic(q as int, half as int);
    vstd::arithmetic::div_mod::lemma_div_by_multiple(q as int, half as int);
}

/// Every inner node of an entry is listed.
pub proof fn lemma_inodes_of_complete(i: nat, j: nat)
    requires
        1 <= i <= u64::MAX,
        j >= 1,
        ((i - 1) as nat / power2::pow2((j - 1) as nat)) % 2 == 1,
    ensures
        exists|k: int|
            0 <= k < algorithm::inodes_of(i).len() && (
            #[trigger] algorithm::inodes_of(i)[k]).node.j == j,
{
    assert(algorithm::is_inode(i, j));
    algorithm::lemma_inode_height(i, j);
    let k = algorithm::lemma_level_listed(i, 64, j);
    algorithm::lemma_level(i, 64, k);
    assert(algorithm::inodes_of(i)[k] == algorithm::inode_id(i, j));
}

/// A node has its address, and the hash value of a tree with just the values below it.
pub proof fn lemma_node_of(log: Log, i: nat, j: nat)
    requires
        log.valid(),
        1 <= i <= log.len(),
        algorithm::is_node(i, j),
    ensures
        ({
            let node = tree::node_of(log, i, j);
            &&& node.address.i == i
            &&& node.address.j == j
            &&& node.address.position == log.positions[i - 1]
            &&& before_first(i, j) < i
            &&& node.hash == tree::root_hash(
                log.values.subrange(before_first(i, j) as int, i as int),
            )
        }),
{
    tree::lemma_node_hash_is_root(log.values, i, j);
    if j > 0 {
        algorithm::lemma_inode_height(i, j);
    }
}

/// An entry has the value, its index and its position. Its nodes have the hash values of the trees with
/// the values below them, and lead to the positions of their left branches.
pub proof fn lemma_entry_of(log: Log, i: nat)
    requires
        log.valid(),
        1 <= i <= log.len(),
    ensures
        ({
            let e = tree::entry_of(log, i);
            &&& e.enode.payload == log.values[i - 1]
            &&& e.enode.node.address.i == i
            &&& e.enode.node.address.j == 0
            &&& e.enode.node.address.position == log.positions[i - 1]
            &&& e.enode.node.hash == tree::root_hash(seq![log.values[i - 1]])
            &&& e.inodes.len() == algorithm::inodes_of(i).len()
        }),
        forall|k: int|
            #![trigger tree::entry_of(log, i).inodes[k]]
            0 <= k < algorithm::inodes_of(i).len() ==> {
                let inode = tree::entry_of(log, i).inodes[k];
                let id = algorithm::inodes_of(i)[k];
                let first = before_first(i, id.node.j as nat);
                &&& inode.node.address.i == i
                &&& inode.node.address.j == id.node.j
                &&& inode.node.address.position == log.positions[i - 1]
                &&& inode.node.hash == tree::root_hash(
                    log.values.subrange(first as int, i as int),
                )
                &&& inode.left.i == id.left.i
                &&& inode.left.j == id.left.j
                &&& inode.left.position == log.positions[id.left.i - 1]
                &&& inode.right.i == i
                &&& inode.right.j == id.right.j
                &&& inode.right.position == log.positions[i - 1]
            },
{
    lemma_node_of(log, i, 0);
    assert(tree::root_hash(seq![log.values[i - 1]]) == hash::hash_of(log.values[i - 1]));
    let levels = algorithm::levels(i, 64);
    assert forall|k: int|
        #![trigger tree::entry_of(log, i).inodes[k]]
        0 <= k < algorithm::inodes_of(i).len() implies {
        let inode = tree::entry_of(log, i).inodes[k];
        let id = algorithm::inodes_of(i)[k];
        let first = before_first(i, id.node.j as nat);
        &&& inode.node.address.i == i
        &&& inode.node.address.j == id.node.j
        &&& inode.node.address.position == log.positions[i - 1]
        &&& inode.node.hash == tree::root_hash(log.values.subrange(first as int, i as int))
        &&& inode.left.i == id.left.i
        &&& inode.left.j == id.left.j
        &&& inode.left.position == log.positions[id.left.i - 1]
        &&& inode.right.i == i
        &&& inode.right.j == id.right.j
        &&& inode.right.position == log.positions[i - 1]
    } by {
        let j = levels[k];
        algorithm::lemma_level(i, 64, k);
        algorithm::lemma_branches(i, j);
        assert(algorithm::inodes_of(i)[k] == algorithm::inode_id(i, j));
        assert(tree::entry_of(log, i).inodes[k] == tree::inode_of(log, i, j));
        lemma_node_of(log, i, j);
    }
}

/// A tree that holds what was appended has the head of a storage and, at the position of each entry, an
/// entry with the value.
pub proof fn lemma_holds(contents: Seq<u8>, last: Option<EntryView>, log: Log, i: nat)
    requires
        tree::holds(contents, last, log),
        1 <= i <= log.len(),
    ensures
        has_head(contents),
        log.values.len() == log.positions.len(),
        log.values[i - 1].len() <= 0x7FFF_FFFF,
        last == Some(tree::entry_of(log, log.len())),
        ({
            let at = log.positions[i - 1] as int;
            let value = log.values[i - 1];
            let n = contents[at + 8] as int;
            let end = at + 45 + 50 * n + value.len();
            &&& 4 <= at
            &&& end + 12 <= contents.len()
            &&& number(contents, at, 8) == i
            &&& n == algorithm::inodes_of(i).len()
            &&& number(contents, at + 9 + 50 * n, 4) == value.len()
            &&& contents.subrange(at + 13 + 50 * n, at + 13 + 50 * n + value.len()) == value
            &&& contents.subrange(end - 32, end) == tree::root_hash(seq![value])
            &&& number(contents, end, 4) == end - at
            &&& number(contents, end + 4, 8) == hash::highway_hash64(
                checksum_key(),
                contents.subrange(at, end + 4),
            )
        }),
{
    let e = tree::entry_of(log, i);
    let at = log.positions[i - 1] as nat;
    lemma_constants();
    assert(contents.take(4)[0] == contents[0]);
    assert(contents.take(4)[1] == contents[1]);
    assert(contents.take(4)[2] == contents[2]);
    assert(contents.take(4)[3] == contents[3]);
    tree::lemma_entry_of(log, i);
    lemma_entry_of(log, i);
    assert(roundtrip::holds_entry(contents, at, e));
    lemma_held(contents, at as int, entry::encode_entry(e), e);
}

/// The parts of an entry are as far behind `at` as they are in its bytes.
pub proof fn lemma_held(contents: Seq<u8>, at: int, bytes: Seq<u8>, e: EntryView)
    requires
        entry::is_writable(e),
        bytes == entry::encode_entry(e),
        0 <= at,
        at + bytes.len() <= contents.len(),
        contents.subrange(at, at + bytes.len()) == bytes,
    ensures
        ({
            let n = e.inodes.len() as int;
            let size = e.enode.payload.len() as int;
            let end = at + 45 + 50 * n + size;
            &&& end + 12 <= contents.len()
            &&& number(contents, at, 8) == e.enode.node.address.i
            &&& contents[at + 8] == n
            &&& number(contents, at + 9 + 50 * n, 4) == size
            &&& contents.subrange(at + 13 + 50 * n, at + 13 + 50 * n + size) == e.enode.payload
            &&& contents.subrange(end - 32, end) == e.enode.node.hash
            &&& number(contents, end, 4) == end - at
            &&& number(contents, end + 4, 8) == hash::highway_hash64(
                checksum_key(),
                contents.subrange(at, end + 4),
            )
        }),
{
    let n = e.inodes.len() as int;
    let size = e.enode.payload.len() as int;
    let body = 45 + 50 * n + size;
    lemma_entry_layout(e);
    assert(contents[at + 8] == contents.subrange(at, at + bytes.len())[8]);
    lemma_shifted(contents, at, bytes, 0, 8);
    lemma_shifted(contents, at, bytes, 9 + 50 * n, 4);
    lemma_shifted(contents, at, bytes, 13 + 50 * n, size);
    lemma_shifted(contents, at, bytes, body - 32, 32);
    lemma_shifted(contents, at, bytes, body, 4);
    lemma_shifted(contents, at, bytes, body + 4, 8);
    lemma_shifted(contents, at, bytes, 0, body + 4);
}

/// A part of bytes that are at `at`.
proof fn lemma_shifted(contents: Seq<u8>, at: int, bytes: Seq<u8>, from: int, length: int)
    requires
        0 <= at,
        at + bytes.len() <= contents.len(),
        contents.subrange(at, at + bytes.len()) == bytes,
        0 <= from,
        0 <= length,
        from + length <= bytes.len(),
    ensures
        contents.subrange(at + from, at + from + length) == bytes.subrange(from, from + length),
{
    assert(contents.subrange(at + from, at + from + length) =~= contents.subrange(
        at,
        at + bytes.len(),
    ).subrange(from, from + length));
}

/// The hash value that one over the last values up to the index `k` leads to when it is combined with
/// those in the list, from the last to the first. One with a lower index comes in front.
pub open spec fn climb(k: nat, hash: Seq<u8>, hashes: Seq<NodeHashView>) -> Seq<u8>
    decreases hashes.len(),
{
    if hashes.len() == 0 {
        hash
    } else {
        let below = climb(k, hash, hashes.drop_first());
        if hashes[0].i < k {
            hash::hash_of(hashes[0].hash + below)
        } else {
            hash::hash_of(below + hashes[0].hash)
        }
    }
}

/// The hash values without the positions are those of all nodes, one for each, in the same order.
pub proof fn lemma_node_hashes(nodes: Seq<NodeView>)
    ensures
        mvht::node_hashes(nodes).len() == nodes.len(),
        forall|k: int|
            #![trigger mvht::node_hashes(nodes)[k]]
            0 <= k < nodes.len() ==> {
                &&& mvht::node_hashes(nodes)[k].i == nodes[k].address.i
                &&& mvht::node_hashes(nodes)[k].j == nodes[k].address.j
                &&& mvht::node_hashes(nodes)[k].hash == nodes[k].hash
            },
{
}

/// Combining with hash values is the same as combining with the nodes that they are from.
proof fn lemma_climb_nodes(k: nat, hash: Seq<u8>, nodes: Seq<NodeView>)
    ensures
        climb(k, hash, mvht::node_hashes(nodes)) == laws::climb(k, hash, nodes),
    decreases nodes.len(),
{
    if nodes.len() > 0 {
        lemma_climb_nodes(k, hash, nodes.drop_first());
        assert(mvht::node_hashes(nodes).drop_first() =~= mvht::node_hashes(nodes.drop_first()));
    }
}

/// The nodes that branch off on the way to an entry are nodes of the tree.
proof fn lemma_path_node(log: Log, i: nat, j: nat, k: nat, m: int) -> (id: (nat, nat))
    requires
        log.valid(),
        1 <= i <= log.len(),
        algorithm::is_node(i, j),
        algorithm::first_leaf(i, j) <= k <= i,
        0 <= m < laws::path(log, i, j, k).len(),
    ensures
        1 <= id.0 <= i,
        algorithm::is_node(id.0, id.1),
        laws::path(log, i, j, k)[m] == tree::node_of(log, id.0, id.1),
    decreases j,
{
    let split = algorithm::split(i, j);
    let below = algorithm::below(i, j);
    algorithm::lemma_branches(i, j);
    if k <= split {
        if m == 0 {
            (i, below)
        } else {
            lemma_path_node(log, split, (j - 1) as nat, k, m - 1)
        }
    } else {
        if m == 0 {
            (split, (j - 1) as nat)
        } else {
            lemma_path_node(log, i, below, k, m - 1)
        }
    }
}

/// Every hash value that comes with values is that of the node whose index and height come with it.
pub proof fn lemma_hashes_are_true(log: Log, i: Index, j: u8, m: int)
    requires
        log.valid(),
        laws::values_of(log, i, j) is Some,
        0 <= m < laws::values_of(log, i, j)->0.hashes.len(),
    ensures
        ({
            let hash = laws::values_of(log, i, j)->0.hashes[m];
            let first = before_first(hash.i as nat, hash.j as nat);
            &&& 1 <= hash.i <= log.len()
            &&& algorithm::is_node(hash.i as nat, hash.j as nat)
            &&& hash.hash == tree::root_hash(log.values.subrange(first as int, hash.i as int))
        }),
{
    let n = log.len();
    let top = algorithm::root_level(n);
    algorithm::lemma_root_level(n);
    lemma_node_hashes(laws::path(log, n, top, i as nat));
    let (a, b) = lemma_path_node(log, n, top, i as nat, m);
    lemma_node_of(log, a, b);
}

/// The values below a node are all there, each with its index, from the first one below the node to the
/// one with the index of the node. The hash values that come with them prove it against the root: one
/// over the last values up to that index, combined with all of them, gives that of the whole tree.
pub proof fn lemma_values_are_proved(log: Log, i: Index, j: u8)
    requires
        log.valid(),
    ensures
        laws::values_of(log, i, j) is Some <==> 1 <= i <= log.len() && (i == 1 ==> j == 0),
        laws::values_of(log, i, j) matches Some(set) ==> {
            let first = before_first(i as nat, j as nat);
            &&& first < i
            &&& set.values.len() == i - first
            &&& forall|x: int|
                #![trigger set.values[x]]
                0 <= x < set.values.len() ==> set.values[x].i == first + 1 + x
                    && set.values[x].value == log.values[first + x]
            &&& exists|width: int|
                1 <= width <= i && #[trigger] climb(
                    i as nat,
                    tree::root_hash(log.values.subrange(i - width, i as int)),
                    set.hashes,
                ) == tree::root_hash(log.values)
        },
{
    if let Some(set) = laws::values_of(log, i, j) {
        let n = log.len();
        let top = algorithm::root_level(n);
        let k = i as nat;
        let height = laws::reached(n, top, k);
        algorithm::lemma_floor_step((i - 1) as nat, j as nat);
        laws::lemma_membership(log, k);
        lemma_climb_nodes(
            k,
            tree::node_hash(log.values, k, height),
            laws::path(log, n, top, k),
        );
        tree::lemma_node_hash_is_root(log.values, k, height);
        let width = k - (algorithm::first_leaf(k, height) - 1);
        assert(climb(
            k,
            tree::root_hash(log.values.subrange(i - width, i as int)),
            set.hashes,
        ) == tree::root_hash(log.values));
    }
}

/// The root of every generation: none for an index that is not in the tree, the first leaf with its value
/// for the first, and otherwise an inner node of the entry. Its hash value is that of the tree with the
/// values up to that index. The nodes that come with it are those that come with values.
pub proof fn lemma_generation_root(log: Log, i: Index)
    requires
        log.valid(),
    ensures
        match laws::root_in_generation(log, i) {
            STRootView::Empty => !(1 <= i <= log.len()),
            STRootView::ENode(enode, branches) => {
                &&& i == 1
                &&& 1 <= log.len()
                &&& enode.payload == log.values[0]
                &&& enode.node.address.i == 1
                &&& enode.node.address.j == 0
                &&& enode.node.address.position == log.positions[0]
                &&& enode.node.hash == tree::root_hash(log.values.take(1))
                &&& laws::values_of(log, i, 0)->0.hashes == mvht::node_hashes(branches)
            },
            STRootView::INode(inode, branches) => {
                let j = inode.node.address.j as nat;
                &&& 2 <= i <= log.len()
                &&& inode.node.address.i == i
                &&& inode.node.address.position == log.positions[i - 1]
                &&& j >= 1
                &&& power2::pow2((j - 1) as nat) < i <= power2::pow2(j)
                &&& inode.node.hash == tree::root_hash(log.values.take(i as int))
                &&& laws::values_of(log, i, 0)->0.hashes == mvht::node_hashes(branches)
                &&& i == log.len() ==> branches.len() == 0
            },
        },
{
    if 1 <= i <= log.len() {
        laws::lemma_root(log, i as nat);
        algorithm::lemma_root_level(i as nat);
        if i == 1 {
            lemma_node_of(log, 1, 0);
            power2::lemma2_to64();
            assert(log.values.take(1)[0] == log.values[0]);
        }
    }
}

/// The root of a tree is the highest node of its last entry.
pub proof fn lemma_root_of(e: EntryView)
    ensures
        mvht::root_of(None) == RootView::Empty,
        e.inodes.len() == 0 ==> mvht::root_of(Some(e)) == RootView::ENode(e.enode),
        e.inodes.len() > 0 ==> mvht::root_of(Some(e)) == RootView::INode(
            e.inodes[e.inodes.len() - 1],
        ),
        mvht::size_of(None) == 0,
        mvht::level_of(None) == 0,
        e.inodes.len() == 0 ==> mvht::size_of(Some(e)) == e.enode.node.address.i && mvht::level_of(
            Some(e),
        ) == e.enode.node.address.j,
        e.inodes.len() > 0 ==> mvht::size_of(Some(e)) == e.inodes.last().node.address.i
            && mvht::level_of(Some(e)) == e.inodes.last().node.address.j,
{
}

/// Nothing that is read or written is left out of what describes it.
pub proof fn lemma_views(e: Entry, set: DataSet, k: int)
    ensures
        e@.enode.payload == e.enode.payload@,
        e@.enode.node.address == e.enode.node.address,
        e@.enode.node.hash == e.enode.node.hash.value@,
        e@.inodes.len() == e.inodes@.len(),
        0 <= k < e.inodes@.len() ==> {
            &&& e@.inodes[k].node.address == e.inodes@[k].node.address
            &&& e@.inodes[k].node.hash == e.inodes@[k].node.hash.value@
            &&& e@.inodes[k].left == e.inodes@[k].left
            &&& e@.inodes[k].right == e.inodes@[k].right
        },
        set@.values.len() == set.values@.len(),
        0 <= k < set.values@.len() ==> set@.values[k].i == set.values@[k].i && set@.values[k].value
            == set.values@[k].value@,
        set@.hashes.len() == set.hashes@.len(),
        0 <= k < set.hashes@.len() ==> {
            &&& set@.hashes[k].i == set.hashes@[k].i
            &&& set@.hashes[k].j == set.hashes@[k].j
            &&& set@.hashes[k].hash == set.hashes@[k].hash.value@
        },
{
}

/// Nothing is left out of what describes lists of nodes.
pub proof fn lemma_list_views(nodes: Seq<Node>, inodes: Seq<INode>, k: int)
    ensures
        model::node_views(nodes).len() == nodes.len(),
        0 <= k < nodes.len() ==> model::node_views(nodes)[k].address == nodes[k].address
            && model::node_views(nodes)[k].hash == nodes[k].hash.value@,
        model::inode_views(inodes).len() == inodes.len(),
        0 <= k < inodes.len() ==> model::inode_views(inodes)[k] == inodes[k]@,
{
}

/// An entry takes few bytes more than its value.
pub proof fn lemma_entry_size(i: nat, length: nat)
    ensures
        tree::entry_size(i, length) == 57 + 50 * algorithm::inodes_of(i).len() + length,
        57 + length <= tree::entry_size(i, length) <= 57 + 50 * 64 + length,
{
    algorithm::lemma_levels(i, 64);
    lemma_inode_bytes(algorithm::levels(i, 64).len());
}

/// An inner node is read as one of the entry at its position, and a leaf as the one there.
pub proof fn lemma_load(contents: Seq<u8>, address: Address)
    ensures
        match entry::parse_inodes(contents, address.position as nat, address.position) {
            Err(detail) => search::load_inode(contents, address) == Err::<INodeView, DetailView>(
                detail,
            ),
            Ok(inodes) => match search::load_inode(contents, address) {
                Ok(inode) => inodes.contains(inode) && inode.node.address.j == address.j,
                Err(detail) => {
                    &&& detail == (DetailView::InternalStateInconsistency {
                        message: search::no_inode_message(address),
                    })
                    &&& forall|k: int|
                        0 <= k < inodes.len() ==> (#[trigger] inodes[k]).node.address.j != address.j
                },
            },
        },
        address.j > 0 ==> match search::load_inode(contents, address) {
            Ok(inode) => search::load_node(contents, address) == Ok::<NodeView, DetailView>(
                inode.node,
            ),
            Err(detail) => search::load_node(contents, address) == Err::<NodeView, DetailView>(
                detail,
            ),
        },
        address.j == 0 ==> match entry::parse_entry(
            contents,
            address.position as nat,
            address.position,
            address.i,
        ) {
            Ok(e) => search::load_node(contents, address) == Ok::<NodeView, DetailView>(
                e.enode.node,
            ),
            Err(detail) => search::load_node(contents, address) == Err::<NodeView, DetailView>(
                detail,
            ),
        },
{
    if let Ok(inodes) = entry::parse_inodes(contents, address.position as nat, address.position) {
        lemma_first_of_height(inodes, address.j);
    }
}

/// One step of a search. It goes to the left branch where that reaches to the index, and otherwise to
/// the right one. It ends there, or goes on below, and an error on the way is the error of the search.
/// With branches, the node of the other branch comes first in the list.
pub proof fn lemma_search_step(
    contents: Seq<u8>,
    root: Address,
    mover: INodeView,
    i: Index,
    with_branch: bool,
    hops: nat,
)
    requires
        hops > 0,
        i <= mover.left.i || i <= mover.node.address.i,
    ensures
        ({
            let (next, branch) = if i <= mover.left.i {
                (mover.left, mover.right)
            } else {
                (mover.right, mover.left)
            };
            let found = search::descend(contents, root, mover, i, with_branch, hops);
            let below = search::load_inode(contents, next);
            let other = search::load_node(contents, branch);
            if next.i == i && !with_branch {
                found == search::Found::Ok(Some((next.position, Seq::empty())))
            } else if next.i == i {
                match other {
                    Ok(node) => found == search::Found::Ok(Some((next.position, seq![node]))),
                    Err(detail) => found == search::Found::Err(detail),
                }
            } else if next.j == 0 {
                found == search::Found::Ok(None)
            } else if below is Err {
                found == search::Found::Err(below->Err_0)
            } else if with_branch && other is Err {
                found == search::Found::Err(other->Err_0)
            } else {
                let rest = search::descend(
                    contents,
                    root,
                    below->Ok_0,
                    i,
                    with_branch,
                    (hops - 1) as nat,
                );
                match rest {
                    Ok(Some((position, branches))) => found == search::Found::Ok(
                        Some(
                            (
                                position,
                                if with_branch {
                                    seq![other->Ok_0] + branches
                                } else {
                                    branches
                                },
                            ),
                        ),
                    ),
                    _ => found == rest,
                }
            }
        }),
{
    let (next, branch) = if i <= mover.left.i {
        (mover.left, mover.right)
    } else {
        (mover.right, mover.left)
    };
    if next.i != i && next.j != 0 {
        if let Ok(below) = search::load_inode(contents, next) {
            if let Ok(Some((_, branches))) = search::descend(
                contents,
                root,
                below,
                i,
                with_branch,
                (hops - 1) as nat,
            ) {
                assert(Seq::<NodeView>::empty() + branches =~= branches);
            }
        }
    }
}

/// A search in a tree starts at its root. It has 64 steps.
pub proof fn lemma_search_start(
    contents: Seq<u8>,
    last: Option<EntryView>,
    i: Index,
    with_branch: bool,
)
    ensures
        match mvht::root_of(last) {
            RootView::Empty => mvht::locate(contents, last, i, with_branch) == search::Found::Ok(
                None,
            ),
            RootView::ENode(root) => mvht::locate(contents, last, i, with_branch)
                == search::Found::Ok(
                if root.node.address.i == i {
                    Some((root.node.address.position, Seq::empty()))
                } else {
                    None
                },
            ),
            RootView::INode(root) => root.node.address.i != i && i != 0 ==> mvht::locate(
                contents,
                last,
                i,
                with_branch,
            ) == search::descend(contents, root.node.address, root, i, with_branch, 64),
        },
{
}

/// What is read of a node and of a value is what the entry that was found says, and an error on the way
/// is the error of the whole.
pub proof fn lemma_read_of_found(contents: Seq<u8>, last: Option<EntryView>, i: Index, j: u8)
    ensures
        match mvht::locate(contents, last, i, false) {
            Err(detail) => {
                &&& mvht::node_at(contents, last, i, j) == Err::<Option<NodeView>, DetailView>(
                    detail,
                )
                &&& mvht::value_at(contents, last, i) == Err::<Option<Seq<u8>>, DetailView>(detail)
            },
            Ok(None) => {
                &&& mvht::node_at(contents, last, i, j) == Ok::<Option<NodeView>, DetailView>(None)
                &&& mvht::value_at(contents, last, i) == Ok::<Option<Seq<u8>>, DetailView>(None)
            },
            Ok(Some((position, _))) => {
                &&& match entry::parse_entry(contents, position as nat, position, i) {
                    Err(detail) => {
                        &&& mvht::node_at(contents, last, i, 0) == Err::<
                            Option<NodeView>,
                            DetailView,
                        >(detail)
                        &&& mvht::value_at(contents, last, i) == Err::<
                            Option<Seq<u8>>,
                            DetailView,
                        >(detail)
                    },
                    Ok(e) => {
                        &&& mvht::node_at(contents, last, i, 0) == Ok::<
                            Option<NodeView>,
                            DetailView,
                        >(Some(e.enode.node))
                        &&& i != 0 ==> mvht::value_at(contents, last, i) == Ok::<
                            Option<Seq<u8>>,
                            DetailView,
                        >(Some(e.enode.payload))
                    },
                }
                &&& j > 0 ==> match entry::parse_inodes(contents, position as nat, position) {
                    Err(detail) => mvht::node_at(contents, last, i, j) == Err::<
                        Option<NodeView>,
                        DetailView,
                    >(detail),
                    Ok(inodes) => match mvht::node_at(contents, last, i, j) {
                        Ok(Some(node)) => node.address.j == j && exists|k: int|
                            0 <= k < inodes.len() && (#[trigger] inodes[k]).node == node,
                        Ok(None) => forall|k: int|
                            0 <= k < inodes.len() ==> (#[trigger] inodes[k]).node.address.j != j,
                        Err(_) => false,
                    },
                }
            },
        },
{
    if let Ok(Some((position, _))) = mvht::locate(contents, last, i, false) {
        lemma_entry_read(contents, position as nat, position, i);
        if let Ok(inodes) = entry::parse_inodes(contents, position as nat, position) {
            lemma_first_of_height(inodes, j);
        }
    }
}

/// The root of a generation is what the entry that was found says.
pub proof fn lemma_generation_of_found(contents: Seq<u8>, last: Option<EntryView>, i: Index)
    ensures
        match mvht::root_of(last) {
            RootView::Empty => mvht::generation_root(contents, last, i) == Ok::<
                STRootView,
                DetailView,
            >(STRootView::Empty),
            RootView::ENode(root) => mvht::generation_root(contents, last, i) == Ok::<
                STRootView,
                DetailView,
            >(
                if root.node.address.i == i {
                    STRootView::ENode(root, Seq::empty())
                } else {
                    STRootView::Empty
                },
            ),
            RootView::INode(root) => if root.node.address.i == i {
                mvht::generation_root(contents, last, i) == Ok::<STRootView, DetailView>(
                    STRootView::INode(root, Seq::empty()),
                )
            } else {
                match mvht::locate(contents, last, i, true) {
                    Err(detail) => mvht::generation_root(contents, last, i) == Err::<
                        STRootView,
                        DetailView,
                    >(detail),
                    Ok(None) => mvht::generation_root(contents, last, i) == Ok::<
                        STRootView,
                        DetailView,
                    >(STRootView::Empty),
                    Ok(Some((position, branches))) => {
                        let leaf = entry::parse_entry(contents, position as nat, position, 1);
                        let inodes = entry::parse_inodes(contents, position as nat, position);
                        mvht::generation_root(contents, last, i) == if i == 1 && leaf is Err {
                            Err::<STRootView, DetailView>(leaf->Err_0)
                        } else if i == 1 {
                            Ok::<STRootView, DetailView>(
                                STRootView::ENode(leaf->Ok_0.enode, branches),
                            )
                        } else if inodes is Err {
                            Err::<STRootView, DetailView>(inodes->Err_0)
                        } else if inodes->Ok_0.len() == 0 {
                            Ok::<STRootView, DetailView>(STRootView::Empty)
                        } else {
                            Ok::<STRootView, DetailView>(
                                STRootView::INode(
                                    inodes->Ok_0[inodes->Ok_0.len() - 1],
                                    branches,
                                ),
                            )
                        }
                    },
                }
            },
        },
{
}

/// The inner nodes of a new entry are made from what is read of their left branches. One that cannot be
/// read, or is missing, is an error. Otherwise the hash value of each is that of its left branch followed
/// by that of the node before it, or of the leaf.
pub proof fn lemma_new_inode(
    contents: Seq<u8>,
    last: Option<EntryView>,
    position: u64,
    leaf_hash: Seq<u8>,
    ids: Seq<algorithm::INodeId>,
)
    requires
        ids.len() > 0,
    ensures
        ({
            let id = ids.last();
            let made = mvht::new_inodes(contents, last, position, leaf_hash, ids);
            let left = mvht::node_at(contents, last, id.left.i, id.left.j);
            match mvht::new_inodes(contents, last, position, leaf_hash, ids.drop_last()) {
                Err(detail) => made == Err::<Seq<INodeView>, DetailView>(detail),
                Ok(before) => match left {
                    Err(detail) => made == Err::<Seq<INodeView>, DetailView>(detail),
                    Ok(None) => made == Err::<Seq<INodeView>, DetailView>(
                        DetailView::InternalStateInconsistency {
                            message: mvht::missing_message(id.left),
                        },
                    ),
                    Ok(Some(node)) => {
                        let right = if before.len() == 0 {
                            leaf_hash
                        } else {
                            before[before.len() - 1].node.hash
                        };
                        &&& made is Ok
                        &&& made->Ok_0.len() == before.len() + 1
                        &&& made->Ok_0.drop_last() == before
                        &&& made->Ok_0.last().node.address == Address {
                            i: id.node.i,
                            j: id.node.j,
                            position,
                        }
                        &&& made->Ok_0.last().node.hash == hash::hash_of(node.hash + right)
                        &&& made->Ok_0.last().left == node.address
                        &&& made->Ok_0.last().right == Address {
                            i: id.right.i,
                            j: id.right.j,
                            position,
                        }
                    },
                },
            }
        }),
        mvht::new_inodes(contents, last, position, leaf_hash, Seq::empty()) == Ok::<
            Seq<INodeView>,
            DetailView,
        >(Seq::empty()),
{
    if let Ok(before) = mvht::new_inodes(contents, last, position, leaf_hash, ids.drop_last()) {
        if let Ok(made) = mvht::new_inodes(contents, last, position, leaf_hash, ids) {
            assert(made.drop_last() =~= before);
        }
    }
}

/// The entry of a new value has the next index, the end of the contents as its position, the value, and
/// the digest of the value. It cannot be made only where one of its inner nodes cannot.
pub proof fn lemma_new_entry(contents: Seq<u8>, last: Option<EntryView>, value: Seq<u8>)
    ensures
        ({
            let i = (mvht::size_of(last) + 1) as u64;
            let position = contents.len() as u64;
            let inodes = mvht::new_inodes(
                contents,
                last,
                position,
                hash::hash_of(value),
                algorithm::inodes_of(i as nat),
            );
            match mvht::new_entry(contents, last, value) {
                Err(detail) => inodes == Err::<Seq<INodeView>, DetailView>(detail),
                Ok(e) => {
                    &&& inodes == Ok::<Seq<INodeView>, DetailView>(e.inodes)
                    &&& e.enode.node.address == Address { i, j: 0, position }
                    &&& e.enode.node.hash == hash::hash_of(value)
                    &&& e.enode.payload == value
                },
            }
        }),
{
}

/// What an append leaves, whatever the storage holds. Where it succeeds, the bytes of the new entry are
/// behind the contents. Where the entry cannot be made, nothing is written.
pub proof fn lemma_append_outcome<S: Storage>(
    before: MVHT<S>,
    after: MVHT<S>,
    value: Seq<u8>,
    result: Result<(Index, Seq<u8>), DetailView>,
)
    requires
        mvht::appended(before, after, value, result),
    ensures
        value.len() > 0x7FFF_FFFF ==> result == Err::<(Index, Seq<u8>), DetailView>(
            DetailView::TooLargePayload { size: value.len() as usize },
        ) && after.contents() == before.contents() && after.last() == before.last(),
        result is Err ==> after.last() == before.last(),
        result matches Ok((i, hash)) ==> {
            let made = mvht::new_entry(before.contents(), before.last(), value);
            &&& made is Ok
            &&& i == mvht::size_of(before.last()) + 1
            &&& after.last() == Some(made->Ok_0)
            &&& after.contents() == before.contents() + entry::encode_entry(made->Ok_0)
            &&& hash == if made->Ok_0.inodes.len() == 0 {
                made->Ok_0.enode.node.hash
            } else {
                made->Ok_0.inodes.last().node.hash
            }
        },
        value.len() <= 0x7FFF_FFFF ==> (mvht::new_entry(
            before.contents(),
            before.last(),
            value,
        ) matches Err(expected) ==> {
            &&& after.contents() == before.contents()
            &&& result matches Err(detail) && (detail == expected || !before.faultless()
                && detail.is_fault())
        }),
        value.len() <= 0x7FFF_FFFF && before.faultless() && mvht::new_entry(
            before.contents(),
            before.last(),
            value,
        ) is Ok && before.contents().len() + entry::encode_entry(
            mvht::new_entry(before.contents(), before.last(), value)->Ok_0,
        ).len() <= before.capacity() ==> result is Ok,
{
    lemma_constants();
}

/// The values below a node of a tree, whatever the storage holds: they are read one after the other in
/// the tree of their generation, and an error on the way is the error of the whole.
pub proof fn lemma_value_steps(contents: Seq<u8>, root: INodeView, i: nat, count: nat)
    requires
        count > 0,
    ensures
        mvht::value_run(contents, root, i, 0) == mvht::Values::Ok(Some(Seq::empty())),
        match search::search(contents, root, i as u64, false) {
            Err(detail) => mvht::value_run(contents, root, i, count) == mvht::Values::Err(detail),
            Ok(None) => mvht::value_run(contents, root, i, count) == mvht::Values::Ok(None),
            Ok(Some((position, _))) => match entry::parse_entry(
                contents,
                position as nat,
                position,
                i as u64,
            ) {
                Err(detail) => mvht::value_run(contents, root, i, count) == mvht::Values::Err(
                    detail,
                ),
                Ok(e) => match mvht::value_run(contents, root, i + 1, (count - 1) as nat) {
                    Ok(Some(rest)) => {
                        let run = mvht::value_run(contents, root, i, count);
                        &&& run matches Ok(Some(values))
                        &&& values.len() == rest.len() + 1
                        &&& values.drop_first() == rest
                        &&& values[0].i == i as u64
                        &&& values[0].value == e.enode.payload
                    },
                    rest => mvht::value_run(contents, root, i, count) == rest,
                },
            },
        },
{
    if let Ok(Some(values)) = mvht::value_run(contents, root, i, count) {
        if let Ok(Some(rest)) = mvht::value_run(contents, root, i + 1, (count - 1) as nat) {
            assert(values.drop_first() =~= rest);
        }
    }
}

/// The values below a node come with the hash values of all nodes that came with the root of their
/// generation.
pub proof fn lemma_values_of_generation(
    contents: Seq<u8>,
    last: Option<EntryView>,
    i: Index,
    j: u8,
)
    requires
        i > 0,
    ensures
        match mvht::generation_root(contents, last, i) {
            Err(detail) => mvht::values_below(contents, last, i, j) == Err::<
                Option<DataSetView>,
                DetailView,
            >(detail),
            Ok(STRootView::Empty) => mvht::values_below(contents, last, i, j) == Ok::<
                Option<DataSetView>,
                DetailView,
            >(None),
            Ok(STRootView::ENode(enode, branches)) => match mvht::values_below(
                contents,
                last,
                i,
                j,
            ) {
                Ok(Some(set)) => {
                    &&& enode.node.address.i == i
                    &&& j == 0
                    &&& set.values.len() == 1
                    &&& set.values[0].i == i
                    &&& set.values[0].value == enode.payload
                    &&& set.hashes == mvht::node_hashes(branches)
                },
                Ok(None) => enode.node.address.i != i || j != 0,
                Err(_) => false,
            },
            Ok(STRootView::INode(root, branches)) => {
                let first = before_first(i as nat, j as nat) + 1;
                match mvht::value_run(contents, root, first, (i - first + 1) as nat) {
                    Ok(Some(values)) => mvht::values_below(contents, last, i, j) == Ok::<
                        Option<DataSetView>,
                        DetailView,
                    >(Some(DataSetView { values, hashes: mvht::node_hashes(branches) })),
                    Ok(None) => mvht::values_below(contents, last, i, j) == Ok::<
                        Option<DataSetView>,
                        DetailView,
                    >(None),
                    Err(detail) => mvht::values_below(contents, last, i, j) == Err::<
                        Option<DataSetView>,
                        DetailView,
                    >(detail),
                }
            },
        },
        mvht::values_below(contents, last, 0, j) == Ok::<Option<DataSetView>, DetailView>(None),
{
}

/// Two checksums are accepted where they are equal. Otherwise the error tells both, and where.
pub proof fn lemma_checked(at: u64, offset: u32, expected: u64, actual: u64)
    requires
        offset + 12 <= u32::MAX,
    ensures
        expected == actual ==> entry::checked(at, offset, expected, actual) == Ok::<(), DetailView>(
            (),
        ),
        expected != actual ==> entry::checked(at, offset, expected, actual) == Err::<
            (),
            DetailView,
        >(
            DetailView::ChecksumVerificationFailed {
                at,
                length: (offset + 12) as u32,
                expected,
                actual,
            },
        ),
{
}

/// What four bytes at the head of a storage are accepted or refused for.
pub proof fn lemma_head(head: Seq<u8>)
    requires
        head.len() == 4,
    ensures
        mvht::header_result(head) == if head[0] != 0x01 || head[1] != 0xF3 || head[2] != 0x33 {
            Err::<(), DetailView>(
                DetailView::FileIsNotContentsOfMVHTree { message: "bad magic number"@ },
            )
        } else if head[3] != 0x00 {
            Err::<(), DetailView>(
                DetailView::IncompatibleVersion((head[3] / 16) as u8, (head[3] % 16) as u8),
            )
        } else {
            Ok::<(), DetailView>(())
        },
{
    lemma_constants();
    lemma_version(head[3]);
    if head[0] == 0x01 && head[1] == 0xF3 && head[2] == 0x33 {
        assert(head.take(3) =~= mvht::STORAGE_IDENTIFIER@);
    } else if head.take(3) == mvht::STORAGE_IDENTIFIER@ {
        assert(head.take(3)[0] == head[0]);
        assert(head.take(3)[1] == head[1]);
        assert(head.take(3)[2] == head[2]);
    }
}

/// A new inner node is the one that was asked for, with the left branch and the hash value it was given.
pub proof fn lemma_joined(id: algorithm::INodeId, position: u64, left: NodeView, hash: Seq<u8>)
    ensures
        mvht::joined(id, position, left, hash).node.address == (Address {
            i: id.node.i,
            j: id.node.j,
            position,
        }),
        mvht::joined(id, position, left, hash).node.hash == hash,
        mvht::joined(id, position, left, hash).left == left.address,
        mvht::joined(id, position, left, hash).right == (Address {
            i: id.right.i,
            j: id.right.j,
            position,
        }),
{
}

/// The highest node of an entry is the last of its inner nodes, or the leaf where it has none.
pub proof fn lemma_top_hash(leaf_hash: Seq<u8>, inodes: Seq<INodeView>)
    ensures
        inodes.len() == 0 ==> mvht::top_hash(leaf_hash, inodes) == leaf_hash,
        inodes.len() > 0 ==> mvht::top_hash(leaf_hash, inodes) == inodes[inodes.len()
            - 1].node.hash,
{
}

/// The bytes at a place are the bytes there.
pub proof fn lemma_bytes_at(contents: Seq<u8>, position: nat, length: nat)
    ensures
        length > 0 ==> storage::bytes_at(contents, position, length) == contents.subrange(
            position as int,
            (position + length) as int,
        ),
        storage::bytes_at(contents, position, 0) == Seq::<u8>::empty(),
{
}

/// A cursor stays on the same device.
pub proof fn lemma_same_device<R: Reader>(a: R, b: R)
    ensures
        storage::same_device(a, b) <==> a.writable() == b.writable() && a.faultless()
            == b.faultless() && a.capacity() == b.capacity(),
{
}

/// An error is described with everything that it tells.
pub proof fn lemma_detail_views(detail: Detail)
    ensures
        match detail {
            Detail::FileIsNotContentsOfMVHTree { message } => detail@ == (
            DetailView::FileIsNotContentsOfMVHTree { message: message@ }),
            Detail::IncompatibleVersion(major, minor) => detail@ == (
            DetailView::IncompatibleVersion(major, minor)),
            Detail::DamagedStorage(message) => detail@ == (DetailView::DamagedStorage(message@)),
            Detail::TooLargePayload { size } => detail@ == (DetailView::TooLargePayload { size }),
            Detail::IncorrectEntryHeadOffset { expected, actual } => detail@ == (
            DetailView::IncorrectEntryHeadOffset { expected, actual }),
            Detail::ChecksumVerificationFailed { at, length, expected, actual } => detail@ == (
            DetailView::ChecksumVerificationFailed { at, length, expected, actual }),
            Detail::IncorrectNodeBoundary { at } => detail@ == (
            DetailView::IncorrectNodeBoundary { at }),
            Detail::InternalStateInconsistency { message } => detail@ == (
            DetailView::InternalStateInconsistency { message: message@ }),
            Detail::Io(IoError::PermissionDenied) => detail@ == (
            DetailView::Io(IoErrorView::PermissionDenied)),
            Detail::Io(IoError::UnexpectedEof) => detail@ == (
            DetailView::Io(IoErrorView::UnexpectedEof)),
            Detail::Io(IoError::InvalidSeek) => detail@ == (
            DetailView::Io(IoErrorView::InvalidSeek)),
            Detail::Io(IoError::WriteZero) => detail@ == (DetailView::Io(IoErrorView::WriteZero)),
            Detail::Io(IoError::StorageFull) => detail@ == (
            DetailView::Io(IoErrorView::StorageFull)),
            Detail::Io(IoError::Device(message)) => detail@ == (
            DetailView::Io(IoErrorView::Device(message@))),
        },
{
}

/// A root is described with everything that it holds.
pub proof fn lemma_root_views(inode: INode, enode: ENode, branches: Vec<Node>)
    ensures
        inode@.node.address == inode.node.address,
        inode@.node.hash == inode.node.hash.value@,
        inode@.left == inode.left,
        inode@.right == inode.right,
        enode@.node.address == enode.node.address,
        enode@.node.hash == enode.node.hash.value@,
        enode@.payload == enode.payload@,
        Root::Empty@ == RootView::Empty,
        Root::INode(&inode)@ == RootView::INode(inode@),
        Root::ENode(&enode)@ == RootView::ENode(enode@),
        STRoot::Empty@ == STRootView::Empty,
        STRoot::INode(inode, branches)@ == STRootView::INode(
            inode@,
            model::node_views(branches@),
        ),
        STRoot::ENode(enode, branches)@ == STRootView::ENode(
            enode@,
            model::node_views(branches@),
        ),
{
}

/// An entry ends where its bytes do, and the first one starts behind the head.
pub proof fn lemma_end(log: Log, i: nat)
    requires
        1 <= i <= log.len(),
    ensures
        log.end(0) == 4,
        log.end(i) == log.positions[i - 1] + 57 + 50 * algorithm::inodes_of(i).len()
            + log.values[i - 1].len(),
{
    lemma_entry_size(i, log.values[i - 1].len());
}

} // verus!
