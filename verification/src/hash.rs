//! Hash values, and the hash functions that they can come from.
use crate::endian;
use crate::text;
use highway::{HighwayBuilder, HighwayHash, Key};
use sha2::{Digest, Sha224, Sha256, Sha512, Sha512Trunc224, Sha512Trunc256};
use vstd::prelude::*;

verus! {

/// A hash function that the nodes of a tree can be hashed with.
#[derive(Clone, Copy, Debug, PartialEq, Eq)]
pub enum HashAlgorithm {
    HighwayHash64,
    Sha224,
    Sha256,
    Sha512,
    Sha512Trunc224,
    Sha512Trunc256,
}

/// The hash function that this build of the library uses.
pub const HASH_ALGORITHM: HashAlgorithm = HashAlgorithm::Sha256;

/// The number of bytes of a hash value of [`HASH_ALGORITHM`].
pub const HASH_SIZE: usize = 32;

impl HashAlgorithm {
    /// The number of bytes of a hash value.
    pub open spec fn digest_size(self) -> nat {
        match self {
            HashAlgorithm::HighwayHash64 => 8,
            HashAlgorithm::Sha224 => 28,
            HashAlgorithm::Sha256 => 32,
            HashAlgorithm::Sha512 => 64,
            HashAlgorithm::Sha512Trunc224 => 28,
            HashAlgorithm::Sha512Trunc256 => 32,
        }
    }

    /// The hash value of `value`.
    pub open spec fn digest_of(self, value: Seq<u8>) -> Seq<u8> {
        match self {
            HashAlgorithm::HighwayHash64 => endian::le_bytes(
                highway_hash64(seq![0u64, 0u64, 0u64, 0u64], value) as nat,
                8,
            ),
            HashAlgorithm::Sha224 => sha224_digest(value),
            HashAlgorithm::Sha256 => sha256_digest(value),
            HashAlgorithm::Sha512 => sha512_digest(value),
            HashAlgorithm::Sha512Trunc224 => sha512_trunc224_digest(value),
            HashAlgorithm::Sha512Trunc256 => sha512_trunc256_digest(value),
        }
    }

    /// Computes the hash value of `value`.
    pub fn digest(self, value: &[u8]) -> (output: Vec<u8>)
        ensures
            output@ == self.digest_of(value@),
            output@.len() == self.digest_size(),
            self == HashAlgorithm::HighwayHash64 ==> output@.len() == 8 && endian::le_value(output@)
                == highway_hash64(seq![0u64, 0u64, 0u64, 0u64], value@),
            self == HashAlgorithm::Sha224 ==> output@ == sha224_digest(value@),
            self == HashAlgorithm::Sha256 ==> output@ == sha256_digest(value@),
            self == HashAlgorithm::Sha512 ==> output@ == sha512_digest(value@),
            self == HashAlgorithm::Sha512Trunc224 ==> output@ == sha512_trunc224_digest(value@),
            self == HashAlgorithm::Sha512Trunc256 ==> output@ == sha512_trunc256_digest(value@),
    {
        match self {
            HashAlgorithm::HighwayHash64 => {
                let hash: u64 = highway64(&[0u64, 0u64, 0u64, 0u64], value);
                proof {
                    endian::lemma_le_bytes_len(hash as nat, 8);
                    endian::lemma_le_limits();
                    endian::lemma_le_round_trip(hash as nat, 8);
                }
                assert([0u64, 0u64, 0u64, 0u64]@ =~= seq![0u64, 0u64, 0u64, 0u64]);
                endian::encode_u64(hash)
            },
            HashAlgorithm::Sha224 => sha224(value),
            HashAlgorithm::Sha256 => sha256(value),
            HashAlgorithm::Sha512 => sha512(value),
            HashAlgorithm::Sha512Trunc224 => sha512_trunc224(value),
            HashAlgorithm::Sha512Trunc256 => sha512_trunc256(value),
        }
    }
}

/// What `highway`'s 64-bit hash of `data` with `key` is.
pub uninterp spec fn highway_hash64(key: Seq<u64>, data: Seq<u8>) -> u64;

/// Calls `highway`'s `HighwayBuilder::new` with the key, `append` with the data and `finalize64`.
/// The result is a function of the key and the data, on every machine.
#[verifier::external_body]
pub(crate) fn highway64(key: &[u64; 4], data: &[u8]) -> (hash: u64)
    ensures
        hash == highway_hash64(key@, data@),
{
    let mut builder = HighwayBuilder::new(Key(*key));
    builder.append(data);
    builder.finalize64()
}

/// What `sha2`'s SHA-224 digest of `data` is.
pub uninterp spec fn sha224_digest(data: Seq<u8>) -> Seq<u8>;

/// Calls `sha2`'s `Sha224::digest`. The result is a function of the data and has 28 bytes.
#[verifier::external_body]
fn sha224(data: &[u8]) -> (output: Vec<u8>)
    ensures
        output@ == sha224_digest(data@),
        output@.len() == 28,
{
    Sha224::digest(data).to_vec()
}

/// What `sha2`'s SHA-256 digest of `data` is.
pub uninterp spec fn sha256_digest(data: Seq<u8>) -> Seq<u8>;

/// Calls `sha2`'s `Sha256::digest`. The result is a function of the data and has 32 bytes.
#[verifier::external_body]
fn sha256(data: &[u8]) -> (output: Vec<u8>)
    ensures
        output@ == sha256_digest(data@),
        output@.len() == 32,
{
    Sha256::digest(data).to_vec()
}

/// What `sha2`'s SHA-512 digest of `data` is.
pub uninterp spec fn sha512_digest(data: Seq<u8>) -> Seq<u8>;

/// Calls `sha2`'s `Sha512::digest`. The result is a function of the data and has 64 bytes.
#[verifier::external_body]
fn sha512(data: &[u8]) -> (output: Vec<u8>)
    ensures
        output@ == sha512_digest(data@),
        output@.len() == 64,
{
    Sha512::digest(data).to_vec()
}

/// What `sha2`'s SHA-512/224 digest of `data` is.
pub uninterp spec fn sha512_trunc224_digest(data: Seq<u8>) -> Seq<u8>;

/// Calls `sha2`'s `Sha512Trunc224::digest`. The result is a function of the data and has 28 bytes.
#[verifier::external_body]
fn sha512_trunc224(data: &[u8]) -> (output: Vec<u8>)
    ensures
        output@ == sha512_trunc224_digest(data@),
        output@.len() == 28,
{
    Sha512Trunc224::digest(data).to_vec()
}

/// What `sha2`'s SHA-512/256 digest of `data` is.
pub uninterp spec fn sha512_trunc256_digest(data: Seq<u8>) -> Seq<u8>;

/// Calls `sha2`'s `Sha512Trunc256::digest`. The result is a function of the data and has 32 bytes.
#[verifier::external_body]
fn sha512_trunc256(data: &[u8]) -> (output: Vec<u8>)
    ensures
        output@ == sha512_trunc256_digest(data@),
        output@.len() == 32,
{
    Sha512Trunc256::digest(data).to_vec()
}

/// A hash value.
#[derive(Clone, Copy, Debug, PartialEq, Eq)]
pub struct Hash {
    pub value: [u8; HASH_SIZE],
}

impl View for Hash {
    type V = Seq<u8>;

    open spec fn view(&self) -> Seq<u8> {
        self.value@
    }
}

/// The bytes of the hash value of `value`.
pub open spec fn hash_of(value: Seq<u8>) -> Seq<u8> {
    Seq::new(HASH_SIZE as nat, |k: int| HASH_ALGORITHM.digest_of(value)[k])
}

impl Hash {
    /// The hash value that consists of these bytes.
    pub fn new(hash: [u8; HASH_SIZE]) -> (result: Hash)
        ensures
            result.value == hash,
    {
        Hash { value: hash }
    }

    /// The hash value that consists of these bytes.
    pub fn from_slice(bytes: &[u8]) -> (result: Hash)
        requires
            bytes@.len() == HASH_SIZE,
        ensures
            result@ == bytes@,
    {
        let mut hash = [0u8; HASH_SIZE];
        let mut k: usize = 0;
        while k < HASH_SIZE
            invariant
                k <= HASH_SIZE,
                bytes@.len() == HASH_SIZE,
                hash@.take(k as int) == bytes@.take(k as int),
            decreases HASH_SIZE - k,
        {
            let ghost before = hash@;
            hash[k] = bytes[k];
            k = k + 1;
            assert(hash@.take(k as int) =~= before.take(k - 1).push(bytes@[k - 1]));
            assert(bytes@.take(k as int) =~= bytes@.take(k - 1).push(bytes@[k - 1]));
        }
        assert(hash@.take(k as int) == hash@);
        assert(bytes@.take(k as int) == bytes@);
        Hash::new(hash)
    }

    /// Hashes the bytes of `value`.
    pub fn hash(value: &[u8]) -> (result: Hash)
        ensures
            result@ == hash_of(value@),
            result@ == HASH_ALGORITHM.digest_of(value@),
            result@ == sha256_digest(value@),
    {
        let output = HASH_ALGORITHM.digest(value);
        assert(output@ =~= hash_of(value@));
        Hash::from_slice(output.as_slice())
    }

    /// Hashes the bytes of this hash value followed by those of the other.
    pub fn combine(&self, other: &Hash) -> (result: Hash)
        ensures
            result@ == hash_of(self@ + other@),
            result@ == sha256_digest(self@ + other@),
    {
        let mut value: Vec<u8> = Vec::with_capacity(HASH_SIZE * 2);
        value.extend_from_slice(self.value.as_slice());
        value.extend_from_slice(other.value.as_slice());
        assert(value@ =~= self@ + other@);
        Hash::hash(value.as_slice())
    }

    /// This hash value in hexadecimal notation.
    pub fn to_str(&self) -> (result: String)
        ensures
            result@ == text::hex_chars(self@),
    {
        text::hex(self.value.as_slice())
    }
}

} // verus!
