use highway::{HighwayBuilder, HighwayHash, Key};
use mvht::hash::{self, HashAlgorithm};
use mvht::text;
use mvht::HASH_SIZE;

#[test]
fn sha256_is_the_digest_in_use() {
    assert_eq!(
        "BA7816BF8F01CFEA414140DE5DAE2223B00361A396177A9CB410FF61F20015AD",
        hash::Hash::hash(b"abc").to_str()
    );
    assert_eq!(
        "E3B0C44298FC1C149AFBF4C8996FB92427AE41E4649B934CA495991B7852B855",
        hash::Hash::hash(b"").to_str()
    );
    assert_eq!(32, HASH_SIZE);
}

#[test]
fn all_sha2_digests() {
    let hex = |algorithm: HashAlgorithm| text::hex(&algorithm.digest(b"abc"));
    assert_eq!(
        "23097D223405D8228642A477BDA255B32AADBCE4BDA0B3F7E36C9DA7",
        hex(HashAlgorithm::Sha224)
    );
    assert_eq!(
        "BA7816BF8F01CFEA414140DE5DAE2223B00361A396177A9CB410FF61F20015AD",
        hex(HashAlgorithm::Sha256)
    );
    assert_eq!(
        "DDAF35A193617ABACC417349AE20413112E6FA4E89A97EA20A9EEEE64B55D39A\
         2192992A274FC1A836BA3C23A3FEEBBD454D4423643CE80E2A9AC94FA54CA49F",
        hex(HashAlgorithm::Sha512)
    );
    assert_eq!(
        "4634270F707B6A54DAAE7530460842E20E37ED265CEEE9A43E8924AA",
        hex(HashAlgorithm::Sha512Trunc224)
    );
    assert_eq!(
        "53048E2681941EF99B2E29B76B4C7DABE4C2D0C634FC6D46E0E2F13107E7AF23",
        hex(HashAlgorithm::Sha512Trunc256)
    );
}

#[test]
fn highway_digest_uses_the_default_key() {
    let data = b"hello, world";
    let expected = HighwayBuilder::new(Key([0, 0, 0, 0])).hash64(data);
    assert_eq!(expected, HighwayBuilder::default().hash64(data));
    assert_eq!(expected.to_le_bytes().to_vec(), HashAlgorithm::HighwayHash64.digest(data));
    assert_eq!(8, HashAlgorithm::HighwayHash64.digest(b"").len());
}

#[test]
fn combine_hashes_both_values_in_order() {
    let left = hash::Hash::hash(b"left");
    let right = hash::Hash::hash(b"right");
    let mut joined = left.value.to_vec();
    joined.extend_from_slice(&right.value);
    assert_eq!(hash::Hash::hash(&joined), left.combine(&right));
    assert_ne!(left.combine(&right), right.combine(&left));
}

#[test]
fn hash_from_bytes() {
    let mut value = [0u8; HASH_SIZE];
    value[0] = 0x0A;
    value[31] = 0xF0;
    let hash = hash::Hash::new(value);
    assert_eq!(value, hash.value);
    assert_eq!(hash, hash::Hash::from_slice(&value));
    assert_eq!(format!("0A{}F0", "00".repeat(30)), hash.to_str());
}

#[test]
fn numbers_as_text() {
    let mut s = String::new();
    text::push_decimal(&mut s, 0);
    s.push(' ');
    text::push_decimal(&mut s, 10);
    s.push(' ');
    text::push_decimal(&mut s, u64::MAX);
    assert_eq!("0 10 18446744073709551615", s);
    let mut d = String::new();
    text::push_difference(&mut d, 5, 12);
    d.push(' ');
    text::push_difference(&mut d, 12, 5);
    assert_eq!("-7 7", d);
    assert_eq!("", text::hex(&[]));
    assert_eq!("00FF1B", text::hex(&[0x00, 0xFF, 0x1B]));
}
