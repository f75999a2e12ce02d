use lunaria::bytes::DecodeError;
use lunaria::hash::{digest, BlockHasher};

fn hash_of(bytes: [u8; 32]) -> lunaria::hash::Hash {
    lunaria::hash::Hash::from(bytes)
}

#[test]
fn digest_of_nothing_is_the_standard_vector() {
    assert_eq!(
        digest(b"").to_hex(),
        "a7ffc6f8bf1ed76651c14756a061d662f580ff4de43b49fa82d80a4b80f8434a"
    );
}

#[test]
fn digest_of_abc_is_the_standard_vector() {
    assert_eq!(
        digest(b"abc").to_hex(),
        "3a985da74fe225b2045c172d6bd390bd855f086e3e9d525b46bfe24511431532"
    );
}

#[test]
fn hex_has_two_lowercase_digits_per_byte() {
    let mut bytes = [0u8; 32];
    bytes[0] = 0x0f;
    bytes[1] = 0xa0;
    bytes[31] = 0xff;
    let text = hash_of(bytes).to_hex();
    assert_eq!(text.len(), 64);
    assert_eq!(&text[0..4], "0fa0");
    assert_eq!(&text[62..64], "ff");
    assert_eq!(&text[4..62], "0".repeat(58));
}

#[test]
fn difficulty_counts_leading_zero_bits() {
    assert_eq!(hash_of([0u8; 32]).difficulty(), 256);
    let mut bytes = [0u8; 32];
    bytes[0] = 0x80;
    assert_eq!(hash_of(bytes).difficulty(), 0);
    bytes[0] = 0x01;
    assert_eq!(hash_of(bytes).difficulty(), 7);
    bytes[0] = 0;
    bytes[1] = 0x0f;
    bytes[2] = 0;
    assert_eq!(hash_of(bytes).difficulty(), 12);
    let mut last = [0u8; 32];
    last[31] = 1;
    assert_eq!(hash_of(last).difficulty(), 255);
}

#[test]
fn difficulty_stops_at_the_first_one_bit() {
    let mut bytes = [0u8; 32];
    bytes[0] = 0x40;
    bytes[1] = 0x00;
    assert_eq!(hash_of(bytes).difficulty(), 1);
}

#[test]
fn block_hash_is_sha3_of_the_big_endian_preimage() {
    let hash = lunaria::hash::Hash::new(1, 2, hash_of([3u8; 32]), &[4, 5], 6);
    assert_eq!(
        hash.to_hex(),
        "ec931a2d7a03ab1b2b421a908c5ad7ea24ad94c89fcf2aae6868f232dbc59584"
    );
    let mut preimage = Vec::new();
    preimage.extend_from_slice(&1u64.to_be_bytes());
    preimage.extend_from_slice(&2u128.to_be_bytes());
    preimage.extend_from_slice(&[3u8; 32]);
    preimage.extend_from_slice(&[4, 5]);
    preimage.extend_from_slice(&6u64.to_be_bytes());
    assert_eq!(hash, digest(&preimage));
}

#[test]
fn block_hash_is_repeatable() {
    let first = lunaria::hash::Hash::new(7, 8, hash_of([9u8; 32]), b"payload", 10);
    let second = lunaria::hash::Hash::new(7, 8, hash_of([9u8; 32]), b"payload", 10);
    assert_eq!(first, second);
    let other = lunaria::hash::Hash::new(7, 8, hash_of([9u8; 32]), b"payload", 11);
    assert_ne!(first, other);
}

#[test]
fn cloned_hasher_agrees_with_one_shot_hash() {
    let hasher = BlockHasher::new(1, 2, hash_of([3u8; 32]), &[4, 5]);
    for nonce in 0..20u64 {
        let mut candidate = hasher.clone();
        assert_eq!(
            candidate.hash_nonce(nonce),
            lunaria::hash::Hash::new(1, 2, hash_of([3u8; 32]), &[4, 5], nonce)
        );
    }
}

#[test]
fn hash_nonce_leaves_the_hasher_empty() {
    let mut hasher = BlockHasher::new(1, 2, hash_of([3u8; 32]), &[4, 5]);
    let first = hasher.hash_nonce(6);
    assert_eq!(
        first.to_hex(),
        "ec931a2d7a03ab1b2b421a908c5ad7ea24ad94c89fcf2aae6868f232dbc59584"
    );
    let second = hasher.hash_nonce(6);
    assert_eq!(
        second.to_hex(),
        "821888e817f3332d9704e7bb99773facd7245af001616a9b0c461aeb9e0bc743"
    );
}

#[test]
fn zero_hash_is_all_zero() {
    assert_eq!(lunaria::hash::Hash::zero(), hash_of([0u8; 32]));
    assert_eq!(lunaria::hash::Hash::zero().as_bytes(), &[0u8; 32]);
}

#[test]
fn hash_encoding_round_trip() {
    let hash = digest(b"round trip");
    let bytes = hash.encode();
    assert_eq!(bytes.len(), 32);
    assert_eq!(bytes.as_slice(), hash.as_bytes());
    assert_eq!(lunaria::hash::Hash::from_bytes(&bytes), Ok(hash));
}

#[test]
fn hash_of_wrong_width_is_a_decode_error() {
    assert_eq!(lunaria::hash::Hash::from_bytes(&[0u8; 31]), Err(DecodeError));
    assert_eq!(lunaria::hash::Hash::from_bytes(&[0u8; 33]), Err(DecodeError));
    assert_eq!(lunaria::hash::Hash::from_bytes(&[]), Err(DecodeError));
}
