use mini_spv_node::blockchain::hash_meets_target;
use mini_spv_node::crypto::double_sha256;
use mini_spv_node::utils::{bits_to_target, bytes_to_u32_le, calculate_work};
use mini_spv_node::{BlockError, BlockHeader};

const GENESIS_HEX: &str = "0100000000000000000000000000000000000000000000000000000000000000000000003ba3edfd7a7b12b27ac72c3e67768f617fc81bc3888a51323a9fb8aa4b1e5e4adae5494dffff001d1aa4ae18";

fn genesis_bytes() -> Vec<u8> {
    hex::decode(GENESIS_HEX).unwrap()
}

#[test]
fn from_bytes_reads_every_field() {
    let header = BlockHeader::from_bytes(&genesis_bytes()).unwrap();
    assert_eq!(header.version, 1);
    assert_eq!(header.prev_block_hash, [0u8; 32]);
    assert_eq!(
        hex::encode(header.merkle_root),
        "3ba3edfd7a7b12b27ac72c3e67768f617fc81bc3888a51323a9fb8aa4b1e5e4a"
    );
    assert_eq!(header.timestamp, 1296688602);
    assert_eq!(header.bits, 0x1d00ffff);
    assert_eq!(header.nonce, 414098458);
}

#[test]
fn from_bytes_refuses_other_lengths() {
    let mut bytes = genesis_bytes();
    bytes.pop();
    assert_eq!(BlockHeader::from_bytes(&bytes), Err(BlockError::InvalidLength(79)));
    bytes.push(0x18);
    bytes.push(0);
    assert_eq!(BlockHeader::from_bytes(&bytes), Err(BlockError::InvalidLength(81)));
    assert_eq!(BlockHeader::from_bytes(&[]), Err(BlockError::InvalidLength(0)));
}

#[test]
fn serialize_gives_back_the_parsed_bytes() {
    let bytes = genesis_bytes();
    let header = BlockHeader::from_bytes(&bytes).unwrap();
    assert_eq!(header.serialize(), bytes);
}

#[test]
fn parse_of_serialize_is_the_header() {
    let header = BlockHeader {
        version: 0x20000000,
        prev_block_hash: [0xab; 32],
        merkle_root: [0x11; 32],
        timestamp: 0xdeadbeef,
        bits: 0x1703a30c,
        nonce: 7,
    };
    let bytes = header.serialize();
    assert_eq!(bytes.len(), 80);
    assert_eq!(&bytes[0..4], &[0x00, 0x00, 0x00, 0x20]);
    assert_eq!(&bytes[68..72], &[0xef, 0xbe, 0xad, 0xde]);
    assert_eq!(BlockHeader::from_bytes(&bytes), Ok(header));
}

#[test]
fn genesis_hash_is_the_known_one() {
    let header = BlockHeader::from_bytes(&genesis_bytes()).unwrap();
    let mut hash = header.hash();
    hash.reverse();
    assert_eq!(
        hex::encode(hash),
        "000000000933ea01ad0ee984209779baaec3ced90fa3f408719526f8d77f4943"
    );
    assert!(header.validate_pow());
}

#[test]
fn double_sha256_of_empty_input() {
    assert_eq!(
        hex::encode(double_sha256(&[])),
        "5df6e0e2761359d30a8275058e299fcc0381534545f55cf43e41983f5d4c9456"
    );
}

#[test]
fn bytes_to_u32_le_reads_the_first_four_bytes() {
    assert_eq!(bytes_to_u32_le(&[0x01, 0x02, 0x03, 0x04]), 0x04030201);
    assert_eq!(bytes_to_u32_le(&[0xff, 0xff, 0xff, 0xff, 0x12]), u32::MAX);
}

#[test]
fn bits_to_target_shifts_the_coefficient() {
    // 0xffff * 256^26
    let mut expected = vec![0u8; 26];
    expected.push(0xff);
    expected.push(0xff);
    assert_eq!(bits_to_target(0x1d00ffff).to_le_bytes(), expected);
    // 1 * 256^0
    assert_eq!(bits_to_target(0x03000001).to_le_bytes(), vec![1]);
    // exponent 2: 0x8000 / 256
    assert_eq!(bits_to_target(0x02008000).to_le_bytes(), vec![0x80]);
    // exponent 0 shifts everything out
    assert_eq!(bits_to_target(0x00123456).to_le_bytes(), vec![0]);
    // the sign bit is dropped
    assert_eq!(bits_to_target(0x04800001).to_le_bytes(), vec![0, 1]);
}

#[test]
fn calculate_work_of_known_difficulties() {
    // Difficulty 1: 2^256 / (0xffff * 2^208 + 1) = 0x100010001
    assert_eq!(calculate_work(0x1d00ffff).to_le_bytes(), vec![1, 0, 1, 0, 1]);
    // 2^256 / (0x7fffff * 2^232 + 1) = 2
    assert_eq!(calculate_work(0x207fffff).to_le_bytes(), vec![2]);
    // a zero target: 2^256 / 1
    let mut two_to_256 = vec![0u8; 32];
    two_to_256.push(1);
    assert_eq!(calculate_work(0x00000000).to_le_bytes(), two_to_256);
}

fn le_value(bytes: &[u8]) -> u128 {
    bytes.iter().rev().fold(0u128, |acc, b| acc * 256 + *b as u128)
}

#[test]
fn work_falls_as_the_target_rises() {
    let easy = le_value(&calculate_work(0x207fffff).to_le_bytes());
    let hard = le_value(&calculate_work(0x1f00ffff).to_le_bytes());
    let harder = le_value(&calculate_work(0x1d00ffff).to_le_bytes());
    assert!(easy <= hard);
    assert!(hard <= harder);
}

#[test]
fn hash_meets_target_compares_as_little_endian_number() {
    assert!(hash_meets_target(&[0u8; 32], 0x1d00ffff));
    assert!(!hash_meets_target(&[0xffu8; 32], 0x1d00ffff));
    // exactly the target 0xffff * 256^26
    let mut at_target = [0u8; 32];
    at_target[26] = 0xff;
    at_target[27] = 0xff;
    assert!(hash_meets_target(&at_target, 0x1d00ffff));
    at_target[0] = 1;
    assert!(!hash_meets_target(&at_target, 0x1d00ffff));
    // target 1: only 0 and 1 meet it
    let mut one = [0u8; 32];
    one[0] = 1;
    assert!(hash_meets_target(&one, 0x03000001));
    one[0] = 2;
    assert!(!hash_meets_target(&one, 0x03000001));
}
