use lunaria::account::Address;
use lunaria::block::{
    decode_block_at, try_nonce, try_nonce_unless, try_nonce_when, Block, BlockError, BLOCK_FRAME_BYTES, DIFFICULTY,
    GENESIS_MINT_ADDRESS, GENESIS_MINT_AMOUNT, MAX_NONCE_ATTEMPTS,
};
use lunaria::hash::BlockHasher;
use std::sync::atomic::AtomicBool;
use lunaria::transaction::{
    attach_signature, encode_transactions, Transaction, TransactionType, TRANSACTION_BYTES,
};

fn zero() -> lunaria::hash::Hash {
    lunaria::hash::Hash::zero()
}

fn transaction(amount: u64) -> Transaction {
    attach_signature(
        TransactionType::Transfer,
        Address::from([1u8; 32]),
        [2u8; 897],
        Address::from([3u8; 32]),
        amount,
        &[4u8; 10],
    )
    .unwrap()
}

#[test]
fn constants() {
    assert_eq!(DIFFICULTY, 8);
    assert_eq!(MAX_NONCE_ATTEMPTS, 1_000_000_000);
    assert_eq!(GENESIS_MINT_AMOUNT, u64::MAX / 2);
    assert_eq!(BLOCK_FRAME_BYTES, 96);
}

#[test]
fn forged_block_has_the_given_fields_and_is_sealed() {
    let txs = vec![transaction(5), transaction(6)];
    let block = Block::forge(3, 1234, zero(), txs.clone()).unwrap();
    assert_eq!(block.index(), 3);
    assert_eq!(block.timestamp(), 1234);
    assert_eq!(block.previous_hash(), &zero());
    assert_eq!(block.transactions(), txs.as_slice());
    assert!(block.nonce() < MAX_NONCE_ATTEMPTS);
    assert!(block.hash().difficulty() >= DIFFICULTY);
    assert_eq!(block.hash().as_bytes()[0], 0);
    assert_eq!(block.verify_hash(), Ok(()));
}

#[test]
fn forged_hash_is_the_hash_of_the_fields() {
    let txs = vec![transaction(5)];
    let block = Block::forge(3, 1234, zero(), txs.clone()).unwrap();
    let expected =
        lunaria::hash::Hash::new(3, 1234, zero(), &encode_transactions(&txs), block.nonce());
    assert_eq!(block.hash(), &expected);
}

#[test]
fn forge_takes_the_first_nonce_that_seals() {
    let txs = vec![transaction(5)];
    let block = Block::forge(3, 1234, zero(), txs.clone()).unwrap();
    let hasher = BlockHasher::new(3, 1234, zero(), &encode_transactions(&txs));
    for nonce in 0..block.nonce() {
        assert_eq!(try_nonce(&hasher, nonce, DIFFICULTY), None);
    }
    assert_eq!(
        try_nonce(&hasher, block.nonce(), DIFFICULTY),
        Some((block.nonce(), *block.hash()))
    );
}

#[test]
fn forge_is_repeatable() {
    let first = Block::forge(3, 1234, zero(), vec![transaction(5)]).unwrap();
    let second = Block::forge(3, 1234, zero(), vec![transaction(5)]).unwrap();
    assert_eq!(first, second);
}

#[test]
fn any_nonce_seals_at_difficulty_zero() {
    let block = Block::forge_with_difficulty(1, 2, zero(), Vec::new(), 0, 1).unwrap();
    assert_eq!(block.nonce(), 0);
}

#[test]
fn pow_infeasible() {
    let r = Block::forge_with_difficulty(1, 2, zero(), vec![transaction(5)], 256, 100);
    assert_eq!(r, Err(BlockError::NonceTooHard));
}

#[test]
fn no_attempt_finds_no_nonce() {
    let r = Block::forge_with_difficulty(1, 2, zero(), Vec::new(), 0, 0);
    assert_eq!(r, Err(BlockError::NonceTooHard));
}

#[test]
fn genesis_block_mints_for_the_standard_recipient() {
    let genesis = Block::genesis().unwrap();
    let recipient = Address::try_from(GENESIS_MINT_ADDRESS).unwrap();
    assert_eq!(genesis.index(), 0);
    assert_eq!(genesis.timestamp(), 0);
    assert_eq!(genesis.previous_hash(), &zero());
    assert_eq!(genesis.transactions().len(), 1);
    let mint = genesis.transactions()[0];
    assert_eq!(mint.tx_type, TransactionType::Mint);
    assert_eq!(mint.from_address, Address::from([0u8; 32]));
    assert_eq!(mint.from_public_key, [0u8; 897]);
    assert_eq!(mint.signature, [0u8; 752]);
    assert_eq!(mint.to_address, recipient);
    assert_eq!(mint.amount, 9_223_372_036_854_775_807);
    assert_eq!(genesis.verify_hash(), Ok(()));
    assert!(genesis.has_genesis_shape());
}

#[test]
fn genesis_block_for_another_recipient() {
    let recipient = Address::from([5u8; 32]);
    let genesis = Block::genesis_for(recipient).unwrap();
    assert_eq!(genesis.transactions()[0].to_address, recipient);
    assert_eq!(genesis.transactions()[0].amount, GENESIS_MINT_AMOUNT);
    assert!(genesis.has_genesis_shape());
}

#[test]
fn other_blocks_have_not_the_genesis_shape() {
    let mint = Block::genesis_for(Address::from([5u8; 32])).unwrap().transactions()[0];
    assert!(Block::forge(0, 0, zero(), vec![mint]).unwrap().has_genesis_shape());
    assert!(!Block::forge(1, 0, zero(), vec![mint]).unwrap().has_genesis_shape());
    assert!(!Block::forge(0, 1, zero(), vec![mint]).unwrap().has_genesis_shape());
    let mut prev = [0u8; 32];
    prev[31] = 1;
    assert!(!Block::forge(0, 0, lunaria::hash::Hash::from(prev), vec![mint])
        .unwrap()
        .has_genesis_shape());
    assert!(!Block::forge(0, 0, zero(), vec![]).unwrap().has_genesis_shape());
    assert!(!Block::forge(0, 0, zero(), vec![mint, mint]).unwrap().has_genesis_shape());
    let mut less = mint;
    less.amount -= 1;
    assert!(!Block::forge(0, 0, zero(), vec![less]).unwrap().has_genesis_shape());
    let mut signed = mint;
    signed.signature[751] = 1;
    assert!(!Block::forge(0, 0, zero(), vec![signed]).unwrap().has_genesis_shape());
    let mut keyed = mint;
    keyed.from_public_key[0] = 1;
    assert!(!Block::forge(0, 0, zero(), vec![keyed]).unwrap().has_genesis_shape());
    let mut sent = mint;
    sent.from_address = Address::from([1u8; 32]);
    assert!(!Block::forge(0, 0, zero(), vec![sent]).unwrap().has_genesis_shape());
    let mut transfer = mint;
    transfer.tx_type = TransactionType::Transfer;
    assert!(!Block::forge(0, 0, zero(), vec![transfer]).unwrap().has_genesis_shape());
}

#[test]
fn block_follows_its_predecessor() {
    let first = Block::forge(4, 10, zero(), vec![]).unwrap();
    let second = Block::forge(5, 11, *first.hash(), vec![transaction(1)]).unwrap();
    assert_eq!(second.verify(&first), Ok(()));
}

#[test]
fn block_with_wrong_index_is_refused() {
    let first = Block::forge(4, 10, zero(), vec![]).unwrap();
    let second = Block::forge(6, 11, *first.hash(), vec![]).unwrap();
    assert_eq!(second.verify(&first), Err(BlockError::InvalidIndex { got: 6, want: 5 }));
    let same = Block::forge(4, 11, *first.hash(), vec![]).unwrap();
    assert_eq!(same.verify(&first), Err(BlockError::InvalidIndex { got: 4, want: 5 }));
}

#[test]
fn no_block_follows_the_last_index() {
    let last = Block::forge(u64::MAX, 10, zero(), vec![]).unwrap();
    let wrapped = Block::forge(0, 11, *last.hash(), vec![]).unwrap();
    assert_eq!(
        wrapped.verify(&last),
        Err(BlockError::InvalidIndex { got: 0, want: u64::MAX })
    );
    let same = Block::forge(u64::MAX, 11, *last.hash(), vec![]).unwrap();
    assert_eq!(
        same.verify(&last),
        Err(BlockError::InvalidIndex { got: u64::MAX, want: u64::MAX })
    );
}

#[test]
fn block_with_wrong_previous_hash_is_refused() {
    let first = Block::forge(4, 10, zero(), vec![]).unwrap();
    let second = Block::forge(5, 11, zero(), vec![]).unwrap();
    assert_eq!(
        second.verify(&first),
        Err(BlockError::InvalidPreviousHash { got: zero(), want: *first.hash() })
    );
}

#[test]
fn index_is_checked_before_the_previous_hash() {
    let first = Block::forge(4, 10, zero(), vec![]).unwrap();
    let second = Block::forge(9, 11, zero(), vec![]).unwrap();
    assert_eq!(second.verify(&first), Err(BlockError::InvalidIndex { got: 9, want: 5 }));
}

#[test]
fn new_block_has_the_hash_of_its_fields() {
    let txs = vec![transaction(5)];
    let block = Block::new(3, 4, zero(), txs.clone(), 77);
    assert_eq!(block.index(), 3);
    assert_eq!(block.timestamp(), 4);
    assert_eq!(block.previous_hash(), &zero());
    assert_eq!(block.transactions(), txs.as_slice());
    assert_eq!(block.nonce(), 77);
    assert_eq!(
        block.hash(),
        &lunaria::hash::Hash::new(3, 4, zero(), &encode_transactions(&txs), 77)
    );
    let forged = Block::forge(3, 4, zero(), txs.clone()).unwrap();
    assert_eq!(Block::new(3, 4, zero(), txs, forged.nonce()), forged);
}

#[test]
fn block_with_too_easy_a_hash_is_refused() {
    let mut nonce = 0;
    let mut block = Block::new(1, 2, zero(), vec![], nonce);
    while block.hash().difficulty() >= DIFFICULTY {
        nonce += 1;
        block = Block::new(1, 2, zero(), vec![], nonce);
    }
    assert_eq!(
        block.verify_hash(),
        Err(BlockError::InvalidHash { got: *block.hash(), want: *block.hash() })
    );
}

#[test]
fn tampered_block_is_refused() {
    let block = Block::forge(1, 2, zero(), vec![transaction(5)]).unwrap();
    let mut bytes = block.encode();
    let amount_at = 88 + 8 + 1714;
    bytes[amount_at] ^= 1;
    let tampered = Block::from_bytes(bytes).unwrap();
    assert_eq!(tampered.transactions()[0].amount, 4);
    let want = lunaria::hash::Hash::new(
        1,
        2,
        zero(),
        &encode_transactions(&[transaction(4)]),
        block.nonce(),
    );
    assert_eq!(
        tampered.verify_hash(),
        Err(BlockError::InvalidHash { got: *block.hash(), want })
    );
}

#[test]
fn block_encoding_layout() {
    let txs = vec![transaction(5), transaction(6)];
    let block = Block::forge(0x0102, 0x0304, zero(), txs.clone()).unwrap();
    let bytes = block.encode();
    assert_eq!(bytes.len(), BLOCK_FRAME_BYTES + 8 + 2 * TRANSACTION_BYTES);
    assert_eq!(&bytes[0..8], &0x0102u64.to_le_bytes());
    assert_eq!(&bytes[8..24], &0x0304u128.to_le_bytes());
    assert_eq!(&bytes[24..56], block.hash().as_bytes());
    assert_eq!(&bytes[56..88], &[0u8; 32]);
    assert_eq!(&bytes[88..bytes.len() - 8], encode_transactions(&txs).as_slice());
    assert_eq!(&bytes[bytes.len() - 8..], &block.nonce().to_le_bytes());
}

#[test]
fn block_encoding_round_trip() {
    let block = Block::forge(7, 8, zero(), vec![transaction(5), transaction(6)]).unwrap();
    assert_eq!(Block::from_bytes(block.encode()), Ok(block.clone()));
    let empty = Block::forge(7, 8, zero(), vec![]).unwrap();
    assert_eq!(empty.encode().len(), 104);
    assert_eq!(Block::from_bytes(empty.encode()), Ok(empty));
}

#[test]
fn block_with_missing_or_spare_bytes_is_a_decode_error() {
    let block = Block::forge(7, 8, zero(), vec![transaction(5)]).unwrap();
    let bytes = block.encode();
    assert_eq!(Block::from_bytes(bytes[..bytes.len() - 1].to_vec()), Err(BlockError::DecodeError));
    let mut longer = bytes.clone();
    longer.push(0);
    assert_eq!(Block::from_bytes(longer), Err(BlockError::DecodeError));
    assert_eq!(Block::from_bytes(bytes[..50].to_vec()), Err(BlockError::DecodeError));
    assert_eq!(Block::from_bytes(Vec::new()), Err(BlockError::DecodeError));
    let mut tagged = bytes.clone();
    tagged[96] = 9;
    assert_eq!(Block::from_bytes(tagged), Err(BlockError::DecodeError));
}

#[test]
fn block_is_read_from_the_middle_of_a_buffer() {
    let block = Block::forge(7, 8, zero(), vec![transaction(5)]).unwrap();
    let mut buffer = vec![1u8, 2, 3];
    buffer.extend_from_slice(&block.encode());
    buffer.extend_from_slice(&[9u8; 4]);
    let (read, end) = decode_block_at(&buffer, 3).unwrap();
    assert_eq!(read, block);
    assert_eq!(end, buffer.len() - 4);
}

#[test]
fn cloned_block_is_the_same() {
    let block = Block::forge(7, 8, zero(), vec![transaction(5)]).unwrap();
    assert_eq!(block.clone(), block);
}

#[test]
fn search_for_any_nonce_seals_the_block() {
    let cancel = AtomicBool::new(false);
    let txs = vec![transaction(5)];
    let block =
        Block::forge_unless(3, 1234, zero(), txs.clone(), DIFFICULTY, 1_000_000, &cancel).unwrap();
    assert_eq!(block.index(), 3);
    assert_eq!(block.timestamp(), 1234);
    assert_eq!(block.previous_hash(), &zero());
    assert_eq!(block.transactions(), txs.as_slice());
    assert!(block.nonce() < 1_000_000);
    assert_eq!(block.verify_hash(), Ok(()));
}

#[test]
fn cancelled_search_finds_no_nonce() {
    let cancel = AtomicBool::new(true);
    let r = Block::forge_unless(3, 1234, zero(), vec![], 0, 1_000, &cancel);
    assert_eq!(r, Err(BlockError::NonceTooHard));
    let hasher = BlockHasher::new(3, 1234, zero(), &[]);
    assert_eq!(try_nonce_unless(&hasher, 0, 0, &cancel), None);
    let go = AtomicBool::new(false);
    assert_eq!(try_nonce_unless(&hasher, 0, 0, &go), try_nonce(&hasher, 0, 0));
    assert!(try_nonce(&hasher, 0, 0).is_some());
}

#[test]
fn search_for_any_nonce_can_be_infeasible() {
    let cancel = AtomicBool::new(false);
    let r = Block::forge_unless(3, 1234, zero(), vec![], 256, 100, &cancel);
    assert_eq!(r, Err(BlockError::NonceTooHard));
}

#[test]
fn assembled_block_has_the_given_fields() {
    let hash = lunaria::hash::Hash::from([9u8; 32]);
    let block = Block::assemble(3, 4, zero(), vec![transaction(1)], Some((7, hash))).unwrap();
    assert_eq!(block.index(), 3);
    assert_eq!(block.timestamp(), 4);
    assert_eq!(block.previous_hash(), &zero());
    assert_eq!(block.transactions(), &[transaction(1)]);
    assert_eq!(block.nonce(), 7);
    assert_eq!(block.hash(), &hash);
    assert!(matches!(block.verify_hash(), Err(BlockError::InvalidHash { .. })));
    assert_eq!(Block::assemble(3, 4, zero(), vec![], None), Err(BlockError::NonceTooHard));
}

#[test]
fn cancelled_search_passes_every_nonce_over() {
    let hasher = BlockHasher::new(3, 1234, zero(), &[]);
    let block = Block::forge(3, 1234, zero(), vec![]).unwrap();
    let empty = encode_transactions(&[]);
    let hasher_of_block = BlockHasher::new(3, 1234, zero(), &empty);
    let winner = block.nonce();
    assert_eq!(try_nonce_when(&hasher_of_block, winner, DIFFICULTY, true), None);
    assert_eq!(
        try_nonce_when(&hasher_of_block, winner, DIFFICULTY, false),
        Some((winner, *block.hash()))
    );
    assert_eq!(try_nonce_when(&hasher, 0, 257, false), None);
    assert_eq!(try_nonce_when(&hasher, 0, 0, true), None);
    assert_eq!(try_nonce_when(&hasher, 5, 0, false), try_nonce(&hasher, 5, 0));
    let go = AtomicBool::new(false);
    assert_eq!(
        try_nonce_unless(&hasher_of_block, winner, DIFFICULTY, &go),
        Some((winner, *block.hash()))
    );
    let stop = AtomicBool::new(true);
    assert_eq!(try_nonce_unless(&hasher_of_block, winner, DIFFICULTY, &stop), None);
}
