use lunaria::account::Address;
use lunaria::block::{Block, BlockError, GENESIS_MINT_ADDRESS, GENESIS_MINT_AMOUNT};
use lunaria::client::Client;
use lunaria::codec::{decode_chain_at, decode_ledger, encode_ledger};
use lunaria::ledger::{check_transaction, Ledger, LedgerError};
use lunaria::state::Balances;
use lunaria::transaction::{
    sign, Transaction, TransactionError, TransactionType, TRANSACTION_BYTES,
};

fn address(byte: u8) -> Address {
    Address::from([byte; 32])
}

fn pay(from: &Client, to: Address, amount: u64) -> Transaction {
    let (pk, sk) = from.keypair();
    sign(TransactionType::Transfer, from.address(), pk, to, amount, &sk)
}

/// A ledger whose genesis recipient is `owner`, with one more block in
/// which `owner` pays 100 to `other`.
fn after_one_transfer(owner: &Client, other: &Client) -> Ledger {
    let mut ledger = Ledger::new_for(owner.address()).unwrap();
    let block = ledger.forge(vec![pay(owner, other.address(), 100)]).unwrap();
    ledger.apply_block(block).unwrap();
    ledger
}

#[test]
fn genesis_bootstrap() {
    let ledger = Ledger::new().unwrap();
    let recipient = Address::try_from(GENESIS_MINT_ADDRESS).unwrap();
    assert_eq!(ledger.chain().len(), 1);
    assert_eq!(ledger.balance(recipient), u64::MAX / 2);
    assert_eq!(ledger.balance(address(0)), 0);
    assert_eq!(ledger.balance(address(9)), 0);
    assert_eq!(ledger.state().entries(), &vec![(recipient, u64::MAX / 2)]);
    assert_eq!(ledger.chain()[0].index(), 0);
    assert_eq!(ledger.chain()[0].verify_hash(), Ok(()));
}

#[test]
fn genesis_bootstrap_for_a_known_recipient() {
    let owner = Client::new();
    let ledger = Ledger::new_for(owner.address()).unwrap();
    assert_eq!(ledger.chain().len(), 1);
    assert_eq!(ledger.balance(owner.address()), GENESIS_MINT_AMOUNT);
    assert_eq!(ledger.last().unwrap(), &ledger.chain()[0]);
}

#[test]
fn simple_transfer() {
    let owner = Client::new();
    let other = Client::new();
    let mut ledger = Ledger::new_for(owner.address()).unwrap();
    let block = ledger.forge(vec![pay(&owner, other.address(), 100)]).unwrap();
    assert_eq!(block.index(), 1);
    assert_eq!(block.previous_hash(), ledger.last().unwrap().hash());
    assert_eq!(ledger.chain().len(), 1);
    assert_eq!(ledger.apply_block(block.clone()), Ok(()));
    assert_eq!(ledger.balance(owner.address()), u64::MAX / 2 - 100);
    assert_eq!(ledger.balance(other.address()), 100);
    assert_eq!(ledger.chain().len(), 2);
    assert_eq!(ledger.last().unwrap(), &block);
    assert_eq!(
        ledger.state().entries(),
        &vec![(owner.address(), u64::MAX / 2 - 100), (other.address(), 100)]
    );
}

#[test]
fn insufficient_funds() {
    let owner = Client::new();
    let other = Client::new();
    let mut ledger = after_one_transfer(&owner, &other);
    let before = ledger.encode();
    let over = pay(&other, owner.address(), 101);
    let block = ledger.forge(vec![over]).unwrap();
    assert_eq!(
        ledger.apply_block(block),
        Err(LedgerError::TransactionError(TransactionError::InsufficientBalance {
            address: other.address(),
            transaction: over
        }))
    );
    assert_eq!(ledger.chain().len(), 2);
    assert_eq!(ledger.balance(other.address()), 100);
    assert_eq!(ledger.balance(owner.address()), u64::MAX / 2 - 100);
    assert_eq!(ledger.encode(), before);
}

#[test]
fn whole_balance_can_be_sent() {
    let owner = Client::new();
    let other = Client::new();
    let mut ledger = after_one_transfer(&owner, &other);
    let block = ledger.forge(vec![pay(&other, owner.address(), 100)]).unwrap();
    assert_eq!(ledger.apply_block(block), Ok(()));
    assert_eq!(ledger.balance(other.address()), 0);
    assert_eq!(ledger.balance(owner.address()), u64::MAX / 2);
    assert_eq!(
        ledger.state().entries(),
        &vec![(owner.address(), u64::MAX / 2), (other.address(), 0)]
    );
}

#[test]
fn forbidden_mint() {
    let owner = Client::new();
    let mut ledger = Ledger::new_for(owner.address()).unwrap();
    let mint = ledger.chain()[0].transactions()[0];
    let before = ledger.encode();
    let block = ledger.forge(vec![mint]).unwrap();
    assert_eq!(block.index(), 1);
    assert_eq!(ledger.apply_block(block), Err(LedgerError::ForbiddenMintTransaction(mint)));
    assert_eq!(ledger.chain().len(), 1);
    assert_eq!(ledger.encode(), before);
}

#[test]
fn mint_after_a_transfer_undoes_the_whole_block() {
    let owner = Client::new();
    let other = Client::new();
    let mut ledger = Ledger::new_for(owner.address()).unwrap();
    let mint = ledger.chain()[0].transactions()[0];
    let before = ledger.encode();
    let block = ledger.forge(vec![pay(&owner, other.address(), 5), mint]).unwrap();
    assert_eq!(ledger.apply_block(block), Err(LedgerError::ForbiddenMintTransaction(mint)));
    assert_eq!(ledger.balance(other.address()), 0);
    assert_eq!(ledger.balance(owner.address()), GENESIS_MINT_AMOUNT);
    assert_eq!(ledger.encode(), before);
}

#[test]
fn transfers_of_a_block_are_applied_in_order() {
    let owner = Client::new();
    let other = Client::new();
    let third = address(3);
    let mut ledger = Ledger::new_for(owner.address()).unwrap();
    let block = ledger
        .forge(vec![pay(&owner, other.address(), 100), pay(&other, third, 60), pay(&other, third, 40)])
        .unwrap();
    assert_eq!(ledger.apply_block(block), Ok(()));
    assert_eq!(ledger.balance(other.address()), 0);
    assert_eq!(ledger.balance(third), 100);
    let too_early = ledger
        .forge(vec![pay(&other, third, 1), pay(&owner, other.address(), 1)])
        .unwrap();
    assert!(matches!(
        ledger.apply_block(too_early),
        Err(LedgerError::TransactionError(TransactionError::InsufficientBalance { .. }))
    ));
    assert_eq!(ledger.chain().len(), 2);
}

#[test]
fn transfer_with_the_key_of_another_account_is_refused() {
    let owner = Client::new();
    let thief = Client::new();
    let mut ledger = Ledger::new_for(owner.address()).unwrap();
    let (pk, sk) = thief.keypair();
    let stolen = sign(TransactionType::Transfer, owner.address(), pk, thief.address(), 10, &sk);
    let before = ledger.encode();
    let block = ledger.forge(vec![stolen]).unwrap();
    assert_eq!(
        ledger.apply_block(block),
        Err(LedgerError::TransactionError(TransactionError::PublicKeyAddressMismatch))
    );
    assert_eq!(ledger.encode(), before);
}

#[test]
fn transfer_with_a_bad_signature_is_refused() {
    let owner = Client::new();
    let mut ledger = Ledger::new_for(owner.address()).unwrap();
    let mut forged = pay(&owner, address(3), 10);
    forged.amount = 11;
    let block = ledger.forge(vec![forged]).unwrap();
    assert!(matches!(
        ledger.apply_block(block),
        Err(LedgerError::TransactionError(TransactionError::VerificationError { .. }))
    ));
    assert_eq!(ledger.chain().len(), 1);
}

#[test]
fn signature_is_checked_before_the_balance() {
    let owner = Client::new();
    let poor = Client::new();
    let ledger = Ledger::new_for(owner.address()).unwrap();
    let mut forged = pay(&poor, address(3), 10);
    forged.amount = 11;
    assert!(matches!(
        check_transaction(&ledger.state(), &forged),
        Err(LedgerError::TransactionError(TransactionError::VerificationError { .. }))
    ));
    let honest = pay(&poor, address(3), 10);
    assert_eq!(
        check_transaction(&ledger.state(), &honest),
        Err(LedgerError::TransactionError(TransactionError::InsufficientBalance {
            address: poor.address(),
            transaction: honest
        }))
    );
    assert_eq!(check_transaction(&ledger.state(), &pay(&owner, address(3), 10)), Ok(()));
}

#[test]
fn block_that_does_not_follow_is_refused() {
    let owner = Client::new();
    let mut ledger = Ledger::new_for(owner.address()).unwrap();
    let last = *ledger.last().unwrap().hash();
    let before = ledger.encode();
    let wrong_index = Block::forge(2, 5, last, vec![]).unwrap();
    assert_eq!(
        ledger.apply_block(wrong_index),
        Err(LedgerError::BlockError(BlockError::InvalidIndex { got: 2, want: 1 }))
    );
    let wrong_hash = Block::forge(1, 5, lunaria::hash::Hash::zero(), vec![]).unwrap();
    assert_eq!(
        ledger.apply_block(wrong_hash),
        Err(LedgerError::BlockError(BlockError::InvalidPreviousHash {
            got: lunaria::hash::Hash::zero(),
            want: last
        }))
    );
    assert_eq!(ledger.encode(), before);
    assert_eq!(ledger.chain().len(), 1);
}

#[test]
fn empty_block_is_accepted() {
    let owner = Client::new();
    let mut ledger = Ledger::new_for(owner.address()).unwrap();
    let block = ledger.forge_at(77, vec![]).unwrap();
    assert_eq!(block.timestamp(), 77);
    assert_eq!(ledger.apply_block(block), Ok(()));
    assert_eq!(ledger.chain().len(), 2);
    assert_eq!(ledger.balance(owner.address()), GENESIS_MINT_AMOUNT);
}

#[test]
fn staged_transactions_leave_the_ledger_as_it_was() {
    let owner = Client::new();
    let ledger = Ledger::new_for(owner.address()).unwrap();
    let before = ledger.encode();
    let block = ledger.forge(vec![pay(&owner, address(4), 9)]).unwrap();
    let staged = ledger.apply_transactions(&block).unwrap();
    assert_eq!(staged.balance(&address(4)), 9);
    assert_eq!(staged.balance(&owner.address()), GENESIS_MINT_AMOUNT - 9);
    assert_eq!(ledger.encode(), before);
    assert_eq!(ledger.balance(address(4)), 0);
}

#[test]
fn chain_is_linked() {
    let owner = Client::new();
    let other = Client::new();
    let mut ledger = after_one_transfer(&owner, &other);
    let block = ledger.forge(vec![]).unwrap();
    ledger.apply_block(block).unwrap();
    let chain = ledger.chain();
    assert_eq!(chain.len(), 3);
    for i in 0..chain.len() {
        assert_eq!(chain[i].index(), i as u64);
        assert_eq!(chain[i].verify_hash(), Ok(()));
        if i > 0 {
            assert_eq!(chain[i].previous_hash(), chain[i - 1].hash());
            assert_eq!(chain[i].verify(&chain[i - 1]), Ok(()));
        }
    }
}

#[test]
fn block_by_index() {
    let owner = Client::new();
    let other = Client::new();
    let ledger = after_one_transfer(&owner, &other);
    assert_eq!(ledger.block(0).unwrap().index(), 0);
    assert_eq!(ledger.block(1).unwrap(), ledger.last().unwrap());
    assert_eq!(ledger.block(2), Err(LedgerError::BlockNotFound(2)));
    assert_eq!(ledger.block(u64::MAX), Err(LedgerError::BlockNotFound(u64::MAX)));
}

#[test]
fn block_without_genesis_shape_starts_no_ledger() {
    let block = Block::forge(1, 0, lunaria::hash::Hash::zero(), vec![]).unwrap();
    assert_eq!(Ledger::from_genesis(block.clone()), Err(LedgerError::GenesisBlockError(block)));
}

#[test]
fn unsealed_genesis_block_starts_no_ledger() {
    let mint = Block::genesis_for(address(5)).unwrap().transactions()[0];
    let mut nonce = 0;
    let mut block = Block::new(0, 0, lunaria::hash::Hash::zero(), vec![mint], nonce);
    while block.hash().difficulty() >= 8 {
        nonce += 1;
        block = Block::new(0, 0, lunaria::hash::Hash::zero(), vec![mint], nonce);
    }
    assert!(block.has_genesis_shape());
    assert_eq!(
        Ledger::from_genesis(block.clone()),
        Err(LedgerError::BlockError(BlockError::InvalidHash {
            got: *block.hash(),
            want: *block.hash()
        }))
    );
}

#[test]
fn ledger_encoding_round_trip() {
    let owner = Client::new();
    let other = Client::new();
    let ledger = after_one_transfer(&owner, &other);
    let bytes = ledger.encode();
    let read = Ledger::from_bytes(bytes.clone()).unwrap();
    assert_eq!(read, ledger);
    assert_eq!(read.encode(), bytes);
}

#[test]
fn ledger_encoding_is_the_chain_then_the_state() {
    let owner = Client::new();
    let other = Client::new();
    let ledger = after_one_transfer(&owner, &other);
    let bytes = ledger.encode();
    let mut expected = Vec::new();
    expected.extend_from_slice(&2u64.to_le_bytes());
    expected.extend_from_slice(&ledger.chain()[0].encode());
    expected.extend_from_slice(&ledger.chain()[1].encode());
    expected.extend_from_slice(&ledger.state().encode());
    assert_eq!(bytes, expected);
    assert_eq!(bytes, encode_ledger(ledger.chain(), &ledger.state()));
    let (chain, end) = decode_chain_at(&bytes, 0).unwrap();
    assert_eq!(chain.as_slice(), ledger.chain());
    assert_eq!(end, bytes.len() - 8 - 2 * 40);
}

#[test]
fn cloned_ledger_is_the_same() {
    let owner = Client::new();
    let other = Client::new();
    let ledger = after_one_transfer(&owner, &other);
    assert_eq!(ledger.clone(), ledger);
    assert_eq!(ledger.clone().encode(), ledger.encode());
}

#[test]
fn tampering_detection() {
    let owner = Client::new();
    let other = Client::new();
    let mut ledger = after_one_transfer(&owner, &other);
    let third = ledger.forge(vec![pay(&other, owner.address(), 1)]).unwrap();
    ledger.apply_block(third).unwrap();
    assert_eq!(ledger.chain().len(), 3);
    let mut bytes = ledger.encode();
    let genesis_len = ledger.chain()[0].encode().len();
    let amount_at = 8 + genesis_len + 88 + 8 + (TRANSACTION_BYTES - 8);
    assert_eq!(bytes[amount_at], 100);
    bytes[amount_at] ^= 1;
    let len = bytes.len();
    match Ledger::from_bytes(bytes) {
        Err(LedgerError::BlockError(BlockError::InvalidHash { got, want })) => {
            assert_eq!(&got, ledger.chain()[1].hash());
            assert_ne!(got, want);
        }
        other => panic!("unexpected result: {:?}", other),
    }
    assert_eq!(len, ledger.encode().len());
}

#[test]
fn bytes_that_are_no_ledger_are_a_decode_error() {
    let owner = Client::new();
    let other = Client::new();
    let ledger = after_one_transfer(&owner, &other);
    let bytes = ledger.encode();
    assert_eq!(Ledger::from_bytes(Vec::new()), Err(LedgerError::DecodeError));
    assert_eq!(Ledger::from_bytes(vec![1, 2, 3]), Err(LedgerError::DecodeError));
    assert_eq!(
        Ledger::from_bytes(bytes[..bytes.len() - 1].to_vec()),
        Err(LedgerError::DecodeError)
    );
    let mut longer = bytes.clone();
    longer.push(0);
    assert_eq!(Ledger::from_bytes(longer), Err(LedgerError::DecodeError));
    let mut count = bytes.clone();
    count[0] = 3;
    assert_eq!(Ledger::from_bytes(count), Err(LedgerError::DecodeError));
    assert!(decode_ledger(&bytes).is_ok());
    assert!(decode_ledger(&bytes[1..]).is_err());
}

#[test]
fn ledger_without_blocks_is_refused() {
    let bytes = encode_ledger(&[], &Balances::new());
    assert_eq!(bytes, vec![0u8; 16]);
    assert_eq!(Ledger::from_bytes(bytes), Err(LedgerError::BlockNotFound(0)));
    assert_eq!(Ledger::from_parts(Vec::new(), Balances::new()), Err(LedgerError::BlockNotFound(0)));
}

#[test]
fn ledger_with_another_state_is_refused() {
    let owner = Client::new();
    let other = Client::new();
    let ledger = after_one_transfer(&owner, &other);
    let richer = Balances::from_entries(vec![
        (owner.address(), u64::MAX / 2 - 100),
        (other.address(), 101),
    ]);
    let bytes = encode_ledger(ledger.chain(), &richer);
    assert_eq!(Ledger::from_bytes(bytes), Err(LedgerError::DecodeError));
    let reordered = Balances::from_entries(vec![
        (other.address(), 100),
        (owner.address(), u64::MAX / 2 - 100),
    ]);
    assert_eq!(
        Ledger::from_parts(ledger.chain().to_vec(), reordered),
        Err(LedgerError::DecodeError)
    );
    assert_eq!(Ledger::from_parts(ledger.chain().to_vec(), ledger.state()), Ok(ledger.clone()));
}

#[test]
fn ledger_with_an_empty_state_is_decoded_and_refused() {
    let owner = Client::new();
    let ledger = Ledger::new_for(owner.address()).unwrap();
    let bytes = encode_ledger(ledger.chain(), &Balances::new());
    let (chain, state) = decode_ledger(&bytes).unwrap();
    assert_eq!(chain.as_slice(), ledger.chain());
    assert_eq!(state, Balances::new());
    assert_eq!(Ledger::from_bytes(bytes), Err(LedgerError::DecodeError));
}

#[test]
fn ledger_whose_chain_starts_late_is_refused() {
    let owner = Client::new();
    let other = Client::new();
    let ledger = after_one_transfer(&owner, &other);
    let late = vec![ledger.chain()[1].clone()];
    assert_eq!(
        Ledger::from_parts(late, ledger.state()),
        Err(LedgerError::GenesisBlockError(ledger.chain()[1].clone()))
    );
}

#[test]
fn ledger_with_a_forged_transfer_is_refused() {
    let owner = Client::new();
    let other = Client::new();
    let ledger = Ledger::new_for(owner.address()).unwrap();
    let over = pay(&other, owner.address(), 1);
    let block = ledger.forge(vec![over]).unwrap();
    let chain = vec![ledger.chain()[0].clone(), block];
    assert_eq!(
        Ledger::from_parts(chain, ledger.state()),
        Err(LedgerError::TransactionError(TransactionError::InsufficientBalance {
            address: other.address(),
            transaction: over
        }))
    );
}

#[test]
fn fresh_ledgers_have_the_same_genesis_block() {
    let first = Ledger::new().unwrap();
    let second = Ledger::new().unwrap();
    assert_eq!(first, second);
    assert_eq!(first.encode(), second.encode());
}
