use lunaria::account::Address;
use lunaria::state::{decode_state_at, Balances, ENTRY_BYTES, TRANSACTION_COST};
use lunaria::transaction::{attach_signature, Transaction, TransactionError, TransactionType};

fn address(byte: u8) -> Address {
    Address::from([byte; 32])
}

fn transaction(tx_type: TransactionType, from: u8, to: u8, amount: u64) -> Transaction {
    attach_signature(tx_type, address(from), [0u8; 897], address(to), amount, &[]).unwrap()
}

fn total(state: &Balances) -> u128 {
    state.entries().iter().map(|entry| entry.1 as u128).sum()
}

#[test]
fn transaction_cost_is_zero() {
    assert_eq!(TRANSACTION_COST, 0);
}

#[test]
fn empty_state_holds_nothing() {
    let state = Balances::new();
    assert_eq!(state.entries().len(), 0);
    assert_eq!(state.balance(&address(1)), 0);
}

#[test]
fn mint_credits_the_recipient() {
    let mut state = Balances::new();
    state.apply_transaction_unchecked(&transaction(TransactionType::Mint, 0, 1, 500));
    assert_eq!(state.entries(), &vec![(address(1), 500)]);
    assert_eq!(state.balance(&address(1)), 500);
    assert_eq!(state.balance(&address(0)), 0);
}

#[test]
fn transfer_moves_the_amount() {
    let mut state = Balances::from_entries(vec![(address(1), 500), (address(2), 7)]);
    state.apply_transaction_unchecked(&transaction(TransactionType::Transfer, 1, 2, 100));
    assert_eq!(state.entries(), &vec![(address(1), 400), (address(2), 107)]);
    state.apply_transaction_unchecked(&transaction(TransactionType::Transfer, 2, 3, 107));
    assert_eq!(state.entries(), &vec![(address(1), 400), (address(2), 0), (address(3), 107)]);
}

#[test]
fn transfer_keeps_the_total() {
    let mut state = Balances::from_entries(vec![(address(1), 500), (address(2), 7)]);
    let before = total(&state);
    state.apply_transaction_unchecked(&transaction(TransactionType::Transfer, 1, 2, 100));
    state.apply_transaction_unchecked(&transaction(TransactionType::Transfer, 2, 9, 50));
    state.apply_transaction_unchecked(&transaction(TransactionType::Transfer, 9, 9, 50));
    assert_eq!(total(&state), before - 3 * TRANSACTION_COST as u128);
}

#[test]
fn transfer_to_oneself_changes_nothing() {
    let mut state = Balances::from_entries(vec![(address(1), 500)]);
    state.apply_transaction_unchecked(&transaction(TransactionType::Transfer, 1, 1, 500));
    assert_eq!(state.entries(), &vec![(address(1), 500)]);
}

#[test]
fn dry_run_accepts_what_the_sender_holds() {
    let state = Balances::from_entries(vec![(address(1), 100)]);
    assert_eq!(
        state.dry_run_transaction(&transaction(TransactionType::Transfer, 1, 2, 100)),
        Ok(())
    );
    assert_eq!(
        state.dry_run_transaction(&transaction(TransactionType::Transfer, 1, 2, 0)),
        Ok(())
    );
    assert_eq!(
        state.dry_run_transaction(&transaction(TransactionType::Transfer, 5, 2, 0)),
        Ok(())
    );
}

#[test]
fn dry_run_refuses_more_than_the_sender_holds() {
    let state = Balances::from_entries(vec![(address(1), 100)]);
    let over = transaction(TransactionType::Transfer, 1, 2, 101);
    assert_eq!(
        state.dry_run_transaction(&over),
        Err(TransactionError::InsufficientBalance { address: address(1), transaction: over })
    );
    let absent = transaction(TransactionType::Transfer, 5, 2, 1);
    assert_eq!(
        state.dry_run_transaction(&absent),
        Err(TransactionError::InsufficientBalance { address: address(5), transaction: absent })
    );
    let most = transaction(TransactionType::Transfer, 1, 2, u64::MAX);
    assert!(state.dry_run_transaction(&most).is_err());
}

#[test]
fn states_are_compared_entry_by_entry() {
    let state = Balances::from_entries(vec![(address(1), 100), (address(2), 5)]);
    assert!(state.same_as(&state.clone()));
    assert!(!state.same_as(&Balances::from_entries(vec![(address(2), 5), (address(1), 100)])));
    assert!(!state.same_as(&Balances::from_entries(vec![(address(1), 100)])));
    assert!(!state.same_as(&Balances::from_entries(vec![(address(1), 100), (address(2), 6)])));
    assert!(!state.same_as(&Balances::from_entries(vec![(address(1), 100), (address(3), 5)])));
}

#[test]
fn state_encoding_layout() {
    let state = Balances::from_entries(vec![(address(1), 0x0102), (address(2), 5)]);
    let bytes = state.encode();
    assert_eq!(bytes.len(), 8 + 2 * ENTRY_BYTES);
    assert_eq!(&bytes[0..8], &[2, 0, 0, 0, 0, 0, 0, 0]);
    assert_eq!(&bytes[8..40], &[1u8; 32]);
    assert_eq!(&bytes[40..48], &[2, 1, 0, 0, 0, 0, 0, 0]);
    assert_eq!(&bytes[48..80], &[2u8; 32]);
    assert_eq!(&bytes[80..88], &[5, 0, 0, 0, 0, 0, 0, 0]);
}

#[test]
fn state_encoding_round_trip() {
    let state = Balances::from_entries(vec![(address(1), 100), (address(2), u64::MAX)]);
    let bytes = state.encode();
    let (read, end) = decode_state_at(&bytes, 0).unwrap();
    assert_eq!(read, state);
    assert_eq!(end, bytes.len());
}

#[test]
fn empty_state_encoding_round_trip() {
    let bytes = Balances::new().encode();
    assert_eq!(bytes, vec![0u8; 8]);
    let (read, end) = decode_state_at(&bytes, 0).unwrap();
    assert_eq!(read, Balances::new());
    assert_eq!(end, 8);
}

#[test]
fn state_with_too_few_bytes_is_not_read() {
    let bytes = Balances::from_entries(vec![(address(1), 100)]).encode();
    assert!(decode_state_at(&bytes[..bytes.len() - 1], 0).is_none());
    assert!(decode_state_at(&bytes[..5], 0).is_none());
    assert!(decode_state_at(&[0xff; 8], 0).is_none());
}
