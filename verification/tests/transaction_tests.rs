use lunaria::account::Address;
use lunaria::bytes::DecodeError;
use lunaria::client::Client;
use lunaria::transaction::{
    attach_signature, decode_transactions_at, encode_transactions, sign, signature_len,
    signature_outcome, signing_message, verify_signature, SignatureVerdict, Transaction,
    TransactionError, TransactionType, VerificationFault, SIGNATURE_BYTES, SIGNING_BYTES,
    TRANSACTION_BYTES,
};

fn transfer(amount: u64) -> (Transaction, Client) {
    let client = Client::new();
    let (pk, sk) = client.keypair();
    let to = Address::from([7u8; 32]);
    (sign(TransactionType::Transfer, client.address(), pk, to, amount, &sk), client)
}

fn unsigned() -> Transaction {
    attach_signature(
        TransactionType::Transfer,
        Address::from([1u8; 32]),
        [2u8; 897],
        Address::from([3u8; 32]),
        0x0102030405060708,
        &[4u8; 10],
    )
    .unwrap()
}

#[test]
fn transaction_type_bytes() {
    assert_eq!(TransactionType::Mint.to_bytes(), [0u8]);
    assert_eq!(TransactionType::Transfer.to_bytes(), [1u8]);
    assert_eq!(TransactionType::from_byte(0), Some(TransactionType::Mint));
    assert_eq!(TransactionType::from_byte(1), Some(TransactionType::Transfer));
    assert_eq!(TransactionType::from_byte(2), None);
    assert_eq!(TransactionType::from_byte(255), None);
}

#[test]
fn signing_bytes_are_the_fields_with_the_amount_little_endian() {
    let t = unsigned();
    let message = signing_message(&t);
    assert_eq!(message.len(), SIGNING_BYTES);
    assert_eq!(&message[0..32], &[1u8; 32]);
    assert_eq!(&message[32..929], &[2u8; 897][..]);
    assert_eq!(&message[929..961], &[3u8; 32]);
    assert_eq!(&message[961..969], &[8, 7, 6, 5, 4, 3, 2, 1]);
}

#[test]
fn signing_bytes_do_not_hold_the_type_or_the_signature() {
    let t = unsigned();
    let mut other = t;
    other.tx_type = TransactionType::Mint;
    other.signature = [9u8; 752];
    assert_eq!(signing_message(&t), signing_message(&other));
}

#[test]
fn signature_is_padded_with_zero_bytes() {
    let t = unsigned();
    assert_eq!(&t.signature[0..10], &[4u8; 10]);
    assert_eq!(&t.signature[10..], &[0u8; 742][..]);
    assert_eq!(signature_len(&t.signature), 10);
    assert_eq!(t.tx_type, TransactionType::Transfer);
    assert_eq!(t.from_address, Address::from([1u8; 32]));
    assert_eq!(t.from_public_key, [2u8; 897]);
    assert_eq!(t.to_address, Address::from([3u8; 32]));
    assert_eq!(t.amount, 0x0102030405060708);
}

#[test]
fn signature_length_skips_only_the_zero_bytes_at_the_end() {
    assert_eq!(signature_len(&[0u8; 752]), 0);
    assert_eq!(signature_len(&[1u8; 752]), SIGNATURE_BYTES);
    let mut signature = [0u8; 752];
    signature[5] = 1;
    assert_eq!(signature_len(&signature), 6);
    signature[700] = 2;
    assert_eq!(signature_len(&signature), 701);
}

#[test]
fn signature_longer_than_the_field_is_refused() {
    let r = attach_signature(
        TransactionType::Transfer,
        Address::from([1u8; 32]),
        [2u8; 897],
        Address::from([3u8; 32]),
        5,
        &[4u8; 753],
    );
    assert_eq!(r, Err(TransactionError::SignatureBadLength));
    let full = attach_signature(
        TransactionType::Transfer,
        Address::from([1u8; 32]),
        [2u8; 897],
        Address::from([3u8; 32]),
        5,
        &[4u8; 752],
    );
    assert_eq!(full.unwrap().signature, [4u8; 752]);
}

#[test]
fn signed_transaction_has_the_given_fields() {
    let client = Client::new();
    let (pk, sk) = client.keypair();
    let to = Address::from([7u8; 32]);
    let t = sign(TransactionType::Transfer, client.address(), pk, to, 100, &sk);
    assert_eq!(t.tx_type, TransactionType::Transfer);
    assert_eq!(t.from_address, client.address());
    assert_eq!(t.from_public_key, pk);
    assert_eq!(t.to_address, to);
    assert_eq!(t.amount, 100);
    assert!(signature_len(&t.signature) > 41);
}

#[test]
fn signature_round_trip() {
    let (t, _) = transfer(100);
    assert_eq!(verify_signature(&t), Ok(()));
}

#[test]
fn changed_amount_fails_verification() {
    let (t, _) = transfer(100);
    let mut forged = t;
    forged.amount = 101;
    assert_eq!(
        verify_signature(&forged),
        Err(TransactionError::VerificationError {
            transaction: forged,
            source: VerificationFault::InvalidSignature
        })
    );
}

#[test]
fn changed_recipient_fails_verification() {
    let (t, _) = transfer(100);
    let mut forged = t;
    forged.to_address = Address::from([8u8; 32]);
    assert!(matches!(
        verify_signature(&forged),
        Err(TransactionError::VerificationError { .. })
    ));
}

#[test]
fn changed_public_key_fails_verification() {
    let (t, _) = transfer(100);
    let mut forged = t;
    forged.from_public_key[100] ^= 1;
    assert!(matches!(
        verify_signature(&forged),
        Err(TransactionError::VerificationError { .. })
    ));
    let other = Client::new();
    let mut swapped = t;
    swapped.from_public_key = other.keypair().0;
    assert!(matches!(
        verify_signature(&swapped),
        Err(TransactionError::VerificationError { .. })
    ));
}

#[test]
fn changed_sender_address_fails_verification() {
    let (t, _) = transfer(100);
    let mut forged = t;
    forged.from_address = Address::from([8u8; 32]);
    assert!(matches!(
        verify_signature(&forged),
        Err(TransactionError::VerificationError { .. })
    ));
}

#[test]
fn zero_signature_fails_verification() {
    let t = unsigned();
    assert!(matches!(verify_signature(&t), Err(TransactionError::VerificationError { .. })));
}

#[test]
fn outcome_of_each_verdict() {
    let t = unsigned();
    assert_eq!(signature_outcome(&t, SignatureVerdict::Valid), Ok(()));
    assert_eq!(
        signature_outcome(&t, SignatureVerdict::Invalid),
        Err(TransactionError::VerificationError {
            transaction: t,
            source: VerificationFault::InvalidSignature
        })
    );
    assert_eq!(
        signature_outcome(&t, SignatureVerdict::Unknown),
        Err(TransactionError::VerificationError {
            transaction: t,
            source: VerificationFault::Unknown
        })
    );
    assert_eq!(
        signature_outcome(&t, SignatureVerdict::BadLength),
        Err(TransactionError::SignatureBadLength)
    );
}

#[test]
fn transaction_encoding_layout() {
    let t = unsigned();
    let bytes = t.encode();
    assert_eq!(bytes.len(), TRANSACTION_BYTES);
    assert_eq!(bytes[0], 1);
    assert_eq!(&bytes[1..33], &[1u8; 32]);
    assert_eq!(&bytes[33..930], &[2u8; 897][..]);
    assert_eq!(&bytes[930..940], &[4u8; 10]);
    assert_eq!(&bytes[940..1682], &[0u8; 742][..]);
    assert_eq!(&bytes[1682..1714], &[3u8; 32]);
    assert_eq!(&bytes[1714..1722], &[8, 7, 6, 5, 4, 3, 2, 1]);
}

#[test]
fn transaction_encoding_round_trip() {
    let t = unsigned();
    assert_eq!(Transaction::from_bytes(&t.encode()), Ok(t));
    let (signed, _) = transfer(5);
    assert_eq!(Transaction::from_bytes(&signed.encode()), Ok(signed));
}

#[test]
fn transaction_of_wrong_width_or_type_is_a_decode_error() {
    let t = unsigned();
    let bytes = t.encode();
    assert_eq!(Transaction::from_bytes(&bytes[..1721]), Err(DecodeError));
    let mut longer = bytes.clone();
    longer.push(0);
    assert_eq!(Transaction::from_bytes(&longer), Err(DecodeError));
    let mut tagged = bytes.clone();
    tagged[0] = 2;
    assert_eq!(Transaction::from_bytes(&tagged), Err(DecodeError));
    assert_eq!(Transaction::from_bytes(&[]), Err(DecodeError));
}

#[test]
fn transactions_encoding_has_a_count_and_the_transactions() {
    let t = unsigned();
    let mut u = t;
    u.amount = 9;
    let bytes = encode_transactions(&[t, u]);
    assert_eq!(bytes.len(), 8 + 2 * TRANSACTION_BYTES);
    assert_eq!(&bytes[0..8], &[2, 0, 0, 0, 0, 0, 0, 0]);
    assert_eq!(&bytes[8..8 + TRANSACTION_BYTES], t.encode().as_slice());
    assert_eq!(&bytes[8 + TRANSACTION_BYTES..], u.encode().as_slice());
    assert_eq!(encode_transactions(&[]), vec![0u8; 8]);
}

#[test]
fn transactions_are_read_from_the_middle_of_a_buffer() {
    let t = unsigned();
    let mut buffer = vec![0xaau8; 3];
    buffer.extend_from_slice(&encode_transactions(&[t, t, t]));
    buffer.extend_from_slice(&[0xbb; 5]);
    let (txs, end) = decode_transactions_at(&buffer, 3).unwrap();
    assert_eq!(txs, vec![t, t, t]);
    assert_eq!(end, 3 + 8 + 3 * TRANSACTION_BYTES);
}

#[test]
fn transactions_with_too_few_bytes_are_not_read() {
    let t = unsigned();
    let bytes = encode_transactions(&[t, t]);
    assert_eq!(decode_transactions_at(&bytes[..bytes.len() - 1], 0), None);
    assert_eq!(decode_transactions_at(&bytes[..7], 0), None);
    let mut huge = vec![0xffu8; 8];
    huge.extend_from_slice(&t.encode());
    assert_eq!(decode_transactions_at(&huge, 0), None);
    let mut tagged = bytes.clone();
    tagged[8 + TRANSACTION_BYTES] = 7;
    assert_eq!(decode_transactions_at(&tagged, 0), None);
}
