//! Signed transfers of value between accounts.
use crate::account::{Address, PublicKey, SecretKey};
use crate::bytes::{
    append_bytes, array_at, lemma_array_eq, lemma_concat_of_windows, lemma_concat_push,
    lemma_concat_uniform_len, lemma_concat_window, lemma_u64_le_injective, spec_concat,
    spec_is_at, spec_uniform, u64_le_at, zeros, DecodeError,
};
use pqcrypto::sign::falcon512;
use pqcrypto::traits::sign::{
    DetachedSignature, PublicKey as FalconPublicKey, SecretKey as FalconSecretKey,
    VerificationError,
};
use vstd::bytes::{lemma_auto_spec_u64_to_from_le_bytes, spec_u64_to_le_bytes, u64_to_le_bytes};
use vstd::prelude::*;
use vstd::slice::slice_subrange;

verus! {

/// The width of the signature field. Falcon-512 signatures are at most this
/// long.
pub const SIGNATURE_BYTES: usize = 752;

/// A Falcon-512 detached signature, padded with zero bytes on the right.
pub type Signature = [u8; 752];

/// How many bytes a transaction is signed over.
pub const SIGNING_BYTES: usize = 969;

/// What Falcon-512 says of a signature.
#[derive(Clone, Copy, Debug, PartialEq, Eq, Structural)]
pub enum SignatureVerdict {
    /// The signature is the key's signature of the message.
    Valid,
    /// It is not.
    Invalid,
    /// Verification failed for a reason that the library does not name.
    Unknown,
    /// The library refused the signature or the key for its length.
    BadLength,
}

/// Why a signature was refused.
#[derive(Clone, Copy, Debug, PartialEq, Eq, Structural)]
pub enum VerificationFault {
    InvalidSignature,
    Unknown,
}

/// The verdict of `verify_detached_signature` of `pqcrypto`'s Falcon-512 on
/// a signature, a message and a public key.
pub uninterp spec fn falcon512_verdict(
    signature: Seq<u8>,
    message: Seq<u8>,
    public_key: Seq<u8>,
) -> SignatureVerdict;

/// `falcon512::verify_detached_signature`, after `from_bytes` on the
/// signature and on the key: the verdict is the library's.
#[verifier::external_body]
pub(crate) fn falcon512_verify(signature: &[u8], message: &[u8], public_key: &PublicKey) -> (verdict:
    SignatureVerdict)
    ensures
        verdict == falcon512_verdict(signature@, message@, public_key@),
{
    let signature = falcon512::DetachedSignature::from_bytes(signature);
    let public_key = falcon512::PublicKey::from_bytes(public_key);
    match (signature, public_key) {
        (Ok(s), Ok(k)) => match falcon512::verify_detached_signature(&s, message, &k) {
            Ok(()) => SignatureVerdict::Valid,
            Err(VerificationError::InvalidSignature) => SignatureVerdict::Invalid,
            Err(_) => SignatureVerdict::Unknown,
        },
        _ => SignatureVerdict::BadLength,
    }
}

/// `falcon512::detached_sign`, after `from_bytes` on the key. Signing draws
/// random bytes, so only the length is known: the library's signature buffer
/// has 752 bytes.
#[verifier::external_body]
pub(crate) fn falcon512_sign(message: &[u8], secret_key: &SecretKey) -> (signature: Vec<u8>)
    ensures
        signature@.len() <= SIGNATURE_BYTES,
{
    match falcon512::SecretKey::from_bytes(secret_key) {
        Ok(key) => falcon512::detached_sign(message, &key).as_bytes().to_vec(),
        Err(_) => Vec::new(),
    }
}

/// The kind of a transaction.
#[derive(Clone, Copy, Debug, PartialEq, Eq, Structural)]
pub enum TransactionType {
    /// Creates value. Only the genesis block may hold one.
    Mint,
    /// Moves value from the signer's account to another.
    Transfer,
}

/// The byte that stands for a transaction type.
pub open spec fn spec_type_byte(tx_type: TransactionType) -> u8 {
    match tx_type {
        TransactionType::Mint => 0,
        TransactionType::Transfer => 1,
    }
}

impl TransactionType {
    /// The one byte that stands for the type: 0 for a mint, 1 for a transfer.
    pub fn to_bytes(self) -> (bytes: [u8; 1])
        ensures
            bytes@ == seq![spec_type_byte(self)],
    {
        let bytes = match self {
            TransactionType::Mint => [0u8],
            TransactionType::Transfer => [1u8],
        };
        assert(bytes@ =~= seq![spec_type_byte(self)]);
        bytes
    }

    /// The type that a byte stands for.
    pub fn from_byte(byte: u8) -> (r: Option<TransactionType>)
        ensures
            match r {
                Some(tx_type) => spec_type_byte(tx_type) == byte,
                None => byte > 1,
            },
    {
        if byte == 0 {
            Some(TransactionType::Mint)
        } else if byte == 1 {
            Some(TransactionType::Transfer)
        } else {
            None
        }
    }
}

/// A transfer of `amount` from one account to another, with the sender's
/// public key and signature. In a mint the three sender fields are zero.
#[derive(Clone, Copy, Debug, PartialEq, Eq)]
pub struct Transaction {
    pub tx_type: TransactionType,
    pub from_address: Address,
    pub from_public_key: PublicKey,
    pub signature: Signature,
    pub to_address: Address,
    pub amount: u64,
}

/// What can be wrong with a transaction.
#[derive(Clone, Copy, Debug, PartialEq, Eq)]
pub enum TransactionError {
    /// The signature is not the sender's signature of the transaction.
    VerificationError { transaction: Transaction, source: VerificationFault },
    /// A signature or key does not have the length of its kind.
    SignatureBadLength,
    /// The sender holds less than the amount and the cost.
    InsufficientBalance { address: Address, transaction: Transaction },
    /// The sender's address is not the digest of the public key.
    PublicKeyAddressMismatch,
}

/// The bytes that a transaction's signature covers: sender address, sender
/// public key, recipient address, and the amount little-endian.
pub open spec fn signing_bytes(t: Transaction) -> Seq<u8> {
    t.from_address@ + t.from_public_key@ + t.to_address@ + spec_u64_to_le_bytes(t.amount)
}

/// The length of `s` without the zero bytes at its end.
pub open spec fn unpadded_len(s: Seq<u8>) -> nat
    decreases s.len(),
{
    if s.len() == 0 {
        0
    } else if s.last() != 0 {
        s.len()
    } else {
        unpadded_len(s.drop_last())
    }
}

/// `s` without the zero bytes at its end.
pub open spec fn unpadded(s: Seq<u8>) -> Seq<u8> {
    s.subrange(0, unpadded_len(s) as int)
}

/// A signature filled up to the width of the signature field.
pub open spec fn padded(signature: Seq<u8>) -> Seq<u8> {
    signature + zeros((SIGNATURE_BYTES - signature.len()) as nat)
}

/// What Falcon-512 says of a transaction's signature: the signature field
/// without its padding, checked against the signing bytes and the embedded
/// public key.
pub open spec fn signature_verdict(t: Transaction) -> SignatureVerdict {
    falcon512_verdict(unpadded(t.signature@), signing_bytes(t), t.from_public_key@)
}

/// The result of checking a transaction whose signature got `verdict`.
pub open spec fn spec_signature_outcome(t: Transaction, verdict: SignatureVerdict) -> Result<
    (),
    TransactionError,
> {
    match verdict {
        SignatureVerdict::Valid => Ok(()),
        SignatureVerdict::Invalid => Err(
            TransactionError::VerificationError {
                transaction: t,
                source: VerificationFault::InvalidSignature,
            },
        ),
        SignatureVerdict::Unknown => Err(
            TransactionError::VerificationError {
                transaction: t,
                source: VerificationFault::Unknown,
            },
        ),
        SignatureVerdict::BadLength => Err(TransactionError::SignatureBadLength),
    }
}

/// Padding a signature and stripping the padding gives the signature back,
/// as long as it does not itself end in a zero byte.
pub proof fn lemma_unpadded_padded(signature: Seq<u8>)
    requires
        signature.len() <= SIGNATURE_BYTES,
        signature.len() > 0 ==> signature.last() != 0,
    ensures
        padded(signature).len() == SIGNATURE_BYTES,
        unpadded(padded(signature)) == signature,
{
    lemma_unpadded_of_zeros_after(signature, (SIGNATURE_BYTES - signature.len()) as nat);
}

proof fn lemma_unpadded_of_zeros_after(signature: Seq<u8>, n: nat)
    requires
        signature.len() > 0 ==> signature.last() != 0,
    ensures
        unpadded_len(signature + zeros(n)) == signature.len(),
        unpadded(signature + zeros(n)) == signature,
    decreases n,
{
    let whole = signature + zeros(n);
    if n == 0 {
        assert(whole =~= signature);
    } else {
        assert(whole.last() == 0);
        assert(whole.drop_last() =~= signature + zeros((n - 1) as nat));
        lemma_unpadded_of_zeros_after(signature, (n - 1) as nat);
    }
    assert(whole.subrange(0, signature.len() as int) =~= signature);
}

/// How many bytes the encoding of a transaction has.
pub const TRANSACTION_BYTES: usize = 1722;

/// The encoding of a transaction: the type byte, then the fields as they
/// are, the amount little-endian.
pub open spec fn spec_encode_transaction(t: Transaction) -> Seq<u8> {
    seq![spec_type_byte(t.tx_type)] + t.from_address@ + t.from_public_key@ + t.signature@
        + t.to_address@ + spec_u64_to_le_bytes(t.amount)
}

/// The encodings of the transactions, each by itself.
pub open spec fn spec_transaction_parts(txs: Seq<Transaction>) -> Seq<Seq<u8>> {
    Seq::new(txs.len(), |i: int| spec_encode_transaction(txs[i]))
}

/// The encoding of a vector of transactions: their number as a
/// little-endian `u64`, then their encodings.
pub open spec fn spec_encode_transactions(txs: Seq<Transaction>) -> Seq<u8> {
    spec_u64_to_le_bytes(txs.len() as u64) + spec_concat(spec_transaction_parts(txs))
}

/// The bytes that the signature of `t` covers.
pub fn signing_message(t: &Transaction) -> (message: Vec<u8>)
    ensures
        message@ == signing_bytes(*t),
{
    let mut message: Vec<u8> = Vec::new();
    append_bytes(&mut message, &t.from_address.0);
    append_bytes(&mut message, &t.from_public_key);
    append_bytes(&mut message, &t.to_address.0);
    let amount = u64_to_le_bytes(t.amount);
    append_bytes(&mut message, amount.as_slice());
    assert(message@ =~= signing_bytes(*t));
    message
}

/// A transaction with the given fields and signature. The signature is
/// padded with zero bytes to the width of the field; one that is longer than
/// the field is refused.
pub fn attach_signature(
    tx_type: TransactionType,
    from_address: Address,
    from_public_key: PublicKey,
    to_address: Address,
    amount: u64,
    signature: &[u8],
) -> (r: Result<Transaction, TransactionError>)
    ensures
        match r {
            Ok(t) => {
                &&& signature@.len() <= SIGNATURE_BYTES
                &&& t.tx_type == tx_type
                &&& t.from_address == from_address
                &&& t.from_public_key == from_public_key
                &&& t.to_address == to_address
                &&& t.amount == amount
                &&& t.signature@ == padded(signature@)
            },
            Err(e) => signature@.len() > SIGNATURE_BYTES && e
                == TransactionError::SignatureBadLength,
        },
{
    if signature.len() > SIGNATURE_BYTES {
        return Err(TransactionError::SignatureBadLength);
    }
    let mut field = [0u8; 752];
    let mut i: usize = 0;
    while i < signature.len()
        invariant
            i <= signature.len() <= SIGNATURE_BYTES,
            forall|j: int| 0 <= j < i ==> field@[j] == signature@[j],
            forall|j: int| i <= j < SIGNATURE_BYTES ==> field@[j] == 0,
        decreases signature.len() - i,
    {
        field[i] = signature[i];
        i += 1;
    }
    assert(field@ =~= padded(signature@));
    Ok(Transaction { tx_type, from_address, from_public_key, signature: field, to_address, amount })
}

/// Signs a transaction with the sender's secret key. Falcon-512 signs over
/// the signing bytes; the signature is random, so nothing is promised of it
/// here: `verify_signature` tells whether it holds.
pub fn sign(
    tx_type: TransactionType,
    from_address: Address,
    from_public_key: PublicKey,
    to_address: Address,
    amount: u64,
    secret_key: &SecretKey,
) -> (t: Transaction)
    ensures
        t.tx_type == tx_type,
        t.from_address == from_address,
        t.from_public_key == from_public_key,
        t.to_address == to_address,
        t.amount == amount,
{
    let unsigned = Transaction {
        tx_type,
        from_address,
        from_public_key,
        signature: [0u8; 752],
        to_address,
        amount,
    };
    let message = signing_message(&unsigned);
    let signature = falcon512_sign(message.as_slice(), secret_key);
    match attach_signature(
        tx_type,
        from_address,
        from_public_key,
        to_address,
        amount,
        signature.as_slice(),
    ) {
        Ok(t) => t,
        // Not reached: a Falcon-512 signature fits the field.
        Err(_) => unsigned,
    }
}

/// The length of a signature field without its padding.
pub fn signature_len(signature: &Signature) -> (len: usize)
    ensures
        len == unpadded_len(signature@),
        len <= SIGNATURE_BYTES,
{
    let mut len: usize = SIGNATURE_BYTES;
    assert(signature@.subrange(0, len as int) =~= signature@);
    while len > 0 && signature[len - 1] == 0
        invariant
            len <= SIGNATURE_BYTES,
            unpadded_len(signature@) == unpadded_len(signature@.subrange(0, len as int)),
        decreases len,
    {
        assert(signature@.subrange(0, len as int).drop_last() =~= signature@.subrange(
            0,
            len - 1,
        ));
        len -= 1;
    }
    len
}

/// The result of checking a transaction whose signature got `verdict`.
pub fn signature_outcome(t: &Transaction, verdict: SignatureVerdict) -> (r: Result<
    (),
    TransactionError,
>)
    ensures
        r == spec_signature_outcome(*t, verdict),
{
    match verdict {
        SignatureVerdict::Valid => Ok(()),
        SignatureVerdict::Invalid => Err(
            TransactionError::VerificationError {
                transaction: *t,
                source: VerificationFault::InvalidSignature,
            },
        ),
        SignatureVerdict::Unknown => Err(
            TransactionError::VerificationError {
                transaction: *t,
                source: VerificationFault::Unknown,
            },
        ),
        SignatureVerdict::BadLength => Err(TransactionError::SignatureBadLength),
    }
}

/// Checks the signature of a transaction against its signing bytes and its
/// embedded public key.
pub fn verify_signature(t: &Transaction) -> (r: Result<(), TransactionError>)
    ensures
        r == spec_signature_outcome(*t, signature_verdict(*t)),
{
    let message = signing_message(t);
    let len = signature_len(&t.signature);
    let signature = slice_subrange(t.signature.as_slice(), 0, len);
    let verdict = falcon512_verify(signature, message.as_slice(), &t.from_public_key);
    signature_outcome(t, verdict)
}

impl Transaction {
    /// The encoding of the transaction.
    pub fn encode(&self) -> (bytes: Vec<u8>)
        ensures
            bytes@ == spec_encode_transaction(*self),
            bytes@.len() == TRANSACTION_BYTES,
    {
        let mut bytes: Vec<u8> = Vec::new();
        self.encode_into(&mut bytes);
        assert(bytes@ =~= spec_encode_transaction(*self));
        proof {
            lemma_encode_transaction_fields(*self);
        }
        bytes
    }

    /// Appends the encoding of the transaction to `out`.
    pub fn encode_into(&self, out: &mut Vec<u8>)
        ensures
            final(out)@ == old(out)@ + spec_encode_transaction(*self),
    {
        let tag = self.tx_type.to_bytes();
        append_bytes(out, &tag);
        append_bytes(out, &self.from_address.0);
        append_bytes(out, &self.from_public_key);
        append_bytes(out, &self.signature);
        append_bytes(out, &self.to_address.0);
        let amount = u64_to_le_bytes(self.amount);
        append_bytes(out, amount.as_slice());
        assert(out@ =~= old(out)@ + spec_encode_transaction(*self));
    }
}

/// The encoding of a vector of transactions.
pub fn encode_transactions(txs: &[Transaction]) -> (bytes: Vec<u8>)
    ensures
        bytes@ == spec_encode_transactions(txs@),
{
    let mut bytes: Vec<u8> = Vec::new();
    encode_transactions_into(txs, &mut bytes);
    assert(bytes@ =~= spec_encode_transactions(txs@));
    bytes
}

/// Appends the encoding of a vector of transactions to `out`.
pub fn encode_transactions_into(txs: &[Transaction], out: &mut Vec<u8>)
    ensures
        final(out)@ == old(out)@ + spec_encode_transactions(txs@),
{
    let count = u64_to_le_bytes(txs.len() as u64);
    append_bytes(out, count.as_slice());
    let mut i: usize = 0;
    assert(spec_transaction_parts(txs@.subrange(0, 0)) =~= Seq::<Seq<u8>>::empty());
    while i < txs.len()
        invariant
            i <= txs.len(),
            out@ == old(out)@ + spec_u64_to_le_bytes(txs@.len() as u64) + spec_concat(
                spec_transaction_parts(txs@.subrange(0, i as int)),
            ),
        decreases txs.len() - i,
    {
        txs[i].encode_into(out);
        proof {
            let done = spec_transaction_parts(txs@.subrange(0, i as int));
            let part = spec_encode_transaction(txs@[i as int]);
            assert(spec_transaction_parts(txs@.subrange(0, i + 1)) =~= done.push(part));
            lemma_concat_push(done, part);
        }
        i += 1;
    }
    assert(txs@.subrange(0, txs@.len() as int) =~= txs@);
    assert(out@ =~= old(out)@ + spec_encode_transactions(txs@));
}

/// Where the fields stand in the encoding of a transaction.
pub proof fn lemma_encode_transaction_fields(t: Transaction)
    ensures
        spec_encode_transaction(t).len() == TRANSACTION_BYTES,
        spec_encode_transaction(t)[0] == spec_type_byte(t.tx_type),
        spec_encode_transaction(t).subrange(1, 33) == t.from_address@,
        spec_encode_transaction(t).subrange(33, 930) == t.from_public_key@,
        spec_encode_transaction(t).subrange(930, 1682) == t.signature@,
        spec_encode_transaction(t).subrange(1682, 1714) == t.to_address@,
        spec_encode_transaction(t).subrange(1714, 1722) == spec_u64_to_le_bytes(t.amount),
{
    lemma_auto_spec_u64_to_from_le_bytes();
    let e = spec_encode_transaction(t);
    assert(e.subrange(1, 33) =~= t.from_address@);
    assert(e.subrange(33, 930) =~= t.from_public_key@);
    assert(e.subrange(930, 1682) =~= t.signature@);
    assert(e.subrange(1682, 1714) =~= t.to_address@);
    assert(e.subrange(1714, 1722) =~= spec_u64_to_le_bytes(t.amount));
}

/// Two transactions with the same encoding are the same.
pub proof fn lemma_encode_transaction_injective(a: Transaction, b: Transaction)
    requires
        spec_encode_transaction(a) == spec_encode_transaction(b),
    ensures
        a == b,
{
    lemma_encode_transaction_fields(a);
    lemma_encode_transaction_fields(b);
    lemma_array_eq(a.from_address.0, b.from_address.0);
    lemma_array_eq(a.from_public_key, b.from_public_key);
    lemma_array_eq(a.signature, b.signature);
    lemma_array_eq(a.to_address.0, b.to_address.0);
    lemma_u64_le_injective(a.amount, b.amount);
}

/// `r` is the result of reading `bytes` as a transaction: the transaction
/// that they are the encoding of, or an error if there is none.
pub open spec fn spec_transaction_read(bytes: Seq<u8>, r: Result<Transaction, DecodeError>) -> bool {
    match r {
        Ok(t) => spec_encode_transaction(t) == bytes,
        Err(_) => forall|t: Transaction| #[trigger] spec_encode_transaction(t) != bytes,
    }
}

/// Reading the encoding of a transaction gives that transaction back.
pub proof fn lemma_transaction_read_encoded(t: Transaction, r: Result<Transaction, DecodeError>)
    requires
        spec_transaction_read(spec_encode_transaction(t), r),
    ensures
        r == Ok::<Transaction, DecodeError>(t),
{
    match r {
        Ok(read) => {
            lemma_encode_transaction_injective(read, t);
        },
        Err(_) => {
            assert(spec_encode_transaction(t) == spec_encode_transaction(t));
        },
    }
}

/// The transaction whose encoding are the `TRANSACTION_BYTES` bytes from
/// `at` on, if they are the encoding of one.
pub fn decode_transaction_at(bytes: &[u8], at: usize) -> (r: Option<Transaction>)
    requires
        at + TRANSACTION_BYTES <= bytes@.len(),
    ensures
        match r {
            Some(t) => spec_encode_transaction(t) == bytes@.subrange(
                at as int,
                at + TRANSACTION_BYTES,
            ),
            None => forall|t: Transaction|
                #[trigger] spec_encode_transaction(t) != bytes@.subrange(
                    at as int,
                    at + TRANSACTION_BYTES,
                ),
        },
{
    let len = bytes.len();
    let ghost window = bytes@.subrange(at as int, at + TRANSACTION_BYTES);
    let tag = bytes[at];
    assert(window[0] == tag);
    match TransactionType::from_byte(tag) {
        None => {
            assert forall|t: Transaction| #[trigger] spec_encode_transaction(t) != window by {
                lemma_encode_transaction_fields(t);
            }
            None
        },
        Some(tx_type) => {
            let t = Transaction {
                tx_type,
                from_address: Address(array_at::<32>(bytes, at + 1)),
                from_public_key: array_at::<897>(bytes, at + 33),
                signature: array_at::<752>(bytes, at + 930),
                to_address: Address(array_at::<32>(bytes, at + 1682)),
                amount: u64_le_at(bytes, at + 1714),
            };
            proof {
                lemma_encode_transaction_fields(t);
                assert(spec_encode_transaction(t) =~= window);
            }
            Some(t)
        },
    }
}

impl Transaction {
    /// The transaction that `bytes` is the encoding of.
    pub fn from_bytes(bytes: &[u8]) -> (r: Result<Transaction, DecodeError>)
        ensures
            spec_transaction_read(bytes@, r),
    {
        if bytes.len() != TRANSACTION_BYTES {
            assert forall|t: Transaction| #[trigger] spec_encode_transaction(t) != bytes@ by {
                lemma_encode_transaction_fields(t);
            }
            return Err(DecodeError);
        }
        assert(bytes@.subrange(0, TRANSACTION_BYTES as int) =~= bytes@);
        match decode_transaction_at(bytes, 0) {
            Some(t) => Ok(t),
            None => Err(DecodeError),
        }
    }
}

/// The encodings of transactions all have `TRANSACTION_BYTES` bytes.
pub proof fn lemma_transaction_parts_uniform(txs: Seq<Transaction>)
    ensures
        spec_uniform(spec_transaction_parts(txs), TRANSACTION_BYTES as nat),
{
    assert forall|i: int| 0 <= i < txs.len() implies (#[trigger] spec_transaction_parts(
        txs,
    )[i]).len() == TRANSACTION_BYTES by {
        lemma_encode_transaction_fields(txs[i]);
    }
}

/// Where the parts of an encoded vector of transactions stand.
pub proof fn lemma_transactions_at(bytes: Seq<u8>, at: int, end: int, txs: Seq<Transaction>)
    requires
        spec_is_at(bytes, at, end, spec_encode_transactions(txs)),
    ensures
        end == at + 8 + TRANSACTION_BYTES * txs.len(),
        bytes.subrange(at, at + 8) == spec_u64_to_le_bytes(txs.len() as u64),
        forall|i: int|
            0 <= i < txs.len() ==> bytes.subrange(
                at + 8 + TRANSACTION_BYTES * i,
                at + 8 + TRANSACTION_BYTES * i + TRANSACTION_BYTES,
            ) == spec_encode_transaction(#[trigger] txs[i]),
{
    lemma_auto_spec_u64_to_from_le_bytes();
    let parts = spec_transaction_parts(txs);
    let list = spec_concat(parts);
    let whole = spec_encode_transactions(txs);
    lemma_transaction_parts_uniform(txs);
    lemma_concat_uniform_len(parts, TRANSACTION_BYTES as nat);
    let count = spec_u64_to_le_bytes(txs.len() as u64);
    assert(count.len() == 8);
    assert(list.len() == TRANSACTION_BYTES * txs.len());
    assert(whole == count + list);
    assert(whole.len() == 8 + list.len());
    assert(bytes.subrange(at, end).len() == end - at);
    assert(bytes.subrange(at, at + 8) =~= whole.subrange(0, 8));
    assert(whole.subrange(0, 8) =~= spec_u64_to_le_bytes(txs.len() as u64));
    assert forall|i: int| 0 <= i < txs.len() implies bytes.subrange(
        at + 8 + TRANSACTION_BYTES * i,
        at + 8 + TRANSACTION_BYTES * i + TRANSACTION_BYTES,
    ) == spec_encode_transaction(#[trigger] txs[i]) by {
        lemma_concat_window(parts, TRANSACTION_BYTES as nat, i);
        let from = TRANSACTION_BYTES * i;
        assert(list.subrange(from, from + TRANSACTION_BYTES) == parts[i]);
        let inner = bytes.subrange(at, end);
        assert(bytes.subrange(at + 8 + from, at + 8 + from + TRANSACTION_BYTES)
            =~= inner.subrange(8 + from, 8 + from + TRANSACTION_BYTES));
        assert(whole.subrange(8 + from, 8 + from + TRANSACTION_BYTES) =~= list.subrange(
            from,
            from + TRANSACTION_BYTES,
        ));
    }
}

/// A string that holds the number of the transactions and then, one after
/// the other, their encodings, holds the encoding of the vector.
pub proof fn lemma_transactions_of_windows(bytes: Seq<u8>, at: int, txs: Seq<Transaction>)
    requires
        0 <= at,
        at + 8 + TRANSACTION_BYTES * txs.len() <= bytes.len(),
        bytes.subrange(at, at + 8) == spec_u64_to_le_bytes(txs.len() as u64),
        forall|i: int|
            0 <= i < txs.len() ==> bytes.subrange(
                at + 8 + TRANSACTION_BYTES * i,
                at + 8 + TRANSACTION_BYTES * i + TRANSACTION_BYTES,
            ) == spec_encode_transaction(#[trigger] txs[i]),
    ensures
        spec_is_at(
            bytes,
            at,
            at + 8 + TRANSACTION_BYTES * txs.len(),
            spec_encode_transactions(txs),
        ),
{
    let parts = spec_transaction_parts(txs);
    let end = at + 8 + TRANSACTION_BYTES * txs.len();
    let body = bytes.subrange(at + 8, end);
    lemma_transaction_parts_uniform(txs);
    assert forall|i: int| 0 <= i < parts.len() implies body.subrange(
        TRANSACTION_BYTES * i,
        TRANSACTION_BYTES * i + TRANSACTION_BYTES,
    ) == #[trigger] parts[i] by {
        assert(parts[i] == spec_encode_transaction(txs[i]));
        assert(body.subrange(TRANSACTION_BYTES * i, TRANSACTION_BYTES * i + TRANSACTION_BYTES)
            =~= bytes.subrange(
            at + 8 + TRANSACTION_BYTES * i,
            at + 8 + TRANSACTION_BYTES * i + TRANSACTION_BYTES,
        ));
    }
    lemma_concat_of_windows(parts, TRANSACTION_BYTES as nat, body);
    assert(bytes.subrange(at, end) =~= bytes.subrange(at, at + 8) + body);
}

/// Two vectors of transactions whose encodings start at the same place of
/// a string are the same vector.
pub proof fn lemma_transactions_unique(
    bytes: Seq<u8>,
    at: int,
    end: int,
    txs: Seq<Transaction>,
    other_end: int,
    others: Seq<Transaction>,
)
    requires
        spec_is_at(bytes, at, end, spec_encode_transactions(txs)),
        spec_is_at(bytes, at, other_end, spec_encode_transactions(others)),
        txs.len() <= u64::MAX,
        others.len() <= u64::MAX,
    ensures
        end == other_end,
        txs == others,
{
    lemma_transactions_at(bytes, at, end, txs);
    lemma_transactions_at(bytes, at, other_end, others);
    lemma_u64_le_injective(txs.len() as u64, others.len() as u64);
    assert forall|i: int| 0 <= i < txs.len() implies txs[i] == others[i] by {
        lemma_encode_transaction_injective(txs[i], others[i]);
    }
    assert(txs =~= others);
}

/// The vector of transactions whose encoding starts at `at`, and where the
/// encoding ends, if there is such a vector.
pub fn decode_transactions_at(bytes: &[u8], at: usize) -> (r: Option<(Vec<Transaction>, usize)>)
    requires
        at <= bytes@.len(),
    ensures
        match r {
            Some((txs, end)) => spec_is_at(
                bytes@,
                at as int,
                end as int,
                spec_encode_transactions(txs@),
            ),
            None => forall|txs: Seq<Transaction>, end: int|
                txs.len() <= u64::MAX ==> !#[trigger] spec_is_at(
                    bytes@,
                    at as int,
                    end,
                    spec_encode_transactions(txs),
                ),
        },
{
    let len = bytes.len();
    if len - at < 8 {
        assert forall|txs: Seq<Transaction>, end: int| txs.len() <= u64::MAX implies !#[trigger] spec_is_at(
            bytes@,
            at as int,
            end,
            spec_encode_transactions(txs),
        ) by {
            if spec_is_at(bytes@, at as int, end, spec_encode_transactions(txs)) {
                lemma_transactions_at(bytes@, at as int, end, txs);
            }
        }
        return None;
    }
    let count = u64_le_at(bytes, at);
    let room = (len - at - 8) / TRANSACTION_BYTES;
    if count > room as u64 {
        assert forall|txs: Seq<Transaction>, end: int| txs.len() <= u64::MAX implies !#[trigger] spec_is_at(
            bytes@,
            at as int,
            end,
            spec_encode_transactions(txs),
        ) by {
            if spec_is_at(bytes@, at as int, end, spec_encode_transactions(txs)) {
                lemma_transactions_at(bytes@, at as int, end, txs);
                lemma_u64_le_injective(txs.len() as u64, count);
            }
        }
        return None;
    }
    let n = count as usize;
    let mut txs: Vec<Transaction> = Vec::new();
    let mut i: usize = 0;
    while i < n
        invariant
            i <= n,
            n == count,
            len == bytes@.len(),
            at + 8 + TRANSACTION_BYTES * n <= len,
            spec_u64_to_le_bytes(count) == bytes@.subrange(at as int, at + 8),
            txs@.len() == i,
            forall|j: int|
                0 <= j < i ==> bytes@.subrange(
                    at + 8 + TRANSACTION_BYTES * j,
                    at + 8 + TRANSACTION_BYTES * j + TRANSACTION_BYTES,
                ) == spec_encode_transaction(#[trigger] txs@[j]),
        decreases n - i,
    {
        let from = at + 8 + TRANSACTION_BYTES * i;
        match decode_transaction_at(bytes, from) {
            None => {
                assert forall|all: Seq<Transaction>, end: int| all.len() <= u64::MAX implies !#[trigger] spec_is_at(
                    bytes@,
                    at as int,
                    end,
                    spec_encode_transactions(all),
                ) by {
                    if spec_is_at(bytes@, at as int, end, spec_encode_transactions(all)) {
                        lemma_transactions_at(bytes@, at as int, end, all);
                        lemma_u64_le_injective(all.len() as u64, count);
                        assert(spec_encode_transaction(all[i as int]) == bytes@.subrange(
                            from as int,
                            from + TRANSACTION_BYTES,
                        ));
                    }
                }
                return None;
            },
            Some(t) => {
                txs.push(t);
            },
        }
        i += 1;
    }
    proof {
        lemma_transactions_of_windows(bytes@, at as int, txs@);
    }
    Some((txs, at + 8 + TRANSACTION_BYTES * n))
}

} // verus!
