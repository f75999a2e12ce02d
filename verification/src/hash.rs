//! SHA3-256 digests: the `Hash` value, its proof-of-work difficulty, and the
//! streaming hasher that the nonce search clones.
use crate::bytes::{
    append_bytes, array_at, bytes_equal, lemma_array_eq, DecodeError, spec_u128_to_be_bytes, spec_u64_to_be_bytes, u128_to_be_bytes,
    u64_to_be_bytes, zeros,
};
use sha3::Digest;
use vstd::prelude::*;
use vstd::std_specs::bits::*;
use vstd::std_specs::cmp::PartialEqSpecImpl;
use vstd::std_specs::convert::FromSpecImpl;

verus! {

/// The SHA3-256 digest of `data`, as the `sha3` crate computes it.
pub uninterp spec fn sha3_256(data: Seq<u8>) -> Seq<u8>;

/// The bytes that a running SHA3-256 state has taken in since it was created
/// or last finished.
pub uninterp spec fn absorbed(state: Sha3State) -> Seq<u8>;

/// A running SHA3-256 computation of the `sha3` crate.
#[verifier::external_body]
pub struct Sha3State {
    inner: sha3::Sha3_256,
}

impl Sha3State {
    /// `sha3::Sha3_256::new`: a state that has taken in nothing.
    #[verifier::external_body]
    pub(crate) fn start() -> (state: Sha3State)
        ensures
            absorbed(state) == Seq::<u8>::empty(),
    {
        Sha3State { inner: sha3::Sha3_256::new() }
    }

    /// `Digest::update`: the state takes in `data` after what it holds.
    #[verifier::external_body]
    pub(crate) fn absorb(&mut self, data: &[u8])
        ensures
            absorbed(*final(self)) == absorbed(*old(self)) + data@,
    {
        self.inner.update(data)
    }

    /// `Digest::finalize_reset`: the digest of everything taken in; the state
    /// is left as new.
    #[verifier::external_body]
    pub(crate) fn finish(&mut self) -> (out: [u8; 32])
        ensures
            out@ == sha3_256(absorbed(*old(self))),
            absorbed(*final(self)) == Seq::<u8>::empty(),
    {
        self.inner.finalize_reset().into()
    }

    /// `Clone::clone` of `sha3::Sha3_256`: a second state that has taken in
    /// the same bytes.
    #[verifier::external_body]
    pub(crate) fn fork(&self) -> (copy: Sha3State)
        ensures
            absorbed(copy) == absorbed(*self),
    {
        Sha3State { inner: self.inner.clone() }
    }
}

/// The lowercase hexadecimal digit of a value below 16.
pub open spec fn hex_digit(nibble: int) -> char {
    if nibble == 0 {
        '0'
    } else if nibble == 1 {
        '1'
    } else if nibble == 2 {
        '2'
    } else if nibble == 3 {
        '3'
    } else if nibble == 4 {
        '4'
    } else if nibble == 5 {
        '5'
    } else if nibble == 6 {
        '6'
    } else if nibble == 7 {
        '7'
    } else if nibble == 8 {
        '8'
    } else if nibble == 9 {
        '9'
    } else if nibble == 10 {
        'a'
    } else if nibble == 11 {
        'b'
    } else if nibble == 12 {
        'c'
    } else if nibble == 13 {
        'd'
    } else if nibble == 14 {
        'e'
    } else {
        'f'
    }
}

/// Lowercase hexadecimal text: two digits per byte, high digit first.
pub open spec fn spec_hex(data: Seq<u8>) -> Seq<char> {
    Seq::new(
        2 * data.len(),
        |i: int|
            if i % 2 == 0 {
                hex_digit(data[i / 2] as int / 16)
            } else {
                hex_digit(data[i / 2] as int % 16)
            },
    )
}

/// `hex::encode`: each byte becomes two lowercase hexadecimal digits.
#[verifier::external_body]
pub(crate) fn hex_encode(data: &[u8]) -> (text: String)
    ensures
        text@ == spec_hex(data@),
{
    hex::encode(data)
}

/// A SHA3-256 digest: 32 opaque bytes.
#[derive(Clone, Copy, Debug)]
pub struct Hash(pub [u8; 32]);

impl View for Hash {
    type V = Seq<u8>;

    open spec fn view(&self) -> Seq<u8> {
        self.0@
    }
}

impl PartialEq for Hash {
    fn eq(&self, other: &Self) -> (r: bool) {
        bytes_equal(&self.0, &other.0)
    }
}

impl Eq for Hash {

}

impl PartialEqSpecImpl for Hash {
    open spec fn obeys_eq_spec() -> bool {
        true
    }

    open spec fn eq_spec(&self, other: &Self) -> bool {
        self.0@ == other.0@
    }
}

impl From<[u8; 32]> for Hash {
    fn from(array: [u8; 32]) -> (hash: Self) {
        Hash(array)
    }
}

impl FromSpecImpl<[u8; 32]> for Hash {
    open spec fn obeys_from_spec() -> bool {
        true
    }

    open spec fn from_spec(array: [u8; 32]) -> Self {
        Hash(array)
    }
}

/// The number of zero bits before the first one bit, reading the bytes in
/// order and each byte from its highest bit.
pub open spec fn leading_zero_bits(bytes: Seq<u8>) -> nat
    decreases bytes.len(),
{
    if bytes.len() == 0 {
        0
    } else if bytes[0] == 0 {
        8 + leading_zero_bits(bytes.drop_first())
    } else {
        u8_leading_zeros(bytes[0]) as nat
    }
}

/// What every block hash starts from: index and timestamp big-endian, the
/// previous hash, the payload.
pub open spec fn block_prefix(
    index: u64,
    timestamp: u128,
    previous_hash: Seq<u8>,
    data: Seq<u8>,
) -> Seq<u8> {
    spec_u64_to_be_bytes(index) + spec_u128_to_be_bytes(timestamp) + previous_hash + data
}

/// The hash of a block: SHA3-256 of the prefix followed by the big-endian
/// nonce.
pub open spec fn block_hash(
    index: u64,
    timestamp: u128,
    previous_hash: Seq<u8>,
    data: Seq<u8>,
    nonce: u64,
) -> Seq<u8> {
    sha3_256(block_prefix(index, timestamp, previous_hash, data) + spec_u64_to_be_bytes(nonce))
}

/// SHA3-256 of `data` in one call.
pub fn digest(data: &[u8]) -> (hash: Hash)
    ensures
        hash@ == sha3_256(data@),
{
    let mut state = Sha3State::start();
    state.absorb(data);
    assert(Seq::<u8>::empty() + data@ == data@);
    Hash(state.finish())
}

impl Hash {
    /// The hash of all zero bytes, which stands before the genesis block.
    pub fn zero() -> (hash: Hash)
        ensures
            hash@ == zeros(32),
    {
        let hash = Hash([0u8; 32]);
        assert(hash@ =~= zeros(32));
        hash
    }

    /// The hash of a block with the given fields and nonce.
    pub fn new(index: u64, timestamp: u128, previous_hash: Hash, data: &[u8], nonce: u64) -> (hash:
        Hash)
        ensures
            hash@ == block_hash(index, timestamp, previous_hash@, data@, nonce),
    {
        let mut hasher = BlockHasher::new(index, timestamp, previous_hash, data);
        hasher.hash_nonce(nonce)
    }

    /// The number of leading zero bits, from 0 to 256.
    pub fn difficulty(&self) -> (count: usize)
        ensures
            count == leading_zero_bits(self@),
            count <= 256,
    {
        let mut count: usize = 0;
        let mut i: usize = 0;
        assert(self@.skip(0) == self@);
        while i < 32
            invariant
                i <= 32,
                count == 8 * i,
                leading_zero_bits(self@) == count + leading_zero_bits(self@.skip(i as int)),
            decreases 32 - i,
        {
            let byte = self.0[i];
            assert(self@.skip(i as int)[0] == byte);
            if byte != 0 {
                let zeros: u32 = byte.leading_zeros();
                proof {
                    axiom_u8_leading_zeros(byte);
                }
                return count + zeros as usize;
            }
            assert(self@.skip(i as int).drop_first() == self@.skip(i + 1));
            count += 8;
            i += 1;
        }
        count
    }

    /// The 32 bytes.
    pub fn as_bytes(&self) -> (bytes: &[u8; 32])
        ensures
            bytes@ == self@,
    {
        &self.0
    }

    /// The encoding of the hash: its 32 bytes.
    pub fn encode(&self) -> (bytes: Vec<u8>)
        ensures
            bytes@ == self@,
    {
        let mut bytes: Vec<u8> = Vec::new();
        append_bytes(&mut bytes, &self.0);
        assert(bytes@ =~= self@);
        bytes
    }

    /// The hash that `bytes` is the encoding of: there is one if there are
    /// exactly 32 bytes.
    pub fn from_bytes(bytes: &[u8]) -> (r: Result<Hash, DecodeError>)
        ensures
            match r {
                Ok(hash) => hash@ == bytes@,
                Err(_) => bytes@.len() != 32,
            },
    {
        if bytes.len() == 32 {
            let array = array_at::<32>(bytes, 0);
            assert(bytes@.subrange(0, 32) =~= bytes@);
            Ok(Hash(array))
        } else {
            Err(DecodeError)
        }
    }

    /// The digest as 64 lowercase hexadecimal digits.
    pub fn to_hex(&self) -> (text: String)
        ensures
            text@ == spec_hex(self@),
            text@.len() == 64,
    {
        hex_encode(&self.0)
    }
}

/// A SHA3-256 state that has taken in a block's prefix, ready to be cloned
/// for each candidate nonce.
pub struct BlockHasher {
    state: Sha3State,
}

impl View for BlockHasher {
    type V = Seq<u8>;

    closed spec fn view(&self) -> Seq<u8> {
        absorbed(self.state)
    }
}

impl Clone for BlockHasher {
    fn clone(&self) -> (copy: Self)
        ensures
            copy@ == self@,
    {
        BlockHasher { state: self.state.fork() }
    }
}

impl BlockHasher {
    /// A hasher that has taken in the prefix of a block.
    pub fn new(index: u64, timestamp: u128, previous_hash: Hash, data: &[u8]) -> (hasher: Self)
        ensures
            hasher@ == block_prefix(index, timestamp, previous_hash@, data@),
    {
        let mut state = Sha3State::start();
        let index_bytes = u64_to_be_bytes(index);
        state.absorb(index_bytes.as_slice());
        let timestamp_bytes = u128_to_be_bytes(timestamp);
        state.absorb(timestamp_bytes.as_slice());
        state.absorb(&previous_hash.0);
        state.absorb(data);
        assert(absorbed(state) =~= block_prefix(index, timestamp, previous_hash@, data@));
        BlockHasher { state }
    }

    /// Takes in the big-endian nonce and returns the digest of everything
    /// taken in. The hasher is left empty: clone it first to keep the prefix.
    pub fn hash_nonce(&mut self, nonce: u64) -> (hash: Hash)
        ensures
            hash@ == sha3_256(old(self)@ + spec_u64_to_be_bytes(nonce)),
            final(self)@ == Seq::<u8>::empty(),
    {
        let nonce_bytes = u64_to_be_bytes(nonce);
        self.state.absorb(nonce_bytes.as_slice());
        Hash(self.state.finish())
    }
}

/// A string has no more leading zero bits than it has bits.
pub proof fn lemma_leading_zero_bits_bound(bytes: Seq<u8>)
    ensures
        leading_zero_bits(bytes) <= 8 * bytes.len(),
    decreases bytes.len(),
{
    if bytes.len() > 0 {
        if bytes[0] == 0 {
            lemma_leading_zero_bits_bound(bytes.drop_first());
        } else {
            axiom_u8_leading_zeros(bytes[0]);
        }
    }
}

/// A string has eight leading zero bits or more exactly if its first byte
/// is zero: the standard difficulty asks for one zero byte.
pub proof fn lemma_leading_zero_byte(bytes: Seq<u8>)
    requires
        bytes.len() > 0,
    ensures
        leading_zero_bits(bytes) >= 8 <==> bytes[0] == 0,
{
    axiom_u8_leading_zeros(bytes[0]);
}

/// Two hashes with the same bytes are the same value.
pub proof fn lemma_hash_eq(a: Hash, b: Hash)
    requires
        a@ == b@,
    ensures
        a == b,
{
    lemma_array_eq(a.0, b.0);
}

/// Reading the encoding of a hash gives that hash back.
pub proof fn lemma_hash_read_encoded(hash: Hash, r: Result<Hash, DecodeError>)
    requires
        match r {
            Ok(read) => read@ == hash@,
            Err(_) => hash@.len() != 32,
        },
    ensures
        r == Ok::<Hash, DecodeError>(hash),
{
    if let Ok(read) = r {
        lemma_hash_eq(read, hash);
    }
}

/// Hashing is a function of the block's fields: whatever way two hashes of
/// the same fields and nonce were computed, they are the same value.
pub proof fn lemma_block_hash_deterministic(
    first: Hash,
    second: Hash,
    index: u64,
    timestamp: u128,
    previous_hash: Hash,
    data: Seq<u8>,
    nonce: u64,
)
    requires
        first@ == block_hash(index, timestamp, previous_hash@, data, nonce),
        second@ == block_hash(index, timestamp, previous_hash@, data, nonce),
    ensures
        first == second,
{
    lemma_hash_eq(first, second);
}

} // verus!
