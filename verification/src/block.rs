//! Blocks: a batch of transactions sealed by proof of work.
use crate::account::{spec_parsed, Address, AddressParseError};
use crate::bytes::{
    all_zero, append_bytes, array_at, lemma_array_eq, lemma_is_at_within, lemma_u128_le_injective,
    lemma_u64_le_injective, lemma_zero_array, spec_is_at, spec_u64_to_be_bytes, u128_le_at,
    u64_le_at, zero_array, zeros,
};
use crate::hash;
use crate::hash::{block_prefix, leading_zero_bits, lemma_hash_eq, sha3_256, BlockHasher};
use crate::transaction::{
    decode_transactions_at, encode_transactions, encode_transactions_into,
    lemma_transactions_unique, spec_encode_transactions, Transaction, TransactionType,
};
use vstd::bytes::{
    lemma_auto_spec_u128_to_from_le_bytes, lemma_auto_spec_u64_to_from_le_bytes,
    spec_u128_to_le_bytes, spec_u64_to_le_bytes, u128_to_le_bytes, u64_to_le_bytes,
};
use rayon::iter::{IntoParallelIterator, ParallelIterator};
use std::sync::atomic::{AtomicBool, Ordering};
use vstd::prelude::*;

verus! {

/// How many leading zero bits the hash of a block must have.
pub const DIFFICULTY: usize = 8;

/// How many nonces a forge tries, from zero up.
pub const MAX_NONCE_ATTEMPTS: u64 = 1_000_000_000;

/// What the genesis block mints: half of `u64::MAX`.
pub const GENESIS_MINT_AMOUNT: u64 = 9_223_372_036_854_775_807;

/// Who receives what the genesis block mints.
pub const GENESIS_MINT_ADDRESS: &'static str = "9JEuZSy4CmRM8wMiE368Bx5jkgK5SLH1KvRDiUcNRjsV";

/// The hash of a block.
pub type BlockHash = hash::Hash;

/// What can be wrong with a block.
#[derive(Clone, Copy, Debug, PartialEq, Eq)]
#[allow(inconsistent_fields)]
pub enum BlockError {
    /// The stored hash is not the hash of the block, or has too few leading
    /// zero bits.
    InvalidHash { got: hash::Hash, want: hash::Hash },
    /// The block does not name the hash of the block before it.
    InvalidPreviousHash { got: hash::Hash, want: hash::Hash },
    /// The block's index is not one more than that of the block before it.
    InvalidIndex { got: u64, want: u64 },
    /// The bytes are not the encoding of a block.
    DecodeError,
    /// The genesis recipient is not an address.
    GenesisTransactionError(AddressParseError),
    /// No nonce that was tried gives a hash with enough leading zero bits.
    NonceTooHard,
}

/// A block of the chain.
#[derive(Debug, PartialEq, Eq)]
pub struct Block {
    index: u64,
    timestamp: u128,
    hash: hash::Hash,
    previous_hash: hash::Hash,
    transactions: Vec<Transaction>,
    nonce: u64,
}

/// What a block holds.
pub struct BlockView {
    pub index: u64,
    pub timestamp: u128,
    pub hash: hash::Hash,
    pub previous_hash: hash::Hash,
    pub transactions: Seq<Transaction>,
    pub nonce: u64,
}

impl View for Block {
    type V = BlockView;

    closed spec fn view(&self) -> BlockView {
        BlockView {
            index: self.index,
            timestamp: self.timestamp,
            hash: self.hash,
            previous_hash: self.previous_hash,
            transactions: self.transactions@,
            nonce: self.nonce,
        }
    }
}

/// The blocks of a vector.
pub open spec fn spec_blocks(chain: Seq<Block>) -> Seq<BlockView> {
    Seq::new(chain.len(), |i: int| chain[i]@)
}

/// The hash that a nonce gives after a prefix.
pub open spec fn spec_nonce_hash(prefix: Seq<u8>, nonce: u64) -> Seq<u8> {
    sha3_256(prefix + spec_u64_to_be_bytes(nonce))
}

/// Whether the hash that a nonce gives has `difficulty` leading zero bits.
pub open spec fn spec_nonce_wins(prefix: Seq<u8>, nonce: u64, difficulty: usize) -> bool {
    leading_zero_bits(spec_nonce_hash(prefix, nonce)) >= difficulty
}

/// What the hash of a block starts from: everything but the nonce.
pub open spec fn spec_block_prefix(b: BlockView) -> Seq<u8> {
    block_prefix(b.index, b.timestamp, b.previous_hash@, spec_encode_transactions(b.transactions))
}

/// The hash of a block's fields and nonce.
pub open spec fn spec_block_hash(b: BlockView) -> Seq<u8> {
    spec_nonce_hash(spec_block_prefix(b), b.nonce)
}

/// The stored hash is the hash of the block and has `difficulty` leading
/// zero bits.
pub open spec fn spec_sealed(b: BlockView, difficulty: usize) -> bool {
    b.hash@ == spec_block_hash(b) && leading_zero_bits(b.hash@) >= difficulty
}

/// `b` comes directly after `prev`.
pub open spec fn spec_follows(b: BlockView, prev: BlockView) -> bool {
    b.index == prev.index + 1 && b.previous_hash == prev.hash
}

/// The index that the block after one with index `index` must have. After
/// `u64::MAX` there is none: the value is then `u64::MAX` itself.
pub open spec fn spec_next_index(index: u64) -> u64 {
    if index < u64::MAX {
        (index + 1) as u64
    } else {
        u64::MAX
    }
}

/// The transaction that mints the genesis amount for `recipient`.
pub open spec fn spec_mint(recipient: Address) -> Transaction {
    Transaction {
        tx_type: TransactionType::Mint,
        from_address: Address(zero_array::<32>()),
        from_public_key: zero_array::<897>(),
        signature: zero_array::<752>(),
        to_address: recipient,
        amount: GENESIS_MINT_AMOUNT,
    }
}

/// `b` has the fields of a genesis block: index and timestamp zero, no
/// block before it, and one transaction, which mints the genesis amount.
pub open spec fn spec_genesis_shape(b: BlockView) -> bool {
    &&& b.index == 0
    &&& b.timestamp == 0
    &&& b.previous_hash@ == zeros(32)
    &&& b.transactions.len() == 1
    &&& b.transactions[0] == spec_mint(b.transactions[0].to_address)
}

/// Tries one nonce: the nonce and its hash if the hash has `difficulty`
/// leading zero bits.
pub fn try_nonce(hasher: &BlockHasher, nonce: u64, difficulty: usize) -> (r: Option<(u64, hash::Hash)>)
    ensures
        match r {
            Some((n, hash)) => n == nonce && hash@ == spec_nonce_hash(hasher@, nonce)
                && spec_nonce_wins(hasher@, nonce, difficulty),
            None => !spec_nonce_wins(hasher@, nonce, difficulty),
        },
{
    let mut candidate = hasher.clone();
    let hash = candidate.hash_nonce(nonce);
    if hash.difficulty() >= difficulty {
        Some((nonce, hash))
    } else {
        None
    }
}

/// `find_map_first` of `rayon` over the nonces below `max_attempts`, with
/// `try_nonce` as the map: the result of `try_nonce` for the first nonce, in
/// the order of the range, for which it is not `None`.
#[verifier::external_body]
pub(crate) fn find_first_nonce(hasher: &BlockHasher, difficulty: usize, max_attempts: u64) -> (r:
    Option<(u64, hash::Hash)>)
    ensures
        match r {
            Some((nonce, hash)) => {
                &&& nonce < max_attempts
                &&& hash@ == spec_nonce_hash(hasher@, nonce)
                &&& spec_nonce_wins(hasher@, nonce, difficulty)
                &&& forall|earlier: u64|
                    earlier < nonce ==> !spec_nonce_wins(hasher@, earlier, difficulty)
            },
            None => forall|nonce: u64|
                nonce < max_attempts ==> !spec_nonce_wins(hasher@, nonce, difficulty),
        },
{
    (0..max_attempts).into_par_iter().find_map_first(|nonce| try_nonce(hasher, nonce, difficulty))
}

/// Tries one nonce, unless `cancel` is set: then the nonce is passed over.
/// The flag is read once, and the result is that of `try_nonce_when` for
/// what was read.
pub fn try_nonce_unless(
    hasher: &BlockHasher,
    nonce: u64,
    difficulty: usize,
    cancel: &AtomicBool,
) -> (r: Option<(u64, hash::Hash)>)
    ensures
        exists|cancelled: bool|
            #[trigger] spec_nonce_tried(hasher@, nonce, difficulty, cancelled, r),
        r matches Some((n, hash)) ==> n == nonce && hash@ == spec_nonce_hash(hasher@, nonce)
            && spec_nonce_wins(hasher@, nonce, difficulty),
{
    let cancelled = cancel.load(Ordering::Acquire);
    let r = try_nonce_when(hasher, nonce, difficulty, cancelled);
    assert(spec_nonce_tried(hasher@, nonce, difficulty, cancelled, r));
    r
}

/// `r` is the result of trying a nonce when the cancel flag reads
/// `cancelled`: nothing if the flag is set or the hash has fewer than
/// `difficulty` leading zero bits, else the nonce and its hash.
pub open spec fn spec_nonce_tried(
    prefix: Seq<u8>,
    nonce: u64,
    difficulty: usize,
    cancelled: bool,
    r: Option<(u64, hash::Hash)>,
) -> bool {
    if cancelled || !spec_nonce_wins(prefix, nonce, difficulty) {
        r is None
    } else {
        r matches Some((n, hash)) && n == nonce && hash@ == spec_nonce_hash(prefix, nonce)
    }
}

/// Tries one nonce for a search whose cancel flag reads `cancelled`: a
/// cancelled search passes the nonce over, another tries it.
pub fn try_nonce_when(hasher: &BlockHasher, nonce: u64, difficulty: usize, cancelled: bool) -> (r:
    Option<(u64, hash::Hash)>)
    ensures
        spec_nonce_tried(hasher@, nonce, difficulty, cancelled, r),
{
    if cancelled {
        None
    } else {
        try_nonce(hasher, nonce, difficulty)
    }
}

/// `find_map_any` of `rayon` over the nonces below `max_attempts`, with
/// `try_nonce_unless` as the map: the result of `try_nonce_unless` for one
/// of the nonces for which it is not `None`, if there is one. Which one is
/// not known, and `None` may mean that `cancel` was set.
#[verifier::external_body]
pub(crate) fn find_any_nonce(
    hasher: &BlockHasher,
    difficulty: usize,
    max_attempts: u64,
    cancel: &AtomicBool,
) -> (r: Option<(u64, hash::Hash)>)
    ensures
        r matches Some((nonce, hash)) ==> nonce < max_attempts && hash@ == spec_nonce_hash(
            hasher@,
            nonce,
        ) && spec_nonce_wins(hasher@, nonce, difficulty),
{
    (0..max_attempts).into_par_iter().find_map_any(
        |nonce| try_nonce_unless(hasher, nonce, difficulty, cancel),
    )
}

impl Clone for Block {
    fn clone(&self) -> (copy: Self)
        ensures
            copy@ == self@,
    {
        let mut transactions: Vec<Transaction> = Vec::new();
        let mut i: usize = 0;
        while i < self.transactions.len()
            invariant
                i <= self.transactions@.len(),
                transactions@ == self.transactions@.subrange(0, i as int),
            decreases self.transactions.len() - i,
        {
            transactions.push(self.transactions[i]);
            assert(transactions@ =~= self.transactions@.subrange(0, i + 1));
            i += 1;
        }
        assert(transactions@ =~= self.transactions@);
        Block {
            index: self.index,
            timestamp: self.timestamp,
            hash: self.hash,
            previous_hash: self.previous_hash,
            transactions,
            nonce: self.nonce,
        }
    }
}

/// A copy of the blocks.
pub fn clone_blocks(blocks: &[Block]) -> (copy: Vec<Block>)
    ensures
        spec_blocks(copy@) == spec_blocks(blocks@),
{
    let mut copy: Vec<Block> = Vec::new();
    let mut i: usize = 0;
    while i < blocks.len()
        invariant
            i <= blocks@.len(),
            copy@.len() == i,
            forall|j: int| 0 <= j < i ==> copy@[j]@ == blocks@[j]@,
        decreases blocks.len() - i,
    {
        copy.push(blocks[i].clone());
        i += 1;
    }
    assert(spec_blocks(copy@) =~= spec_blocks(blocks@));
    copy
}

impl Block {
    /// Forges a block at the standard difficulty.
    pub fn forge(
        index: u64,
        timestamp: u128,
        previous_hash: hash::Hash,
        transactions: Vec<Transaction>,
    ) -> (r: Result<Block, BlockError>)
        ensures
            spec_forged(
                r,
                index,
                timestamp,
                previous_hash,
                transactions@,
                DIFFICULTY,
                MAX_NONCE_ATTEMPTS,
            ),
    {
        Self::forge_with_difficulty(
            index,
            timestamp,
            previous_hash,
            transactions,
            DIFFICULTY,
            MAX_NONCE_ATTEMPTS,
        )
    }

    /// Forges a block: searches the nonces below `max_attempts` for the
    /// first whose hash has `difficulty` leading zero bits.
    pub fn forge_with_difficulty(
        index: u64,
        timestamp: u128,
        previous_hash: hash::Hash,
        transactions: Vec<Transaction>,
        difficulty: usize,
        max_attempts: u64,
    ) -> (r: Result<Block, BlockError>)
        ensures
            spec_forged(
                r,
                index,
                timestamp,
                previous_hash,
                transactions@,
                difficulty,
                max_attempts,
            ),
    {
        let encoded = encode_transactions(transactions.as_slice());
        let hasher = BlockHasher::new(index, timestamp, previous_hash, encoded.as_slice());
        let found = find_first_nonce(&hasher, difficulty, max_attempts);
        Self::assemble(index, timestamp, previous_hash, transactions, found)
    }

    /// The block with the given fields and nonce, and with the hash that
    /// they give. No nonce is searched: the hash may have any number of
    /// leading zero bits.
    pub fn new(
        index: u64,
        timestamp: u128,
        previous_hash: hash::Hash,
        transactions: Vec<Transaction>,
        nonce: u64,
    ) -> (block: Block)
        ensures
            block@.index == index,
            block@.timestamp == timestamp,
            block@.previous_hash == previous_hash,
            block@.transactions == transactions@,
            block@.nonce == nonce,
            block@.hash@ == spec_block_hash(block@),
    {
        let encoded = encode_transactions(transactions.as_slice());
        let hash = hash::Hash::new(index, timestamp, previous_hash, encoded.as_slice(), nonce);
        Block { index, timestamp, hash, previous_hash, transactions, nonce }
    }

    /// Forges a block with any nonce below `max_attempts` whose hash has
    /// `difficulty` leading zero bits: the search ends as soon as one worker
    /// has found one, or when `cancel` is set. Which nonce is found may
    /// differ from run to run, and a search that was cancelled reports
    /// `NonceTooHard`.
    pub fn forge_unless(
        index: u64,
        timestamp: u128,
        previous_hash: hash::Hash,
        transactions: Vec<Transaction>,
        difficulty: usize,
        max_attempts: u64,
        cancel: &AtomicBool,
    ) -> (r: Result<Block, BlockError>)
        ensures
            match r {
                Ok(b) => {
                    &&& b@.index == index
                    &&& b@.timestamp == timestamp
                    &&& b@.previous_hash == previous_hash
                    &&& b@.transactions == transactions@
                    &&& b@.nonce < max_attempts
                    &&& spec_sealed(b@, difficulty)
                },
                Err(e) => e == BlockError::NonceTooHard,
            },
    {
        let encoded = encode_transactions(transactions.as_slice());
        let hasher = BlockHasher::new(index, timestamp, previous_hash, encoded.as_slice());
        let found = find_any_nonce(&hasher, difficulty, max_attempts, cancel);
        Self::assemble(index, timestamp, previous_hash, transactions, found)
    }

    /// The block with the given fields and the nonce and hash that a search
    /// has found; `NonceTooHard` if it has found none. Nothing is checked.
    pub fn assemble(
        index: u64,
        timestamp: u128,
        previous_hash: hash::Hash,
        transactions: Vec<Transaction>,
        found: Option<(u64, hash::Hash)>,
    ) -> (r: Result<Block, BlockError>)
        ensures
            match r {
                Ok(b) => found matches Some((nonce, hash)) && b@ == (BlockView {
                    index,
                    timestamp,
                    hash,
                    previous_hash,
                    transactions: transactions@,
                    nonce,
                }),
                Err(e) => found is None && e == BlockError::NonceTooHard,
            },
    {
        match found {
            Some((nonce, hash)) => Ok(
                Block { index, timestamp, hash, previous_hash, transactions, nonce },
            ),
            None => Err(BlockError::NonceTooHard),
        }
    }

    /// Forges the genesis block for the standard recipient.
    pub fn genesis() -> (r: Result<Block, BlockError>)
        ensures
            spec_genesis_result(r),
    {
        match Address::try_from(GENESIS_MINT_ADDRESS) {
            Ok(recipient) => Self::genesis_for(recipient),
            Err(e) => Err(BlockError::GenesisTransactionError(e)),
        }
    }

    /// Forges a genesis block that mints the genesis amount for `recipient`.
    pub fn genesis_for(recipient: Address) -> (r: Result<Block, BlockError>)
        ensures
            spec_genesis_forged(r, recipient),
    {
        let mint = Transaction {
            tx_type: TransactionType::Mint,
            from_address: Address([0u8; 32]),
            from_public_key: [0u8; 897],
            signature: [0u8; 752],
            to_address: recipient,
            amount: GENESIS_MINT_AMOUNT,
        };
        let mut transactions: Vec<Transaction> = Vec::new();
        transactions.push(mint);
        assert(mint == spec_mint(recipient));
        assert(transactions@ =~= seq![spec_mint(recipient)]);
        Self::forge(0, 0, hash::Hash([0u8; 32]), transactions)
    }

    /// Checks that the stored hash is the hash of the block and has
    /// `DIFFICULTY` leading zero bits.
    pub fn verify_hash(&self) -> (r: Result<(), BlockError>)
        ensures
            match r {
                Ok(()) => spec_sealed(self@, DIFFICULTY),
                Err(e) => !spec_sealed(self@, DIFFICULTY) && spec_is_invalid_hash(self@, e),
            },
    {
        let encoded = encode_transactions(self.transactions.as_slice());
        let computed = hash::Hash::new(
            self.index,
            self.timestamp,
            self.previous_hash,
            encoded.as_slice(),
            self.nonce,
        );
        if self.hash != computed || computed.difficulty() < DIFFICULTY {
            Err(BlockError::InvalidHash { got: self.hash, want: computed })
        } else {
            Ok(())
        }
    }

    /// Checks that the block comes directly after `prev` and is sealed.
    pub fn verify(&self, prev: &Block) -> (r: Result<(), BlockError>)
        ensures
            spec_verified(self@, prev@, r),
    {
        let want = match prev.index.checked_add(1) {
            Some(next) => next,
            None => u64::MAX,
        };
        if prev.index == u64::MAX || self.index != want {
            return Err(BlockError::InvalidIndex { got: self.index, want });
        }
        if self.previous_hash != prev.hash {
            return Err(
                BlockError::InvalidPreviousHash { got: self.previous_hash, want: prev.hash },
            );
        }
        proof {
            lemma_hash_eq(self.previous_hash, prev.hash);
        }
        self.verify_hash()
    }

    /// Whether the block has the fields of a genesis block.
    pub fn has_genesis_shape(&self) -> (r: bool)
        ensures
            r == spec_genesis_shape(self@),
    {
        if self.index != 0 || self.timestamp != 0 || !all_zero(&self.previous_hash.0)
            || self.transactions.len() != 1 {
            return false;
        }
        let t = &self.transactions[0];
        let minted = match t.tx_type {
            TransactionType::Mint => true,
            TransactionType::Transfer => false,
        };
        let r = minted && all_zero(&t.from_address.0) && all_zero(&t.from_public_key) && all_zero(
            &t.signature,
        ) && t.amount == GENESIS_MINT_AMOUNT;
        proof {
            let m = spec_mint(t.to_address);
            lemma_zero_array::<32>();
            lemma_zero_array::<897>();
            lemma_zero_array::<752>();
            if r {
                lemma_array_eq(t.from_address.0, m.from_address.0);
                lemma_array_eq(t.from_public_key, m.from_public_key);
                lemma_array_eq(t.signature, m.signature);
            }
        }
        r
    }

    /// The hash stored in the block.
    pub fn hash(&self) -> (hash: &hash::Hash)
        ensures
            *hash == self@.hash,
    {
        &self.hash
    }

    /// The position of the block in the chain.
    pub fn index(&self) -> (index: u64)
        ensures
            index == self@.index,
    {
        self.index
    }

    /// The transactions of the block.
    pub fn transactions(&self) -> (transactions: &[Transaction])
        ensures
            transactions@ == self@.transactions,
    {
        self.transactions.as_slice()
    }

    /// When the block was forged, in milliseconds since the Unix epoch.
    pub fn timestamp(&self) -> (timestamp: u128)
        ensures
            timestamp == self@.timestamp,
    {
        self.timestamp
    }

    /// The hash of the block before this one.
    pub fn previous_hash(&self) -> (hash: &hash::Hash)
        ensures
            *hash == self@.previous_hash,
    {
        &self.previous_hash
    }

    /// The nonce that seals the block.
    pub fn nonce(&self) -> (nonce: u64)
        ensures
            nonce == self@.nonce,
    {
        self.nonce
    }
}

/// `e` is the error of a block whose stored hash does not seal it: it holds
/// the stored hash and the hash of the block.
pub open spec fn spec_is_invalid_hash(b: BlockView, e: BlockError) -> bool {
    e matches BlockError::InvalidHash { got, want } && got == b.hash && want@ == spec_block_hash(b)
}

/// `r` is the result of a forge with the given fields: the block with the
/// first nonce below `max_attempts` that seals it, or `NonceTooHard` if
/// there is none.
pub open spec fn spec_forged(
    r: Result<Block, BlockError>,
    index: u64,
    timestamp: u128,
    previous_hash: hash::Hash,
    transactions: Seq<Transaction>,
    difficulty: usize,
    max_attempts: u64,
) -> bool {
    let prefix = block_prefix(
        index,
        timestamp,
        previous_hash@,
        spec_encode_transactions(transactions),
    );
    match r {
        Ok(b) => {
            &&& b@.index == index
            &&& b@.timestamp == timestamp
            &&& b@.previous_hash == previous_hash
            &&& b@.transactions == transactions
            &&& b@.nonce < max_attempts
            &&& spec_sealed(b@, difficulty)
            &&& forall|earlier: u64|
                earlier < b@.nonce ==> !spec_nonce_wins(prefix, earlier, difficulty)
        },
        Err(e) => {
            &&& e == BlockError::NonceTooHard
            &&& forall|nonce: u64|
                nonce < max_attempts ==> !spec_nonce_wins(prefix, nonce, difficulty)
        },
    }
}

/// `r` is the result of forging the genesis block for `recipient`.
pub open spec fn spec_genesis_forged(r: Result<Block, BlockError>, recipient: Address) -> bool {
    spec_forged(
        r,
        0,
        0,
        hash::Hash(zero_array::<32>()),
        seq![spec_mint(recipient)],
        DIFFICULTY,
        MAX_NONCE_ATTEMPTS,
    )
}

/// `r` is the result of forging the genesis block for the recipient that
/// `GENESIS_MINT_ADDRESS` stands for: that block, or the reason why the text
/// is no address, or `NonceTooHard`.
pub open spec fn spec_genesis_result(r: Result<Block, BlockError>) -> bool {
    match r {
        Ok(b) => spec_parsed(GENESIS_MINT_ADDRESS@, Ok(b@.transactions[0].to_address))
            && spec_genesis_forged(r, b@.transactions[0].to_address),
        Err(BlockError::GenesisTransactionError(e)) => spec_parsed(GENESIS_MINT_ADDRESS@, Err(e)),
        Err(_) => exists|recipient: Address|
            spec_parsed(GENESIS_MINT_ADDRESS@, Ok(recipient)) && #[trigger] spec_genesis_forged(
                r,
                recipient,
            ),
    }
}

/// `r` is the result of checking `b` against the block before it: the
/// index first, then the previous hash, then the seal.
pub open spec fn spec_verified(b: BlockView, prev: BlockView, r: Result<(), BlockError>) -> bool {
    match r {
        Ok(()) => spec_follows(b, prev) && spec_sealed(b, DIFFICULTY),
        Err(BlockError::InvalidIndex { got, want }) => {
            &&& b.index != prev.index + 1
            &&& got == b.index
            &&& want == spec_next_index(prev.index)
        },
        Err(BlockError::InvalidPreviousHash { got, want }) => {
            &&& b.index == prev.index + 1
            &&& b.previous_hash != prev.hash
            &&& got == b.previous_hash
            &&& want == prev.hash
        },
        Err(e) => {
            &&& spec_follows(b, prev)
            &&& !spec_sealed(b, DIFFICULTY)
            &&& spec_is_invalid_hash(b, e)
        },
    }
}

/// A block that was forged as a genesis block is a sealed genesis block for
/// its recipient.
pub proof fn lemma_genesis_forged(block: Block, recipient: Address)
    requires
        spec_genesis_forged(Ok(block), recipient),
    ensures
        spec_genesis_shape(block@),
        spec_sealed(block@, DIFFICULTY),
        block@.transactions[0].to_address == recipient,
        block@.transactions[0].amount == GENESIS_MINT_AMOUNT,
{
    lemma_zero_array::<32>();
}

/// A block that `verify_hash` accepts has `DIFFICULTY` leading zero bits in
/// its hash.
pub proof fn lemma_sealed_meets_difficulty(b: BlockView)
    requires
        spec_sealed(b, DIFFICULTY),
    ensures
        leading_zero_bits(b.hash@) >= DIFFICULTY,
        b.hash@ == spec_block_hash(b),
{
}

/// How many bytes the encoding of a block has besides its transactions.
pub const BLOCK_FRAME_BYTES: usize = 96;

/// The encoding of a block: index and timestamp little-endian, the hash,
/// the previous hash, the transactions, the nonce little-endian.
pub open spec fn spec_encode_block(b: BlockView) -> Seq<u8> {
    spec_u64_to_le_bytes(b.index) + spec_u128_to_le_bytes(b.timestamp) + b.hash@
        + b.previous_hash@ + spec_encode_transactions(b.transactions) + spec_u64_to_le_bytes(
        b.nonce,
    )
}

/// Where the fields stand in the encoding of a block.
pub proof fn lemma_encode_block_fields(b: BlockView)
    ensures
        spec_encode_block(b).len() == BLOCK_FRAME_BYTES + spec_encode_transactions(
            b.transactions,
        ).len(),
        spec_encode_block(b).subrange(0, 8) == spec_u64_to_le_bytes(b.index),
        spec_encode_block(b).subrange(8, 24) == spec_u128_to_le_bytes(b.timestamp),
        spec_encode_block(b).subrange(24, 56) == b.hash@,
        spec_encode_block(b).subrange(56, 88) == b.previous_hash@,
        spec_is_at(
            spec_encode_block(b),
            88,
            spec_encode_block(b).len() - 8,
            spec_encode_transactions(b.transactions),
        ),
        spec_encode_block(b).subrange(
            spec_encode_block(b).len() - 8,
            spec_encode_block(b).len() as int,
        ) == spec_u64_to_le_bytes(b.nonce),
{
    lemma_auto_spec_u64_to_from_le_bytes();
    lemma_auto_spec_u128_to_from_le_bytes();
    let e = spec_encode_block(b);
    let txs = spec_encode_transactions(b.transactions);
    assert(spec_u64_to_le_bytes(b.index).len() == 8);
    assert(spec_u128_to_le_bytes(b.timestamp).len() == 16);
    assert(spec_u64_to_le_bytes(b.nonce).len() == 8);
    assert(e.len() == 96 + txs.len());
    assert(e.subrange(0, 8) =~= spec_u64_to_le_bytes(b.index));
    assert(e.subrange(8, 24) =~= spec_u128_to_le_bytes(b.timestamp));
    assert(e.subrange(24, 56) =~= b.hash@);
    assert(e.subrange(56, 88) =~= b.previous_hash@);
    assert(e.subrange(88, e.len() - 8) =~= txs);
    assert(e.subrange(e.len() - 8, e.len() as int) =~= spec_u64_to_le_bytes(b.nonce));
}

/// Two blocks whose encodings start at the same place of a string are the
/// same block, and their encodings end at the same place.
pub proof fn lemma_block_unique(
    bytes: Seq<u8>,
    at: int,
    end: int,
    b: BlockView,
    other_end: int,
    other: BlockView,
)
    requires
        spec_is_at(bytes, at, end, spec_encode_block(b)),
        spec_is_at(bytes, at, other_end, spec_encode_block(other)),
        b.transactions.len() <= u64::MAX,
        other.transactions.len() <= u64::MAX,
    ensures
        end == other_end,
        b == other,
{
    let e = spec_encode_block(b);
    let f = spec_encode_block(other);
    lemma_encode_block_fields(b);
    lemma_encode_block_fields(other);
    lemma_is_at_within(bytes, at, end, e, 88, e.len() - 8, spec_encode_transactions(b.transactions));
    lemma_is_at_within(
        bytes,
        at,
        other_end,
        f,
        88,
        f.len() - 8,
        spec_encode_transactions(other.transactions),
    );
    lemma_transactions_unique(
        bytes,
        at + 88,
        at + e.len() - 8,
        b.transactions,
        at + f.len() - 8,
        other.transactions,
    );
    assert(bytes.subrange(at, end) == bytes.subrange(at, other_end));
    lemma_u64_le_injective(b.index, other.index);
    lemma_u128_le_injective(b.timestamp, other.timestamp);
    lemma_u64_le_injective(b.nonce, other.nonce);
    lemma_hash_eq(b.hash, other.hash);
    lemma_hash_eq(b.previous_hash, other.previous_hash);
}

/// `r` is the result of reading `bytes` as a block: the block that they
/// are the encoding of, or `DecodeError` if there is none.
pub open spec fn spec_block_read(bytes: Seq<u8>, r: Result<Block, BlockError>) -> bool {
    match r {
        Ok(block) => block@.transactions.len() <= u64::MAX && spec_encode_block(block@) == bytes,
        Err(e) => e == BlockError::DecodeError && forall|b: BlockView|
            b.transactions.len() <= u64::MAX ==> #[trigger] spec_encode_block(b) != bytes,
    }
}

/// Two blocks with the same encoding are the same.
pub proof fn lemma_encode_block_injective(a: BlockView, b: BlockView)
    requires
        a.transactions.len() <= u64::MAX,
        b.transactions.len() <= u64::MAX,
        spec_encode_block(a) == spec_encode_block(b),
    ensures
        a == b,
{
    let e = spec_encode_block(a);
    assert(e.subrange(0, e.len() as int) =~= e);
    lemma_block_unique(e, 0, e.len() as int, a, e.len() as int, b);
}

/// Reading the encoding of a block gives that block back.
pub proof fn lemma_block_read_encoded(b: BlockView, r: Result<Block, BlockError>)
    requires
        b.transactions.len() <= u64::MAX,
        spec_block_read(spec_encode_block(b), r),
    ensures
        r matches Ok(read) && read@ == b,
{
    match r {
        Ok(read) => {
            lemma_encode_block_injective(read@, b);
        },
        Err(_) => {
            assert(spec_encode_block(b) == spec_encode_block(b));
        },
    }
}

/// The block whose encoding starts at `at`, and where the encoding ends, if
/// there is such a block.
pub fn decode_block_at(bytes: &[u8], at: usize) -> (r: Option<(Block, usize)>)
    requires
        at <= bytes@.len(),
    ensures
        match r {
            Some((block, end)) => block@.transactions.len() <= usize::MAX && spec_is_at(
                bytes@,
                at as int,
                end as int,
                spec_encode_block(block@),
            ),
            None => forall|b: BlockView, end: int|
                b.transactions.len() <= u64::MAX ==> !#[trigger] spec_is_at(
                    bytes@,
                    at as int,
                    end,
                    spec_encode_block(b),
                ),
        },
{
    let len = bytes.len();
    if len - at < BLOCK_FRAME_BYTES {
        assert forall|b: BlockView, end: int| b.transactions.len() <= u64::MAX implies !#[trigger] spec_is_at(
            bytes@,
            at as int,
            end,
            spec_encode_block(b),
        ) by {
            lemma_encode_block_fields(b);
        }
        return None;
    }
    let index = u64_le_at(bytes, at);
    let timestamp = u128_le_at(bytes, at + 8);
    let stored = hash::Hash(array_at::<32>(bytes, at + 24));
    let previous_hash = hash::Hash(array_at::<32>(bytes, at + 56));
    match decode_transactions_at(bytes, at + 88) {
        None => {
            assert forall|b: BlockView, end: int| b.transactions.len() <= u64::MAX implies !#[trigger] spec_is_at(
                bytes@,
                at as int,
                end,
                spec_encode_block(b),
            ) by {
                let e = spec_encode_block(b);
                if spec_is_at(bytes@, at as int, end, e) {
                    lemma_encode_block_fields(b);
                    lemma_is_at_within(
                        bytes@,
                        at as int,
                        end,
                        e,
                        88,
                        e.len() - 8,
                        spec_encode_transactions(b.transactions),
                    );
                    assert(spec_is_at(
                        bytes@,
                        at + 88,
                        at + e.len() - 8,
                        spec_encode_transactions(b.transactions),
                    ));
                }
            }
            None
        },
        Some((transactions, after)) => {
            let count = transactions.len();
            if len - after < 8 {
                assert forall|b: BlockView, end: int| b.transactions.len() <= u64::MAX implies !#[trigger] spec_is_at(
                    bytes@,
                    at as int,
                    end,
                    spec_encode_block(b),
                ) by {
                    let e = spec_encode_block(b);
                    if spec_is_at(bytes@, at as int, end, e) {
                        lemma_encode_block_fields(b);
                        lemma_is_at_within(
                            bytes@,
                            at as int,
                            end,
                            e,
                            88,
                            e.len() - 8,
                            spec_encode_transactions(b.transactions),
                        );
                        lemma_transactions_unique(
                            bytes@,
                            at + 88,
                            after as int,
                            transactions@,
                            at + e.len() - 8,
                            b.transactions,
                        );
                    }
                }
                return None;
            }
            let nonce = u64_le_at(bytes, after);
            let block = Block {
                index,
                timestamp,
                hash: stored,
                previous_hash,
                transactions,
                nonce,
            };
            proof {
                lemma_encode_block_fields(block@);
                let e = spec_encode_block(block@);
                assert(bytes@.subrange(at as int, after + 8) =~= e) by {
                    assert(bytes@.subrange(at as int, after + 8) =~= bytes@.subrange(
                        at as int,
                        at + 8,
                    ) + bytes@.subrange(at + 8, at + 24) + bytes@.subrange(at + 24, at + 56)
                        + bytes@.subrange(at + 56, at + 88) + bytes@.subrange(
                        at + 88,
                        after as int,
                    ) + bytes@.subrange(after as int, after + 8));
                }
            }
            Some((block, after + 8))
        },
    }
}

impl Block {
    /// The encoding of the block.
    pub fn encode(&self) -> (bytes: Vec<u8>)
        ensures
            bytes@ == spec_encode_block(self@),
    {
        let mut bytes: Vec<u8> = Vec::new();
        self.encode_into(&mut bytes);
        assert(bytes@ =~= spec_encode_block(self@));
        bytes
    }

    /// Appends the encoding of the block to `out`.
    pub fn encode_into(&self, out: &mut Vec<u8>)
        ensures
            final(out)@ == old(out)@ + spec_encode_block(self@),
    {
        let index = u64_to_le_bytes(self.index);
        append_bytes(out, index.as_slice());
        let timestamp = u128_to_le_bytes(self.timestamp);
        append_bytes(out, timestamp.as_slice());
        append_bytes(out, &self.hash.0);
        append_bytes(out, &self.previous_hash.0);
        encode_transactions_into(self.transactions.as_slice(), out);
        let nonce = u64_to_le_bytes(self.nonce);
        append_bytes(out, nonce.as_slice());
        assert(out@ =~= old(out)@ + spec_encode_block(self@));
    }

    /// The block that `bytes` is the encoding of. The block is not checked.
    pub fn from_bytes(bytes: Vec<u8>) -> (r: Result<Block, BlockError>)
        ensures
            spec_block_read(bytes@, r),
    {
        let len = bytes.len();
        match decode_block_at(bytes.as_slice(), 0) {
            Some((block, end)) => {
                if end == len {
                    assert(bytes@.subrange(0, len as int) =~= bytes@);
                    Ok(block)
                } else {
                    assert forall|b: BlockView| b.transactions.len() <= u64::MAX implies #[trigger] spec_encode_block(
                        b,
                    ) != bytes@ by {
                        if spec_encode_block(b) == bytes@ {
                            assert(bytes@.subrange(0, len as int) =~= bytes@);
                            lemma_block_unique(bytes@, 0, end as int, block@, len as int, b);
                        }
                    }
                    Err(BlockError::DecodeError)
                }
            },
            None => {
                assert forall|b: BlockView| b.transactions.len() <= u64::MAX implies #[trigger] spec_encode_block(
                    b,
                ) != bytes@ by {
                    if spec_encode_block(b) == bytes@ {
                        assert(bytes@.subrange(0, len as int) =~= bytes@);
                        assert(spec_is_at(bytes@, 0, len as int, spec_encode_block(b)));
                    }
                }
                Err(BlockError::DecodeError)
            },
        }
    }
}

} // verus!
