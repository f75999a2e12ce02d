//! The chain by itself: blocks linked by their hashes and sealed by proof
//! of work, without the balances that their transactions give.
use crate::block::{
    clone_blocks, lemma_genesis_forged, spec_blocks, spec_follows, spec_forged,
    spec_genesis_result, spec_genesis_shape, spec_is_invalid_hash, spec_sealed, spec_verified,
    Block, BlockError, BlockView, DIFFICULTY, MAX_NONCE_ATTEMPTS,
};
use crate::codec::{
    decode_chain_at, encode_chain_into, lemma_chain_unique, spec_encodable_chain,
    spec_encode_chain,
};
use crate::bytes::spec_is_at;
use crate::transaction::Transaction;
use std::time::{SystemTime, UNIX_EPOCH};
use vstd::prelude::*;

verus! {

/// What can be wrong with a chain, or with a block that is offered to it.
#[derive(Debug, PartialEq, Eq)]
pub enum ChainError {
    /// A block does not follow the block before it or is not sealed.
    BlockError(BlockError),
    /// The first block is not a genesis block.
    GenesisBlockError(Block),
    /// The chain has no block at this index.
    BlockNotFound(u64),
    /// The bytes are not the encoding of a chain.
    DecodeError,
}

/// A sequence of blocks.
#[derive(Debug, PartialEq, Eq)]
pub struct Chain {
    chain: Vec<Block>,
}

impl View for Chain {
    type V = Seq<BlockView>;

    closed spec fn view(&self) -> Seq<BlockView> {
        spec_blocks(self.chain@)
    }
}

/// The chain starts with a sealed genesis block, and each later block
/// follows the one before it and is sealed.
pub open spec fn spec_linked(chain: Seq<BlockView>) -> bool
    decreases chain.len(),
{
    if chain.len() == 0 {
        false
    } else if chain.len() == 1 {
        spec_genesis_shape(chain[0]) && spec_sealed(chain[0], DIFFICULTY)
    } else {
        &&& spec_linked(chain.drop_last())
        &&& spec_follows(chain.last(), chain.drop_last().last())
        &&& spec_sealed(chain.last(), DIFFICULTY)
    }
}

/// `e` is what is wrong with a block that is offered as a genesis block:
/// the block itself if it has not the fields of one, else its hash.
pub open spec fn spec_genesis_link_fault(genesis: BlockView, e: ChainError) -> bool {
    if !spec_genesis_shape(genesis) {
        e matches ChainError::GenesisBlockError(block) && block@ == genesis
    } else {
        &&& !spec_sealed(genesis, DIFFICULTY)
        &&& e matches ChainError::BlockError(invalid)
        &&& spec_is_invalid_hash(genesis, invalid)
    }
}

/// `e` is the first thing that is wrong with the links of the chain: that
/// it is empty, or what is wrong with the first block that does not
/// continue a linked chain.
pub open spec fn spec_link_fault(chain: Seq<BlockView>, e: ChainError) -> bool
    decreases chain.len(),
{
    if chain.len() == 0 {
        e == ChainError::BlockNotFound(0)
    } else if chain.len() == 1 {
        spec_genesis_link_fault(chain[0], e)
    } else if spec_linked(chain.drop_last()) {
        e matches ChainError::BlockError(invalid) && spec_verified(
            chain.last(),
            chain.drop_last().last(),
            Err(invalid),
        )
    } else {
        spec_link_fault(chain.drop_last(), e)
    }
}

/// `r` is the result of forging a block with the given timestamp and
/// transactions after the last block of `chain`.
pub open spec fn spec_forged_next(
    chain: Seq<BlockView>,
    timestamp: u128,
    transactions: Seq<Transaction>,
    r: Result<Block, ChainError>,
) -> bool {
    if chain.len() == 0 {
        r matches Err(e) && e == ChainError::BlockNotFound(0)
    } else {
        let last = chain.last();
        let index = (last.index + 1) as u64;
        match r {
            Ok(block) => spec_forged(
                Ok(block),
                index,
                timestamp,
                last.hash,
                transactions,
                DIFFICULTY,
                MAX_NONCE_ATTEMPTS,
            ),
            Err(ChainError::BlockError(e)) => spec_forged(
                Err(e),
                index,
                timestamp,
                last.hash,
                transactions,
                DIFFICULTY,
                MAX_NONCE_ATTEMPTS,
            ),
            Err(_) => false,
        }
    }
}

/// `r` is the result of reading `bytes` as a chain: the chain that they are
/// the encoding of, or `DecodeError` if there is none.
pub open spec fn spec_chain_read(bytes: Seq<u8>, r: Result<Chain, ChainError>) -> bool {
    match r {
        Ok(chain) => spec_encodable_chain(chain@) && spec_encode_chain(chain@) == bytes,
        Err(e) => e == ChainError::DecodeError && forall|chain: Seq<BlockView>|
            spec_encodable_chain(chain) ==> #[trigger] spec_encode_chain(chain) != bytes,
    }
}

/// In a linked chain each block holds its position as its index, names the
/// hash of the block before it, and is sealed.
pub proof fn lemma_linked(chain: Seq<BlockView>)
    requires
        spec_linked(chain),
    ensures
        chain.len() >= 1,
        forall|i: int| 0 <= i < chain.len() ==> (#[trigger] chain[i]).index == i,
        forall|i: int|
            0 < i < chain.len() ==> (#[trigger] chain[i]).previous_hash == chain[i - 1].hash,
        forall|i: int| 0 <= i < chain.len() ==> spec_sealed(#[trigger] chain[i], DIFFICULTY),
    decreases chain.len(),
{
    if chain.len() > 1 {
        let before = chain.drop_last();
        lemma_linked(before);
        assert forall|i: int| 0 <= i < chain.len() implies (#[trigger] chain[i]).index == i by {
            if i < chain.len() - 1 {
                assert(chain[i] == before[i]);
            }
        }
        assert forall|i: int| 0 < i < chain.len() implies (#[trigger] chain[i]).previous_hash
            == chain[i - 1].hash by {
            assert(chain[i - 1] == before[i - 1]);
            if i < chain.len() - 1 {
                assert(chain[i] == before[i]);
            }
        }
        assert forall|i: int| 0 <= i < chain.len() implies spec_sealed(
            #[trigger] chain[i],
            DIFFICULTY,
        ) by {
            if i < chain.len() - 1 {
                assert(chain[i] == before[i]);
            }
        }
    }
}

/// What is wrong with the first blocks of a chain, if they are not linked,
/// is what is wrong with the chain.
proof fn lemma_link_fault_from(chain: Seq<BlockView>, k: int, e: ChainError)
    requires
        1 <= k <= chain.len(),
        !spec_linked(chain.take(k)),
        spec_link_fault(chain.take(k), e),
    ensures
        spec_link_fault(chain, e),
    decreases chain.len() - k,
{
    if k == chain.len() {
        assert(chain.take(k) =~= chain);
    } else {
        let upto = chain.take(k + 1);
        assert(upto.drop_last() =~= chain.take(k));
        lemma_link_fault_from(chain, k + 1, e);
    }
}

/// Reading the encoding of a chain gives that chain back.
pub proof fn lemma_chain_read_encoded(chain: Seq<BlockView>, r: Result<Chain, ChainError>)
    requires
        spec_encodable_chain(chain),
        spec_chain_read(spec_encode_chain(chain), r),
    ensures
        r matches Ok(read) && read@ == chain,
{
    let bytes = spec_encode_chain(chain);
    match r {
        Ok(read) => {
            assert(bytes.subrange(0, bytes.len() as int) =~= bytes);
            lemma_chain_unique(
                bytes,
                0,
                bytes.len() as int,
                read@,
                bytes.len() as int,
                chain,
            );
        },
        Err(_) => {
            assert(spec_encode_chain(chain) == bytes);
        },
    }
}

/// `SystemTime::now` and `duration_since` the Unix epoch, in milliseconds;
/// zero if the clock stands before the epoch. Nothing is known of the
/// value.
#[verifier::external_body]
pub(crate) fn now_millis() -> u128 {
    match SystemTime::now().duration_since(UNIX_EPOCH) {
        Ok(elapsed) => elapsed.as_millis(),
        Err(_) => 0,
    }
}

impl Clone for Chain {
    fn clone(&self) -> (copy: Self)
        ensures
            copy@ == self@,
    {
        Chain { chain: clone_blocks(self.chain.as_slice()) }
    }
}

impl Chain {
    /// A chain that holds a newly forged genesis block for the standard
    /// recipient.
    pub fn new() -> (r: Result<Chain, ChainError>)
        ensures
            match r {
                Ok(chain) => spec_linked(chain@) && chain@.len() == 1 && exists|genesis: Block|
                    #[trigger] spec_genesis_result(Ok(genesis)) && chain@[0] == genesis@,
                Err(ChainError::BlockError(e)) => spec_genesis_result(Err(e)),
                Err(_) => false,
            },
    {
        match Block::genesis() {
            Err(e) => Err(ChainError::BlockError(e)),
            Ok(genesis) => {
                proof {
                    lemma_genesis_forged(genesis, genesis@.transactions[0].to_address);
                    assert(spec_genesis_result(Ok(genesis)));
                }
                let mut chain: Vec<Block> = Vec::new();
                let ghost first = genesis@;
                chain.push(genesis);
                assert(spec_blocks(chain@) =~= seq![first]);
                Ok(Chain { chain })
            },
        }
    }

    /// The chain of the given blocks. Nothing is checked: see `verify`.
    pub fn from_blocks(blocks: Vec<Block>) -> (chain: Chain)
        ensures
            chain@ == spec_blocks(blocks@),
    {
        Chain { chain: blocks }
    }

    /// The blocks, the first block first.
    pub fn blocks(&self) -> (blocks: &[Block])
        ensures
            spec_blocks(blocks@) == self@,
    {
        self.chain.as_slice()
    }

    /// The chain that `bytes` is the encoding of. Nothing is checked: see
    /// `verify`.
    pub fn from_bytes(bytes: Vec<u8>) -> (r: Result<Chain, ChainError>)
        ensures
            spec_chain_read(bytes@, r),
    {
        let len = bytes.len();
        match decode_chain_at(bytes.as_slice(), 0) {
            Some((blocks, end)) => {
                if end == len {
                    assert(bytes@.subrange(0, len as int) =~= bytes@);
                    Ok(Chain { chain: blocks })
                } else {
                    assert forall|chain: Seq<BlockView>| spec_encodable_chain(chain) implies #[trigger] spec_encode_chain(
                        chain,
                    ) != bytes@ by {
                        if spec_encode_chain(chain) == bytes@ {
                            assert(bytes@.subrange(0, len as int) =~= bytes@);
                            lemma_chain_unique(
                                bytes@,
                                0,
                                end as int,
                                spec_blocks(blocks@),
                                len as int,
                                chain,
                            );
                        }
                    }
                    Err(ChainError::DecodeError)
                }
            },
            None => {
                assert forall|chain: Seq<BlockView>| spec_encodable_chain(chain) implies #[trigger] spec_encode_chain(
                    chain,
                ) != bytes@ by {
                    if spec_encode_chain(chain) == bytes@ {
                        assert(bytes@.subrange(0, len as int) =~= bytes@);
                        assert(spec_is_at(bytes@, 0, len as int, spec_encode_chain(chain)));
                    }
                }
                Err(ChainError::DecodeError)
            },
        }
    }

    /// Checks the links of the chain: that it starts with a sealed genesis
    /// block, and that each later block follows the one before it and is
    /// sealed.
    pub fn verify(&self) -> (r: Result<(), ChainError>)
        ensures
            match r {
                Ok(()) => spec_linked(self@),
                Err(e) => !spec_linked(self@) && spec_link_fault(self@, e),
            },
    {
        let len = self.chain.len();
        if len == 0 {
            return Err(ChainError::BlockNotFound(0));
        }
        let genesis = &self.chain[0];
        assert(self@.take(1) =~= seq![genesis@]);
        if !genesis.has_genesis_shape() {
            let e = ChainError::GenesisBlockError(genesis.clone());
            proof {
                lemma_link_fault_from(self@, 1, e);
                lemma_not_linked_from(self@, 1);
            }
            return Err(e);
        }
        match genesis.verify_hash() {
            Err(e) => {
                proof {
                    lemma_link_fault_from(self@, 1, ChainError::BlockError(e));
                    lemma_not_linked_from(self@, 1);
                }
                return Err(ChainError::BlockError(e));
            },
            Ok(()) => {},
        }
        let mut i: usize = 1;
        while i < len
            invariant
                1 <= i <= len,
                len == self.chain@.len(),
                spec_linked(self@.take(i as int)),
            decreases len - i,
        {
            let ghost upto = self@.take(i + 1);
            proof {
                assert(upto.drop_last() =~= self@.take(i as int));
                assert(upto.last() == self.chain@[i as int]@);
                assert(self@.take(i as int).last() == self.chain@[i - 1]@);
            }
            match self.chain[i].verify(&self.chain[i - 1]) {
                Err(e) => {
                    proof {
                        lemma_link_fault_from(self@, i + 1, ChainError::BlockError(e));
                        lemma_not_linked_from(self@, i + 1);
                    }
                    return Err(ChainError::BlockError(e));
                },
                Ok(()) => {},
            }
            i += 1;
        }
        assert(self@.take(len as int) =~= self@);
        Ok(())
    }

    /// Forges the block that holds `transactions` and comes after the last
    /// block, with the time of the call as its timestamp. The block is not
    /// appended.
    pub fn forge(&self, transactions: Vec<Transaction>) -> (r: Result<Block, ChainError>)
        requires
            self@.len() > 0 ==> self@.last().index < u64::MAX,
        ensures
            exists|timestamp: u128| #[trigger] spec_forged_next(self@, timestamp, transactions@, r),
    {
        let timestamp = now_millis();
        let r = self.forge_at(timestamp, transactions);
        assert(spec_forged_next(self@, timestamp, transactions@, r));
        r
    }

    /// Forges the block that holds `transactions` and comes after the last
    /// block, with the given timestamp. The block is not appended.
    pub fn forge_at(&self, timestamp: u128, transactions: Vec<Transaction>) -> (r: Result<
        Block,
        ChainError,
    >)
        requires
            self@.len() > 0 ==> self@.last().index < u64::MAX,
        ensures
            spec_forged_next(self@, timestamp, transactions@, r),
    {
        let len = self.chain.len();
        if len == 0 {
            return Err(ChainError::BlockNotFound(0));
        }
        let last = &self.chain[len - 1];
        assert(last@ == self@.last());
        match Block::forge(last.index() + 1, timestamp, *last.hash(), transactions) {
            Ok(block) => Ok(block),
            Err(e) => Err(ChainError::BlockError(e)),
        }
    }

    /// Appends `block` if it follows the last block and is sealed.
    /// Otherwise the chain is left as it was.
    pub fn append(&mut self, block: Block) -> (r: Result<(), ChainError>)
        ensures
            match r {
                Ok(()) => {
                    &&& old(self)@.len() > 0
                    &&& spec_verified(block@, old(self)@.last(), Ok(()))
                    &&& final(self)@ == old(self)@.push(block@)
                    &&& spec_linked(old(self)@) ==> spec_linked(final(self)@)
                },
                Err(ChainError::BlockError(e)) => {
                    &&& old(self)@.len() > 0
                    &&& spec_verified(block@, old(self)@.last(), Err(e))
                    &&& final(self)@ == old(self)@
                },
                Err(e) => {
                    &&& old(self)@.len() == 0
                    &&& e == ChainError::BlockNotFound(0)
                    &&& final(self)@ == old(self)@
                },
            },
    {
        let len = self.chain.len();
        if len == 0 {
            return Err(ChainError::BlockNotFound(0));
        }
        let last = &self.chain[len - 1];
        assert(last@ == self@.last());
        match block.verify(last) {
            Err(e) => Err(ChainError::BlockError(e)),
            Ok(()) => {
                proof {
                    assert(spec_blocks(self.chain@.push(block)) =~= self@.push(block@));
                    assert(self@.push(block@).drop_last() =~= self@);
                }
                self.chain.push(block);
                Ok(())
            },
        }
    }

    /// Appends `block` without checking it.
    pub(crate) fn push_unchecked(&mut self, block: Block)
        ensures
            final(self)@ == old(self)@.push(block@),
    {
        assert(spec_blocks(self.chain@.push(block)) =~= self@.push(block@));
        self.chain.push(block);
    }

    /// The encoding of the chain.
    pub fn encode(&self) -> (bytes: Vec<u8>)
        ensures
            bytes@ == spec_encode_chain(self@),
    {
        let mut bytes: Vec<u8> = Vec::new();
        encode_chain_into(self.chain.as_slice(), &mut bytes);
        assert(bytes@ =~= spec_encode_chain(self@));
        bytes
    }

    /// The last block of the chain.
    pub fn last(&self) -> (r: Result<&Block, ChainError>)
        ensures
            match r {
                Ok(block) => self@.len() > 0 && block@ == self@.last(),
                Err(e) => self@.len() == 0 && e == ChainError::BlockNotFound(0),
            },
    {
        let len = self.chain.len();
        if len == 0 {
            Err(ChainError::BlockNotFound(0))
        } else {
            Ok(&self.chain[len - 1])
        }
    }
}

/// A chain whose first blocks are not linked is not linked.
proof fn lemma_not_linked_from(chain: Seq<BlockView>, k: int)
    requires
        1 <= k <= chain.len(),
        !spec_linked(chain.take(k)),
    ensures
        !spec_linked(chain),
    decreases chain.len() - k,
{
    if k == chain.len() {
        assert(chain.take(k) =~= chain);
    } else {
        let upto = chain.take(k + 1);
        assert(upto.drop_last() =~= chain.take(k));
        lemma_not_linked_from(chain, k + 1);
    }
}

} // verus!
