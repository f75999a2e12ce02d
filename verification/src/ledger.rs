//! The ledger: the chain of blocks and the balances that replaying it from
//! the genesis block gives.
use crate::account::{spec_parsed, Address};
use crate::block::{
    lemma_genesis_forged, spec_blocks, spec_follows, spec_forged, spec_genesis_forged,
    spec_genesis_result, spec_genesis_shape, spec_is_invalid_hash, spec_sealed, spec_verified,
    Block, BlockError, BlockView, DIFFICULTY, GENESIS_MINT_ADDRESS, GENESIS_MINT_AMOUNT,
    MAX_NONCE_ATTEMPTS,
};
use crate::chain::{lemma_linked, now_millis, spec_linked, Chain};
use crate::codec::{
    decode_ledger, encode_ledger, lemma_encode_ledger_injective, spec_encodable,
    spec_encode_ledger,
};
use crate::hash::sha3_256;
use crate::state::{
    lemma_apply_distinct, lemma_mint_adds_to_total, lemma_transfer_conserves_total,
    spec_apply_transaction, spec_balance, spec_can_pay, spec_distinct, spec_total, Balances,
};
use crate::transaction::{
    signature_verdict, spec_signature_outcome, verify_signature, Transaction, TransactionError,
    TransactionType,
};
use vstd::prelude::*;

verus! {

/// What can be wrong with a block that is offered to the ledger, or with a
/// ledger that is read.
#[derive(Debug, PartialEq, Eq)]
pub enum LedgerError {
    /// The block does not follow the last block or is not sealed.
    BlockError(BlockError),
    /// The first block is not a genesis block.
    GenesisBlockError(Block),
    /// The chain has no block at this index.
    BlockNotFound(u64),
    /// A transfer of the block is not in order.
    TransactionError(TransactionError),
    /// The block holds a mint, which only the genesis block may.
    ForbiddenMintTransaction(Transaction),
    /// The bytes are not the encoding of a ledger.
    DecodeError,
}

/// The chain and the balances.
#[derive(Debug, PartialEq, Eq)]
pub struct Ledger {
    chain: Chain,
    state: Balances,
}

/// What a ledger holds.
pub struct LedgerView {
    pub chain: Seq<BlockView>,
    pub state: Seq<(Address, u64)>,
}

impl View for Ledger {
    type V = LedgerView;

    closed spec fn view(&self) -> LedgerView {
        LedgerView { chain: self.chain@, state: self.state@ }
    }
}

/// Why the ledger refuses a transaction on a state, if it does. A mint is
/// forbidden: the ledger has its genesis block. A transfer needs a public
/// key whose digest is the sender's address, the sender's signature, and a
/// sender who holds the amount and the cost, in this order.
pub open spec fn spec_transaction_fault(state: Seq<(Address, u64)>, t: Transaction) -> Option<
    LedgerError,
> {
    match t.tx_type {
        TransactionType::Mint => Some(LedgerError::ForbiddenMintTransaction(t)),
        TransactionType::Transfer => if sha3_256(t.from_public_key@) != t.from_address@ {
            Some(LedgerError::TransactionError(TransactionError::PublicKeyAddressMismatch))
        } else {
            match spec_signature_outcome(t, signature_verdict(t)) {
                Err(e) => Some(LedgerError::TransactionError(e)),
                Ok(()) => if spec_can_pay(state, t) {
                    None
                } else {
                    Some(
                        LedgerError::TransactionError(
                            TransactionError::InsufficientBalance {
                                address: t.from_address,
                                transaction: t,
                            },
                        ),
                    )
                },
            }
        },
    }
}

/// The state after the transactions, applied in order.
pub open spec fn spec_apply_transactions(state: Seq<(Address, u64)>, txs: Seq<Transaction>) -> Seq<
    (Address, u64),
>
    decreases txs.len(),
{
    if txs.len() == 0 {
        state
    } else {
        spec_apply_transaction(spec_apply_transactions(state, txs.drop_last()), txs.last())
    }
}

/// The first reason for which the ledger refuses one of the transactions,
/// each checked on the state that the ones before it leave.
pub open spec fn spec_transactions_fault(state: Seq<(Address, u64)>, txs: Seq<Transaction>) -> Option<
    LedgerError,
>
    decreases txs.len(),
{
    if txs.len() == 0 {
        None
    } else {
        match spec_transactions_fault(state, txs.drop_last()) {
            Some(e) => Some(e),
            None => spec_transaction_fault(
                spec_apply_transactions(state, txs.drop_last()),
                txs.last(),
            ),
        }
    }
}

/// The state that replaying the chain gives: every transaction of every
/// block applied in order, starting from nothing.
pub open spec fn spec_replay(chain: Seq<BlockView>) -> Seq<(Address, u64)>
    decreases chain.len(),
{
    if chain.len() == 0 {
        Seq::empty()
    } else {
        spec_apply_transactions(spec_replay(chain.drop_last()), chain.last().transactions)
    }
}

/// The chain starts with a sealed genesis block, and each later block
/// follows the one before it, is sealed, and holds only transactions that
/// the ledger accepts on the state that the blocks before it give.
pub open spec fn spec_valid_chain(chain: Seq<BlockView>) -> bool
    decreases chain.len(),
{
    if chain.len() == 0 {
        false
    } else if chain.len() == 1 {
        spec_genesis_shape(chain[0]) && spec_sealed(chain[0], DIFFICULTY)
    } else {
        let before = chain.drop_last();
        &&& spec_valid_chain(before)
        &&& spec_follows(chain.last(), before.last())
        &&& spec_sealed(chain.last(), DIFFICULTY)
        &&& spec_transactions_fault(spec_replay(before), chain.last().transactions) is None
    }
}

/// The chain is valid and the state is what replaying it gives.
pub open spec fn spec_valid_ledger(ledger: LedgerView) -> bool {
    spec_valid_chain(ledger.chain) && ledger.state == spec_replay(ledger.chain)
}

/// Transactions that the ledger accepts are transfers, and they keep the
/// total within what it was.
pub proof fn lemma_accepted_transactions(state: Seq<(Address, u64)>, txs: Seq<Transaction>)
    requires
        spec_transactions_fault(state, txs) is None,
        spec_total(state) <= u64::MAX,
    ensures
        forall|i: int| 0 <= i < txs.len() ==> txs[i].tx_type == TransactionType::Transfer,
        spec_total(spec_apply_transactions(state, txs)) <= spec_total(state),
    decreases txs.len(),
{
    if txs.len() > 0 {
        let before = txs.drop_last();
        lemma_accepted_transactions(state, before);
        lemma_transfer_conserves_total(spec_apply_transactions(state, before), txs.last());
        assert forall|i: int| 0 <= i < txs.len() implies txs[i].tx_type
            == TransactionType::Transfer by {
            if i < txs.len() - 1 {
                assert(txs[i] == before[i]);
            }
        }
    }
}

/// In a valid chain no more than the genesis amount is held.
pub proof fn lemma_total_of_valid_chain(chain: Seq<BlockView>)
    requires
        spec_valid_chain(chain),
    ensures
        spec_total(spec_replay(chain)) <= GENESIS_MINT_AMOUNT,
    decreases chain.len(),
{
    if chain.len() == 1 {
        let mint = chain[0].transactions[0];
        assert(chain.drop_last() =~= Seq::<BlockView>::empty());
        assert(spec_replay(chain.drop_last()) =~= Seq::<(Address, u64)>::empty());
        assert(chain[0].transactions.drop_last() =~= Seq::<Transaction>::empty());
        assert(chain[0].transactions.last() == mint);
        assert(spec_replay(chain) == spec_apply_transaction(Seq::empty(), mint));
        lemma_mint_adds_to_total(Seq::empty(), mint);
    } else {
        let before = chain.drop_last();
        lemma_total_of_valid_chain(before);
        lemma_accepted_transactions(spec_replay(before), chain.last().transactions);
    }
}

/// A valid chain is linked.
pub proof fn lemma_valid_chain_is_linked(chain: Seq<BlockView>)
    requires
        spec_valid_chain(chain),
    ensures
        spec_linked(chain),
    decreases chain.len(),
{
    if chain.len() > 1 {
        lemma_valid_chain_is_linked(chain.drop_last());
    }
}

/// In a valid chain each block holds its position as its index, names the
/// hash of the block before it, and is sealed.
pub proof fn lemma_chain_linked(chain: Seq<BlockView>)
    requires
        spec_valid_chain(chain),
    ensures
        chain.len() >= 1,
        forall|i: int| 0 <= i < chain.len() ==> (#[trigger] chain[i]).index == i,
        forall|i: int|
            0 < i < chain.len() ==> (#[trigger] chain[i]).previous_hash == chain[i - 1].hash,
        forall|i: int| 0 <= i < chain.len() ==> spec_sealed(#[trigger] chain[i], DIFFICULTY),
{
    lemma_valid_chain_is_linked(chain);
    lemma_linked(chain);
}

/// In a valid chain only the genesis block mints.
pub proof fn lemma_only_genesis_mints(chain: Seq<BlockView>)
    requires
        spec_valid_chain(chain),
    ensures
        forall|i: int, j: int|
            0 < i < chain.len() && 0 <= j < chain[i].transactions.len() ==> (
            #[trigger] chain[i].transactions[j]).tx_type == TransactionType::Transfer,
    decreases chain.len(),
{
    if chain.len() > 1 {
        let before = chain.drop_last();
        lemma_only_genesis_mints(before);
        lemma_total_of_valid_chain(before);
        lemma_accepted_transactions(spec_replay(before), chain.last().transactions);
        assert forall|i: int, j: int|
            0 < i < chain.len() && 0 <= j < chain[i].transactions.len() implies (
        #[trigger] chain[i].transactions[j]).tx_type == TransactionType::Transfer by {
            if i < chain.len() - 1 {
                assert(chain[i] == before[i]);
            }
        }
    }
}

/// Replaying a chain of one block with one transaction gives one entry: the
/// recipient with the amount.
pub proof fn lemma_replay_of_genesis(genesis: BlockView)
    requires
        genesis.transactions.len() == 1,
        genesis.transactions[0].tx_type == TransactionType::Mint,
    ensures
        spec_replay(seq![genesis]) == seq![
            (genesis.transactions[0].to_address, genesis.transactions[0].amount),
        ],
{
    let none = Seq::<(Address, u64)>::empty();
    let chain = seq![genesis];
    let mint = genesis.transactions[0];
    assert(chain.drop_last() =~= Seq::<BlockView>::empty());
    assert(spec_replay(chain.drop_last()) =~= none);
    assert(genesis.transactions.drop_last() =~= Seq::<Transaction>::empty());
    assert(spec_apply_transactions(none, genesis.transactions.drop_last()) =~= none);
    assert(spec_replay(chain) == spec_apply_transaction(none, mint));
    assert(spec_apply_transaction(none, mint) =~= seq![(mint.to_address, mint.amount)]);
}

/// Replaying a chain never gives an address two entries.
pub proof fn lemma_replay_distinct(chain: Seq<BlockView>)
    ensures
        spec_distinct(spec_replay(chain)),
    decreases chain.len(),
{
    if chain.len() > 0 {
        lemma_replay_distinct(chain.drop_last());
        lemma_apply_transactions_distinct(
            spec_replay(chain.drop_last()),
            chain.last().transactions,
        );
    }
}

proof fn lemma_apply_transactions_distinct(state: Seq<(Address, u64)>, txs: Seq<Transaction>)
    requires
        spec_distinct(state),
    ensures
        spec_distinct(spec_apply_transactions(state, txs)),
    decreases txs.len(),
{
    if txs.len() > 0 {
        lemma_apply_transactions_distinct(state, txs.drop_last());
        lemma_apply_distinct(spec_apply_transactions(state, txs.drop_last()), txs.last());
    }
}

/// What the ledger finds wrong with transactions is a forbidden mint or the
/// error of a transfer.
pub proof fn lemma_fault_is_of_a_transaction(state: Seq<(Address, u64)>, txs: Seq<Transaction>)
    ensures
        match spec_transactions_fault(state, txs) {
            Some(e) => e is ForbiddenMintTransaction || e is TransactionError,
            None => true,
        },
    decreases txs.len(),
{
    if txs.len() > 0 {
        lemma_fault_is_of_a_transaction(state, txs.drop_last());
    }
}

/// A fault among the first transactions is the fault of them all.
proof fn lemma_fault_of_prefix(state: Seq<(Address, u64)>, txs: Seq<Transaction>, k: int)
    requires
        0 <= k <= txs.len(),
        spec_transactions_fault(state, txs.subrange(0, k)) is Some,
    ensures
        spec_transactions_fault(state, txs) == spec_transactions_fault(state, txs.subrange(0, k)),
    decreases txs.len() - k,
{
    if k < txs.len() {
        assert(txs.subrange(0, k + 1).drop_last() =~= txs.subrange(0, k));
        lemma_fault_of_prefix(state, txs, k + 1);
    } else {
        assert(txs.subrange(0, k) =~= txs);
    }
}

/// Whether the ledger accepts `t` on `state`.
pub fn check_transaction(state: &Balances, t: &Transaction) -> (r: Result<(), LedgerError>)
    ensures
        match r {
            Ok(()) => spec_transaction_fault(state@, *t) is None,
            Err(e) => spec_transaction_fault(state@, *t) == Some(e),
        },
{
    match t.tx_type {
        TransactionType::Mint => Err(LedgerError::ForbiddenMintTransaction(*t)),
        TransactionType::Transfer => {
            let owner = Address::from_public_key(&t.from_public_key);
            if owner != t.from_address {
                return Err(
                    LedgerError::TransactionError(TransactionError::PublicKeyAddressMismatch),
                );
            }
            match verify_signature(t) {
                Err(e) => {
                    return Err(LedgerError::TransactionError(e));
                },
                Ok(()) => {},
            }
            match state.dry_run_transaction(t) {
                Err(e) => Err(LedgerError::TransactionError(e)),
                Ok(()) => Ok(()),
            }
        },
    }
}

impl Clone for Ledger {
    fn clone(&self) -> (copy: Self)
        ensures
            copy@ == self@,
    {
        Ledger { chain: self.chain.clone(), state: self.state.clone() }
    }
}

impl Ledger {
    /// The chain is valid and the state is what replaying it gives.
    pub open spec fn wf(&self) -> bool {
        spec_valid_ledger(self@)
    }

    /// A ledger that holds a newly forged genesis block for the standard
    /// recipient.
    pub fn new() -> (r: Result<Ledger, LedgerError>)
        ensures
            match r {
                Ok(ledger) => {
                    let recipient = ledger@.chain[0].transactions[0].to_address;
                    &&& ledger.wf()
                    &&& ledger@.chain.len() == 1
                    &&& ledger@.state == seq![(recipient, GENESIS_MINT_AMOUNT)]
                    &&& spec_parsed(GENESIS_MINT_ADDRESS@, Ok(recipient))
                },
                Err(LedgerError::BlockError(e)) => spec_genesis_result(Err(e)),
                Err(_) => false,
            },
    {
        match Block::genesis() {
            Err(e) => Err(LedgerError::BlockError(e)),
            Ok(genesis) => {
                proof {
                    lemma_genesis_forged(genesis, genesis@.transactions[0].to_address);
                }
                Ledger::from_genesis(genesis)
            },
        }
    }

    /// A ledger that holds a newly forged genesis block for `recipient`.
    pub fn new_for(recipient: Address) -> (r: Result<Ledger, LedgerError>)
        ensures
            match r {
                Ok(ledger) => {
                    &&& ledger.wf()
                    &&& ledger@.chain.len() == 1
                    &&& ledger@.state == seq![(recipient, GENESIS_MINT_AMOUNT)]
                },
                Err(LedgerError::BlockError(e)) => spec_genesis_forged(Err(e), recipient),
                Err(_) => false,
            },
    {
        match Block::genesis_for(recipient) {
            Err(e) => Err(LedgerError::BlockError(e)),
            Ok(genesis) => {
                proof {
                    lemma_genesis_forged(genesis, recipient);
                }
                Ledger::from_genesis(genesis)
            },
        }
    }

    /// A ledger that holds `genesis` and what it mints. A block that has
    /// not the fields of a genesis block is handed back in the error.
    pub fn from_genesis(genesis: Block) -> (r: Result<Ledger, LedgerError>)
        ensures
            match r {
                Ok(ledger) => {
                    let mint = genesis@.transactions[0];
                    &&& spec_genesis_shape(genesis@)
                    &&& spec_sealed(genesis@, DIFFICULTY)
                    &&& ledger.wf()
                    &&& ledger@.chain == seq![genesis@]
                    &&& ledger@.state == seq![(mint.to_address, mint.amount)]
                },
                Err(LedgerError::GenesisBlockError(block)) => !spec_genesis_shape(genesis@)
                    && block@ == genesis@,
                Err(LedgerError::BlockError(e)) => {
                    &&& spec_genesis_shape(genesis@)
                    &&& !spec_sealed(genesis@, DIFFICULTY)
                    &&& spec_is_invalid_hash(genesis@, e)
                },
                Err(_) => false,
            },
    {
        if !genesis.has_genesis_shape() {
            return Err(LedgerError::GenesisBlockError(genesis));
        }
        match genesis.verify_hash() {
            Err(e) => {
                return Err(LedgerError::BlockError(e));
            },
            Ok(()) => {},
        }
        let mut state = Balances::new();
        let mint = genesis.transactions()[0];
        state.apply_transaction_unchecked(&mint);
        let mut blocks: Vec<Block> = Vec::new();
        let ghost first = genesis@;
        blocks.push(genesis);
        let ledger = Ledger { chain: Chain::from_blocks(blocks), state };
        proof {
            assert(ledger@.chain =~= seq![first]);
            lemma_replay_of_genesis(first);
        }
        Ok(ledger)
    }

    /// The balances of all accounts.
    pub fn state(&self) -> (state: Balances)
        ensures
            state@ == self@.state,
    {
        self.state.clone()
    }

    /// The balance of `address`: zero if nothing was ever sent to it.
    pub fn balance(&self, address: Address) -> (amount: u64)
        ensures
            amount == spec_balance(self@.state, address),
    {
        self.state.balance(&address)
    }

    /// The blocks, the genesis block first.
    pub fn chain(&self) -> (chain: &[Block])
        ensures
            spec_blocks(chain@) == self@.chain,
    {
        self.chain.blocks()
    }

    /// The last block of the chain.
    pub fn last(&self) -> (r: Result<&Block, LedgerError>)
        ensures
            match r {
                Ok(block) => self@.chain.len() > 0 && block@ == self@.chain.last(),
                Err(e) => self@.chain.len() == 0 && e == LedgerError::BlockNotFound(0),
            },
    {
        let blocks = self.chain.blocks();
        let len = blocks.len();
        if len == 0 {
            Err(LedgerError::BlockNotFound(0))
        } else {
            Ok(&blocks[len - 1])
        }
    }

    /// The block at `index`.
    pub fn block(&self, index: u64) -> (r: Result<&Block, LedgerError>)
        ensures
            match r {
                Ok(block) => index < self@.chain.len() && block@ == self@.chain[index as int],
                Err(e) => index >= self@.chain.len() && e == LedgerError::BlockNotFound(index),
            },
    {
        let blocks = self.chain.blocks();
        if index < blocks.len() as u64 {
            Ok(&blocks[index as usize])
        } else {
            Err(LedgerError::BlockNotFound(index))
        }
    }

    /// Forges the block that holds `transactions` and comes after the last
    /// block, with the time of the call as its timestamp. The block is not
    /// applied.
    pub fn forge(&self, transactions: Vec<Transaction>) -> (r: Result<Block, LedgerError>)
        requires
            self.wf(),
        ensures
            exists|timestamp: u128| #[trigger] spec_forged_after(self@, timestamp, transactions@, r),
    {
        let timestamp = now_millis();
        let r = self.forge_at(timestamp, transactions);
        assert(spec_forged_after(self@, timestamp, transactions@, r));
        r
    }

    /// Forges the block that holds `transactions` and comes after the last
    /// block, with the given timestamp. The block is not applied.
    pub fn forge_at(&self, timestamp: u128, transactions: Vec<Transaction>) -> (r: Result<
        Block,
        LedgerError,
    >)
        requires
            self.wf(),
        ensures
            spec_forged_after(self@, timestamp, transactions@, r),
    {
        proof {
            lemma_chain_linked(self@.chain);
        }
        let blocks = self.chain.blocks();
        let last = &blocks[blocks.len() - 1];
        assert(last@ == self@.chain.last());
        match Block::forge(last.index() + 1, timestamp, *last.hash(), transactions) {
            Ok(block) => Ok(block),
            Err(e) => Err(LedgerError::BlockError(e)),
        }
    }

    /// The state after the transactions of `block`, each checked on the
    /// state that the ones before it leave. The ledger is not changed.
    pub fn apply_transactions(&self, block: &Block) -> (r: Result<Balances, LedgerError>)
        requires
            self.wf(),
        ensures
            match r {
                Ok(staged) => {
                    &&& spec_transactions_fault(self@.state, block@.transactions) is None
                    &&& staged@ == spec_apply_transactions(self@.state, block@.transactions)
                },
                Err(e) => spec_transactions_fault(self@.state, block@.transactions) == Some(e),
            },
    {
        let txs = block.transactions();
        let mut staged = self.state.clone();
        let mut i: usize = 0;
        proof {
            lemma_total_of_valid_chain(self@.chain);
            assert(txs@.subrange(0, 0) =~= Seq::<Transaction>::empty());
        }
        while i < txs.len()
            invariant
                i <= txs@.len(),
                txs@ == block@.transactions,
                spec_transactions_fault(self@.state, txs@.subrange(0, i as int)) is None,
                staged@ == spec_apply_transactions(self@.state, txs@.subrange(0, i as int)),
                spec_total(staged@) <= u64::MAX,
            decreases txs.len() - i,
        {
            let t = &txs[i];
            proof {
                assert(txs@.subrange(0, i + 1).drop_last() =~= txs@.subrange(0, i as int));
                assert(txs@.subrange(0, i + 1).last() == *t);
            }
            match check_transaction(&staged, t) {
                Err(e) => {
                    proof {
                        lemma_fault_of_prefix(self@.state, txs@, i + 1);
                    }
                    return Err(e);
                },
                Ok(()) => {},
            }
            proof {
                lemma_transfer_conserves_total(staged@, *t);
            }
            staged.apply_transaction_unchecked(t);
            i += 1;
        }
        assert(txs@.subrange(0, txs@.len() as int) =~= txs@);
        Ok(staged)
    }

    /// Appends `block` to the chain and applies its transactions, if the
    /// block follows the last block, is sealed, and holds only transactions
    /// that the ledger accepts. Otherwise the ledger is left as it was.
    pub fn apply_block(&mut self, block: Block) -> (r: Result<(), LedgerError>)
        requires
            old(self).wf(),
        ensures
            final(self).wf(),
            r is Err ==> spec_encode_ledger(final(self)@) == spec_encode_ledger(old(self)@),
            match r {
                Ok(()) => {
                    &&& spec_verified(block@, old(self)@.chain.last(), Ok(()))
                    &&& spec_transactions_fault(old(self)@.state, block@.transactions) is None
                    &&& forall|i: int|
                        0 <= i < block@.transactions.len() ==> block@.transactions[i].tx_type
                            == TransactionType::Transfer
                    &&& final(self)@.chain == old(self)@.chain.push(block@)
                    &&& final(self)@.state == spec_apply_transactions(
                        old(self)@.state,
                        block@.transactions,
                    )
                },
                Err(LedgerError::BlockError(e)) => {
                    &&& spec_verified(block@, old(self)@.chain.last(), Err(e))
                    &&& final(self)@ == old(self)@
                },
                Err(e) => {
                    &&& spec_verified(block@, old(self)@.chain.last(), Ok(()))
                    &&& spec_transactions_fault(old(self)@.state, block@.transactions) == Some(e)
                    &&& final(self)@ == old(self)@
                },
            },
    {
        let blocks = self.chain.blocks();
        let last = &blocks[blocks.len() - 1];
        assert(last@ == self@.chain.last());
        match block.verify(last) {
            Err(e) => {
                return Err(LedgerError::BlockError(e));
            },
            Ok(()) => {},
        }
        match self.apply_transactions(&block) {
            Err(e) => {
                proof {
                    lemma_fault_is_of_a_transaction(self@.state, block@.transactions);
                }
                Err(e)
            },
            Ok(staged) => {
                proof {
                    lemma_total_of_valid_chain(self@.chain);
                    lemma_accepted_transactions(self@.state, block@.transactions);
                    assert(self@.chain.push(block@).drop_last() =~= self@.chain);
                }
                let ghost appended = block@;
                self.state = staged;
                self.chain.push_unchecked(block);
                assert(self@.chain == old(self)@.chain.push(appended));
                assert(self@.state == spec_apply_transactions(
                    old(self)@.state,
                    appended.transactions,
                ));
                Ok(())
            },
        }
    }
}

/// `r` is the result of forging a block with the given timestamp and
/// transactions after the last block of `ledger`.
pub open spec fn spec_forged_after(
    ledger: LedgerView,
    timestamp: u128,
    transactions: Seq<Transaction>,
    r: Result<Block, LedgerError>,
) -> bool {
    let last = ledger.chain.last();
    let index = (last.index + 1) as u64;
    match r {
        Ok(block) => spec_forged(
            Ok(block),
            index,
            timestamp,
            last.hash,
            transactions,
            DIFFICULTY,
            MAX_NONCE_ATTEMPTS,
        ),
        Err(LedgerError::BlockError(e)) => spec_forged(
            Err(e),
            index,
            timestamp,
            last.hash,
            transactions,
            DIFFICULTY,
            MAX_NONCE_ATTEMPTS,
        ),
        Err(_) => false,
    }
}

/// `e` is what is wrong with a block that is offered as a genesis block.
pub open spec fn spec_genesis_fault(genesis: BlockView, e: LedgerError) -> bool {
    if !spec_genesis_shape(genesis) {
        e matches LedgerError::GenesisBlockError(block) && block@ == genesis
    } else {
        &&& !spec_sealed(genesis, DIFFICULTY)
        &&& e matches LedgerError::BlockError(invalid)
        &&& spec_is_invalid_hash(genesis, invalid)
    }
}

/// `e` is what is wrong with a block that is offered after the valid chain
/// `before`: what is wrong with the block itself, or with the first of its
/// transactions that the ledger refuses.
pub open spec fn spec_block_fault(before: Seq<BlockView>, block: BlockView, e: LedgerError) -> bool {
    match e {
        LedgerError::BlockError(invalid) => spec_verified(block, before.last(), Err(invalid)),
        _ => spec_verified(block, before.last(), Ok(())) && spec_transactions_fault(
            spec_replay(before),
            block.transactions,
        ) == Some(e),
    }
}

/// `e` is the first thing that is wrong with the chain: that it is empty,
/// or what is wrong with the first block that does not continue a valid
/// chain.
pub open spec fn spec_chain_fault(chain: Seq<BlockView>, e: LedgerError) -> bool
    decreases chain.len(),
{
    if chain.len() == 0 {
        e == LedgerError::BlockNotFound(0)
    } else if chain.len() == 1 {
        spec_genesis_fault(chain[0], e)
    } else if spec_valid_chain(chain.drop_last()) {
        spec_block_fault(chain.drop_last(), chain.last(), e)
    } else {
        spec_chain_fault(chain.drop_last(), e)
    }
}

/// `e` is what is wrong with a chain and a state that are offered as a
/// ledger: the first thing that is wrong with the chain, or, of a valid
/// chain, that the state is not what replaying it gives.
pub open spec fn spec_parts_fault(ledger: LedgerView, e: LedgerError) -> bool {
    ||| spec_chain_fault(ledger.chain, e)
    ||| {
        &&& spec_valid_chain(ledger.chain)
        &&& ledger.state != spec_replay(ledger.chain)
        &&& e == LedgerError::DecodeError
    }
}

/// `r` is the result of reading `bytes` as a ledger: the valid ledger that
/// they are the encoding of, or `DecodeError` if they are the encoding of
/// no chain and state, or what is wrong with the chain and state that they
/// are the encoding of.
pub open spec fn spec_read(bytes: Seq<u8>, r: Result<Ledger, LedgerError>) -> bool {
    match r {
        Ok(ledger) => {
            &&& ledger.wf()
            &&& spec_encodable(ledger@)
            &&& spec_encode_ledger(ledger@) == bytes
        },
        Err(e) => {
            ||| {
                &&& e == LedgerError::DecodeError
                &&& forall|ledger: LedgerView|
                    spec_encodable(ledger) ==> #[trigger] spec_encode_ledger(ledger) != bytes
            }
            ||| exists|ledger: LedgerView|
                {
                    &&& spec_encodable(ledger)
                    &&& #[trigger] spec_encode_ledger(ledger) == bytes
                    &&& spec_parts_fault(ledger, e)
                }
        },
    }
}

/// Nothing is wrong with a valid chain.
pub proof fn lemma_valid_chain_has_no_fault(chain: Seq<BlockView>, e: LedgerError)
    requires
        spec_valid_chain(chain),
    ensures
        !spec_chain_fault(chain, e),
{
}

/// What is wrong with the block after the longest valid part of a chain is
/// what is wrong with the chain.
pub proof fn lemma_chain_fault_at(chain: Seq<BlockView>, k: int, e: LedgerError)
    requires
        1 <= k < chain.len(),
        spec_valid_chain(chain.take(k)),
        spec_block_fault(chain.take(k), chain[k], e),
    ensures
        spec_chain_fault(chain, e),
        !spec_valid_chain(chain),
    decreases chain.len() - k,
{
    let upto = chain.take(k + 1);
    assert(upto.drop_last() =~= chain.take(k));
    assert(upto.last() == chain[k]);
    assert(spec_chain_fault(upto, e));
    assert(!spec_valid_chain(upto));
    lemma_chain_fault_from(chain, k + 1, e);
}

/// What is wrong with the first blocks of a chain, if they are not valid,
/// is what is wrong with the chain.
pub proof fn lemma_chain_fault_from(chain: Seq<BlockView>, k: int, e: LedgerError)
    requires
        1 <= k <= chain.len(),
        !spec_valid_chain(chain.take(k)),
        spec_chain_fault(chain.take(k), e),
    ensures
        spec_chain_fault(chain, e),
        !spec_valid_chain(chain),
    decreases chain.len() - k,
{
    if k == chain.len() {
        assert(chain.take(k) =~= chain);
    } else {
        let upto = chain.take(k + 1);
        assert(upto.drop_last() =~= chain.take(k));
        lemma_chain_fault_from(chain, k + 1, e);
    }
}

/// Reading the encoding of a valid ledger gives that ledger back.
pub proof fn lemma_read_encoded(ledger: LedgerView, r: Result<Ledger, LedgerError>)
    requires
        spec_valid_ledger(ledger),
        spec_encodable(ledger),
        spec_read(spec_encode_ledger(ledger), r),
    ensures
        r matches Ok(read) && read@ == ledger,
{
    let bytes = spec_encode_ledger(ledger);
    match r {
        Ok(read) => {
            lemma_encode_ledger_injective(read@, ledger);
        },
        Err(e) => {
            assert(spec_encode_ledger(ledger) == bytes);
            let other = choose|other: LedgerView|
                {
                    &&& spec_encodable(other)
                    &&& #[trigger] spec_encode_ledger(other) == bytes
                    &&& spec_parts_fault(other, e)
                };
            lemma_encode_ledger_injective(other, ledger);
            lemma_valid_chain_has_no_fault(ledger.chain, e);
        },
    }
}

impl Ledger {
    /// The encoding of the ledger: the chain, then the state.
    pub fn encode(&self) -> (bytes: Vec<u8>)
        ensures
            bytes@ == spec_encode_ledger(self@),
    {
        encode_ledger(self.chain.blocks(), &self.state)
    }

    /// The ledger with the given chain and state, if the chain is valid and
    /// the state is what replaying it gives.
    pub fn from_parts(blocks: Vec<Block>, state: Balances) -> (r: Result<Ledger, LedgerError>)
        ensures
            match r {
                Ok(ledger) => {
                    &&& ledger.wf()
                    &&& ledger@ == LedgerView { chain: spec_blocks(blocks@), state: state@ }
                },
                Err(e) => spec_parts_fault(
                    LedgerView { chain: spec_blocks(blocks@), state: state@ },
                    e,
                ),
            },
    {
        let ghost chain = spec_blocks(blocks@);
        if blocks.len() == 0 {
            return Err(LedgerError::BlockNotFound(0));
        }
        let mut ledger = match Ledger::from_genesis(blocks[0].clone()) {
            Ok(ledger) => ledger,
            Err(e) => {
                proof {
                    assert(spec_chain_fault(chain.take(1), e)) by {
                        assert(chain.take(1)[0] == chain[0]);
                    }
                    lemma_chain_fault_from(chain, 1, e);
                }
                return Err(e);
            },
        };
        assert(ledger@.chain =~= chain.take(1));
        let mut i: usize = 1;
        while i < blocks.len()
            invariant
                1 <= i <= blocks@.len(),
                chain == spec_blocks(blocks@),
                ledger.wf(),
                ledger@.chain == chain.take(i as int),
            decreases blocks.len() - i,
        {
            let block = blocks[i].clone();
            match ledger.apply_block(block) {
                Err(e) => {
                    proof {
                        lemma_chain_fault_at(chain, i as int, e);
                    }
                    return Err(e);
                },
                Ok(()) => {
                    assert(ledger@.chain =~= chain.take(i + 1));
                },
            }
            i += 1;
        }
        assert(chain.take(i as int) =~= chain);
        if !ledger.state.same_as(&state) {
            return Err(LedgerError::DecodeError);
        }
        Ok(ledger)
    }

    /// Reads a ledger from its encoding and checks it from the genesis
    /// block on: every block must follow the one before it and be sealed,
    /// every transaction must be one that the ledger accepts, and the state
    /// must be what replaying the chain gives.
    pub fn from_bytes(bytes: Vec<u8>) -> (r: Result<Ledger, LedgerError>)
        ensures
            spec_read(bytes@, r),
    {
        match decode_ledger(bytes.as_slice()) {
            Err(_) => Err(LedgerError::DecodeError),
            Ok((blocks, state)) => {
                let ghost read = LedgerView { chain: spec_blocks(blocks@), state: state@ };
                let r = Ledger::from_parts(blocks, state);
                proof {
                    assert(spec_encode_ledger(read) == bytes@);
                }
                r
            },
        }
    }
}

} // verus!
