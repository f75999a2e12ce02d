//! The ledger engine of a small account-based blockchain.
//!
//! A [`ledger::Ledger`] is a chain of proof-of-work blocks together with the
//! balance of every account, derived by replaying the blocks from genesis.
//! Blocks carry transfers signed with Falcon-512; every hash is SHA3-256.
pub mod account;
pub mod block;
pub mod bytes;
pub mod chain;
pub mod client;
pub mod codec;
pub mod hash;
pub mod ledger;
pub mod state;
pub mod transaction;
pub mod validator;
