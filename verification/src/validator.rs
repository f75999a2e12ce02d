//! What a validator answers to those who ask for a balance.
use crate::account::{spec_parsed, Address, AddressParseError};
use crate::ledger::{Ledger, LedgerView};
use crate::state::spec_balance;
use vstd::prelude::*;

verus! {

/// A validator: it holds a ledger and answers questions about it.
#[derive(Debug)]
pub struct MyValidator {
    ledger: Ledger,
}

impl View for MyValidator {
    type V = LedgerView;

    closed spec fn view(&self) -> LedgerView {
        self.ledger@
    }
}

impl MyValidator {
    /// A validator that answers from `ledger`.
    pub fn new(ledger: Ledger) -> (validator: MyValidator)
        ensures
            validator@ == ledger@,
    {
        MyValidator { ledger }
    }

    /// The ledger that the validator answers from.
    pub fn ledger(&self) -> (ledger: &Ledger)
        ensures
            ledger@ == self@,
    {
        &self.ledger
    }

    /// The balance of the account whose address is written in `address`, or
    /// the reason why the text is no address.
    pub fn get_balance(&self, address: &str) -> (r: Result<u64, AddressParseError>)
        ensures
            match r {
                Ok(balance) => exists|account: Address|
                    #[trigger] spec_parsed(address@, Ok(account)) && balance == spec_balance(
                        self@.state,
                        account,
                    ),
                Err(e) => spec_parsed(address@, Err(e)),
            },
    {
        match Address::try_from(address) {
            Ok(account) => Ok(self.ledger.balance(account)),
            Err(e) => Err(e),
        }
    }
}

} // verus!
