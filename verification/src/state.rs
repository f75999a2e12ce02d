//! The balance of every account: the state that the chain's transactions
//! build up.
use crate::account::{lemma_address_eq, Address};
use crate::bytes::{
    append_bytes, array_at, lemma_concat_of_windows, lemma_concat_push,
    lemma_concat_uniform_len, lemma_concat_window, lemma_u64_le_injective, spec_concat,
    spec_is_at, spec_uniform, u64_le_at,
};
use crate::transaction::{Transaction, TransactionError, TransactionType};
use vstd::bytes::{lemma_auto_spec_u64_to_from_le_bytes, spec_u64_to_le_bytes, u64_to_le_bytes};
use vstd::prelude::*;

verus! {

/// What a transfer costs its sender on top of the amount. The cost is
/// burned.
pub const TRANSACTION_COST: u64 = 0;

/// The index of the first entry for `address`; the number of entries if
/// there is none.
pub open spec fn spec_position(entries: Seq<(Address, u64)>, address: Address) -> int
    decreases entries.len(),
{
    if entries.len() == 0 {
        0
    } else if entries[0].0 == address {
        0
    } else {
        1 + spec_position(entries.drop_first(), address)
    }
}

/// The balance of `address`: zero if the state has no entry for it.
pub open spec fn spec_balance(entries: Seq<(Address, u64)>, address: Address) -> u64 {
    let i = spec_position(entries, address);
    if i < entries.len() {
        entries[i].1
    } else {
        0
    }
}

/// The state with the balance of `address` set to `amount`: in its entry if
/// it has one, in a new last entry if not.
pub open spec fn spec_with_balance(
    entries: Seq<(Address, u64)>,
    address: Address,
    amount: u64,
) -> Seq<(Address, u64)> {
    let i = spec_position(entries, address);
    if i < entries.len() {
        entries.update(i, (address, amount))
    } else {
        entries.push((address, amount))
    }
}

/// The sum of all balances.
pub open spec fn spec_total(entries: Seq<(Address, u64)>) -> int
    decreases entries.len(),
{
    if entries.len() == 0 {
        0
    } else {
        entries[0].1 + spec_total(entries.drop_first())
    }
}

/// No address has two entries.
pub open spec fn spec_distinct(entries: Seq<(Address, u64)>) -> bool {
    forall|i: int, j: int| 0 <= i < j < entries.len() ==> entries[i].0 != entries[j].0
}

/// Whether the sender of `t` holds the amount and the cost.
pub open spec fn spec_can_pay(entries: Seq<(Address, u64)>, t: Transaction) -> bool {
    spec_balance(entries, t.from_address) >= t.amount + TRANSACTION_COST
}

/// The state after the sender of a transfer has paid; a mint has no sender.
pub open spec fn spec_debit(entries: Seq<(Address, u64)>, t: Transaction) -> Seq<(Address, u64)> {
    match t.tx_type {
        TransactionType::Mint => entries,
        TransactionType::Transfer => spec_with_balance(
            entries,
            t.from_address,
            (spec_balance(entries, t.from_address) - t.amount - TRANSACTION_COST) as u64,
        ),
    }
}

/// Whether the recipient's balance can take the amount of `t`.
pub open spec fn spec_can_receive(entries: Seq<(Address, u64)>, t: Transaction) -> bool {
    spec_balance(spec_debit(entries, t), t.to_address) + t.amount <= u64::MAX
}

/// The state after `t`: the sender of a transfer has paid, the recipient has
/// received.
pub open spec fn spec_apply_transaction(entries: Seq<(Address, u64)>, t: Transaction) -> Seq<
    (Address, u64),
> {
    let paid = spec_debit(entries, t);
    spec_with_balance(paid, t.to_address, (spec_balance(paid, t.to_address) + t.amount) as u64)
}

pub proof fn lemma_position(entries: Seq<(Address, u64)>, address: Address)
    ensures
        0 <= spec_position(entries, address) <= entries.len(),
        spec_position(entries, address) < entries.len() ==> entries[spec_position(
            entries,
            address,
        )].0 == address,
        forall|i: int| 0 <= i < spec_position(entries, address) ==> entries[i].0 != address,
    decreases entries.len(),
{
    if entries.len() > 0 && entries[0].0 != address {
        let rest = entries.drop_first();
        lemma_position(rest, address);
        assert forall|i: int| 0 <= i < spec_position(entries, address) implies entries[i].0
            != address by {
            if i > 0 {
                assert(entries[i] == rest[i - 1]);
            }
        }
    }
}

/// The position of an address is the one index that holds it and has no
/// entry for it before.
pub proof fn lemma_position_is(entries: Seq<(Address, u64)>, address: Address, at: int)
    requires
        0 <= at <= entries.len(),
        at < entries.len() ==> entries[at].0 == address,
        forall|i: int| 0 <= i < at ==> entries[i].0 != address,
    ensures
        spec_position(entries, address) == at,
{
    lemma_position(entries, address);
}

/// Setting one balance changes the total by the difference.
pub proof fn lemma_total_with_balance(entries: Seq<(Address, u64)>, address: Address, amount: u64)
    ensures
        spec_total(spec_with_balance(entries, address, amount)) == spec_total(entries)
            - spec_balance(entries, address) + amount,
    decreases entries.len(),
{
    let after = spec_with_balance(entries, address, amount);
    if entries.len() == 0 {
        assert(after.drop_first() =~= entries);
    } else if entries[0].0 == address {
        assert(after.drop_first() =~= entries.drop_first());
    } else {
        let rest = entries.drop_first();
        lemma_position(rest, address);
        lemma_total_with_balance(rest, address, amount);
        assert(after.drop_first() =~= spec_with_balance(rest, address, amount));
    }
}

/// No balance is more than the total.
pub proof fn lemma_balance_within_total(entries: Seq<(Address, u64)>, address: Address)
    ensures
        0 <= spec_balance(entries, address) <= spec_total(entries),
    decreases entries.len(),
{
    if entries.len() > 0 {
        let rest = entries.drop_first();
        lemma_balance_within_total(rest, address);
        lemma_position(rest, address);
    }
}

/// Setting a balance keeps every address in one entry.
pub proof fn lemma_with_balance_distinct(
    entries: Seq<(Address, u64)>,
    address: Address,
    amount: u64,
)
    requires
        spec_distinct(entries),
    ensures
        spec_distinct(spec_with_balance(entries, address, amount)),
{
    lemma_position(entries, address);
}

/// After a balance is set, it is the balance of that address, and every
/// other address has the balance it had.
pub proof fn lemma_balance_with_balance(
    entries: Seq<(Address, u64)>,
    address: Address,
    amount: u64,
    other: Address,
)
    ensures
        spec_balance(spec_with_balance(entries, address, amount), other) == if other == address {
            amount
        } else {
            spec_balance(entries, other)
        },
{
    let after = spec_with_balance(entries, address, amount);
    let at = spec_position(entries, address);
    let other_at = spec_position(entries, other);
    lemma_position(entries, address);
    lemma_position(entries, other);
    if other == address {
        lemma_position_is(after, address, at);
    } else if other_at < entries.len() {
        lemma_position_is(after, other, other_at);
    } else {
        lemma_position_is(after, other, after.len() as int);
    }
}

/// A transfer that its sender can pay takes the cost out of the total and
/// nothing else: the amount only changes hands.
pub proof fn lemma_transfer_conserves_total(entries: Seq<(Address, u64)>, t: Transaction)
    requires
        t.tx_type == TransactionType::Transfer,
        spec_can_pay(entries, t),
        spec_total(entries) <= u64::MAX,
    ensures
        spec_can_receive(entries, t),
        spec_total(spec_apply_transaction(entries, t)) == spec_total(entries) - TRANSACTION_COST,
{
    let paid = spec_debit(entries, t);
    let left = (spec_balance(entries, t.from_address) - t.amount - TRANSACTION_COST) as u64;
    lemma_total_with_balance(entries, t.from_address, left);
    lemma_balance_within_total(paid, t.to_address);
    lemma_total_with_balance(
        paid,
        t.to_address,
        (spec_balance(paid, t.to_address) + t.amount) as u64,
    );
}

/// A mint adds its amount to the total.
pub proof fn lemma_mint_adds_to_total(entries: Seq<(Address, u64)>, t: Transaction)
    requires
        t.tx_type == TransactionType::Mint,
        spec_can_receive(entries, t),
    ensures
        spec_total(spec_apply_transaction(entries, t)) == spec_total(entries) + t.amount,
{
    lemma_total_with_balance(
        entries,
        t.to_address,
        (spec_balance(entries, t.to_address) + t.amount) as u64,
    );
}

/// Applying a transaction keeps every address in one entry.
pub proof fn lemma_apply_distinct(entries: Seq<(Address, u64)>, t: Transaction)
    requires
        spec_distinct(entries),
    ensures
        spec_distinct(spec_apply_transaction(entries, t)),
{
    let paid = spec_debit(entries, t);
    if t.tx_type == TransactionType::Transfer {
        lemma_with_balance_distinct(
            entries,
            t.from_address,
            (spec_balance(entries, t.from_address) - t.amount - TRANSACTION_COST) as u64,
        );
    }
    lemma_with_balance_distinct(
        paid,
        t.to_address,
        (spec_balance(paid, t.to_address) + t.amount) as u64,
    );
}

/// The balances of all accounts, in the order in which the accounts were
/// first touched. An account without an entry holds nothing.
#[derive(Debug, PartialEq, Eq)]
pub struct Balances {
    entries: Vec<(Address, u64)>,
}

impl View for Balances {
    type V = Seq<(Address, u64)>;

    closed spec fn view(&self) -> Seq<(Address, u64)> {
        self.entries@
    }
}

impl Clone for Balances {
    fn clone(&self) -> (copy: Self)
        ensures
            copy@ == self@,
    {
        let mut entries: Vec<(Address, u64)> = Vec::new();
        let mut i: usize = 0;
        while i < self.entries.len()
            invariant
                i <= self.entries@.len(),
                entries@ == self.entries@.subrange(0, i as int),
            decreases self.entries.len() - i,
        {
            entries.push(self.entries[i]);
            assert(entries@ =~= self.entries@.subrange(0, i + 1));
            i += 1;
        }
        assert(entries@ =~= self.entries@);
        Balances { entries }
    }
}

impl Balances {
    /// Every address has at most one entry.
    pub open spec fn wf(&self) -> bool {
        spec_distinct(self@)
    }

    /// The state in which nobody holds anything.
    pub fn new() -> (state: Balances)
        ensures
            state@ == Seq::<(Address, u64)>::empty(),
            state.wf(),
    {
        Balances { entries: Vec::new() }
    }

    /// The state with the given entries.
    pub fn from_entries(entries: Vec<(Address, u64)>) -> (state: Balances)
        ensures
            state@ == entries@,
    {
        Balances { entries }
    }

    /// The entries, in order.
    pub fn entries(&self) -> (entries: &Vec<(Address, u64)>)
        ensures
            entries@ == self@,
    {
        &self.entries
    }

    /// Whether the two states have the same entries in the same order.
    pub fn same_as(&self, other: &Balances) -> (r: bool)
        ensures
            r == (self@ == other@),
    {
        if self.entries.len() != other.entries.len() {
            return false;
        }
        let mut i: usize = 0;
        while i < self.entries.len()
            invariant
                i <= self.entries@.len(),
                self.entries@.len() == other.entries@.len(),
                forall|j: int| 0 <= j < i ==> self.entries@[j] == other.entries@[j],
            decreases self.entries.len() - i,
        {
            let mine = &self.entries[i];
            let theirs = &other.entries[i];
            if mine.0 != theirs.0 || mine.1 != theirs.1 {
                return false;
            }
            proof {
                lemma_address_eq(mine.0, theirs.0);
            }
            i += 1;
        }
        assert(self.entries@ =~= other.entries@);
        true
    }

    /// The index of the first entry for `address`, or the number of entries.
    fn position(&self, address: &Address) -> (at: usize)
        ensures
            at == spec_position(self@, *address),
            at <= self@.len(),
    {
        let mut i: usize = 0;
        while i < self.entries.len()
            invariant
                i <= self.entries@.len(),
                forall|j: int| 0 <= j < i ==> self.entries@[j].0 != *address,
            decreases self.entries.len() - i,
        {
            if self.entries[i].0 == *address {
                proof {
                    lemma_address_eq(self.entries@[i as int].0, *address);
                    lemma_position_is(self@, *address, i as int);
                }
                return i;
            }
            i += 1;
        }
        proof {
            lemma_position_is(self@, *address, i as int);
        }
        i
    }

    /// The balance of `address`: zero if it has no entry.
    pub fn balance(&self, address: &Address) -> (amount: u64)
        ensures
            amount == spec_balance(self@, *address),
    {
        let at = self.position(address);
        if at < self.entries.len() {
            self.entries[at].1
        } else {
            0
        }
    }

    /// Sets the balance of `address`.
    fn set_balance(&mut self, address: Address, amount: u64)
        ensures
            final(self)@ == spec_with_balance(old(self)@, address, amount),
    {
        let at = self.position(&address);
        if at < self.entries.len() {
            self.entries[at] = (address, amount);
        } else {
            self.entries.push((address, amount));
        }
    }

    /// Whether the sender of `t` holds the amount and the cost.
    pub fn dry_run_transaction(&self, t: &Transaction) -> (r: Result<(), TransactionError>)
        ensures
            match r {
                Ok(()) => spec_can_pay(self@, *t),
                Err(e) => !spec_can_pay(self@, *t) && e == (TransactionError::InsufficientBalance {
                    address: t.from_address,
                    transaction: *t,
                }),
            },
    {
        let balance = self.balance(&t.from_address);
        if balance >= t.amount && balance - t.amount >= TRANSACTION_COST {
            Ok(())
        } else {
            Err(
                TransactionError::InsufficientBalance {
                    address: t.from_address,
                    transaction: *t,
                },
            )
        }
    }

    /// Applies `t` without checking who signed it: the sender of a transfer
    /// pays the amount and the cost, the recipient receives the amount.
    pub fn apply_transaction_unchecked(&mut self, t: &Transaction)
        requires
            t.tx_type == TransactionType::Transfer ==> spec_can_pay(old(self)@, *t),
            spec_can_receive(old(self)@, *t),
        ensures
            final(self)@ == spec_apply_transaction(old(self)@, *t),
            old(self).wf() ==> final(self).wf(),
    {
        proof {
            if self.wf() {
                lemma_apply_distinct(self@, *t);
            }
        }
        match t.tx_type {
            TransactionType::Mint => {},
            TransactionType::Transfer => {
                let balance = self.balance(&t.from_address);
                self.set_balance(t.from_address, balance - t.amount - TRANSACTION_COST);
            },
        }
        let balance = self.balance(&t.to_address);
        self.set_balance(t.to_address, balance + t.amount);
    }
}

/// How many bytes the encoding of an entry has.
pub const ENTRY_BYTES: usize = 40;

/// The encoding of an entry: the address, then the balance little-endian.
pub open spec fn spec_encode_entry(entry: (Address, u64)) -> Seq<u8> {
    entry.0@ + spec_u64_to_le_bytes(entry.1)
}

/// The encodings of the entries, each by itself.
pub open spec fn spec_entry_parts(entries: Seq<(Address, u64)>) -> Seq<Seq<u8>> {
    Seq::new(entries.len(), |i: int| spec_encode_entry(entries[i]))
}

/// The encoding of a state: the number of entries as a little-endian
/// `u64`, then the entries in order.
pub open spec fn spec_encode_state(entries: Seq<(Address, u64)>) -> Seq<u8> {
    spec_u64_to_le_bytes(entries.len() as u64) + spec_concat(spec_entry_parts(entries))
}

/// Where the fields stand in the encoding of an entry.
pub proof fn lemma_encode_entry_fields(entry: (Address, u64))
    ensures
        spec_encode_entry(entry).len() == ENTRY_BYTES,
        spec_encode_entry(entry).subrange(0, 32) == entry.0@,
        spec_encode_entry(entry).subrange(32, 40) == spec_u64_to_le_bytes(entry.1),
{
    lemma_auto_spec_u64_to_from_le_bytes();
    let e = spec_encode_entry(entry);
    assert(spec_u64_to_le_bytes(entry.1).len() == 8);
    assert(e.subrange(0, 32) =~= entry.0@);
    assert(e.subrange(32, 40) =~= spec_u64_to_le_bytes(entry.1));
}

/// Two entries with the same encoding are the same.
pub proof fn lemma_encode_entry_injective(a: (Address, u64), b: (Address, u64))
    requires
        spec_encode_entry(a) == spec_encode_entry(b),
    ensures
        a == b,
{
    lemma_encode_entry_fields(a);
    lemma_encode_entry_fields(b);
    lemma_address_eq(a.0, b.0);
    lemma_u64_le_injective(a.1, b.1);
}

/// The encodings of entries all have `ENTRY_BYTES` bytes.
pub proof fn lemma_entry_parts_uniform(entries: Seq<(Address, u64)>)
    ensures
        spec_uniform(spec_entry_parts(entries), ENTRY_BYTES as nat),
{
    assert forall|i: int| 0 <= i < entries.len() implies (#[trigger] spec_entry_parts(
        entries,
    )[i]).len() == ENTRY_BYTES by {
        lemma_encode_entry_fields(entries[i]);
    }
}

/// Where the parts of an encoded state stand.
pub proof fn lemma_state_at(bytes: Seq<u8>, at: int, end: int, entries: Seq<(Address, u64)>)
    requires
        spec_is_at(bytes, at, end, spec_encode_state(entries)),
    ensures
        end == at + 8 + ENTRY_BYTES * entries.len(),
        bytes.subrange(at, at + 8) == spec_u64_to_le_bytes(entries.len() as u64),
        forall|i: int|
            0 <= i < entries.len() ==> bytes.subrange(
                at + 8 + ENTRY_BYTES * i,
                at + 8 + ENTRY_BYTES * i + ENTRY_BYTES,
            ) == spec_encode_entry(#[trigger] entries[i]),
{
    lemma_auto_spec_u64_to_from_le_bytes();
    let parts = spec_entry_parts(entries);
    let list = spec_concat(parts);
    let whole = spec_encode_state(entries);
    lemma_entry_parts_uniform(entries);
    lemma_concat_uniform_len(parts, ENTRY_BYTES as nat);
    let count = spec_u64_to_le_bytes(entries.len() as u64);
    assert(count.len() == 8);
    assert(list.len() == ENTRY_BYTES * entries.len());
    assert(whole == count + list);
    assert(whole.len() == 8 + list.len());
    assert(bytes.subrange(at, end).len() == end - at);
    assert(bytes.subrange(at, at + 8) =~= whole.subrange(0, 8));
    assert(whole.subrange(0, 8) =~= count);
    assert forall|i: int| 0 <= i < entries.len() implies bytes.subrange(
        at + 8 + ENTRY_BYTES * i,
        at + 8 + ENTRY_BYTES * i + ENTRY_BYTES,
    ) == spec_encode_entry(#[trigger] entries[i]) by {
        lemma_concat_window(parts, ENTRY_BYTES as nat, i);
        let from = ENTRY_BYTES * i;
        assert(list.subrange(from, from + ENTRY_BYTES) == parts[i]);
        let inner = bytes.subrange(at, end);
        assert(bytes.subrange(at + 8 + from, at + 8 + from + ENTRY_BYTES) =~= inner.subrange(
            8 + from,
            8 + from + ENTRY_BYTES,
        ));
        assert(whole.subrange(8 + from, 8 + from + ENTRY_BYTES) =~= list.subrange(
            from,
            from + ENTRY_BYTES,
        ));
    }
}

/// A string that holds the number of the entries and then, one after the
/// other, their encodings, holds the encoding of the state.
pub proof fn lemma_state_of_windows(bytes: Seq<u8>, at: int, entries: Seq<(Address, u64)>)
    requires
        0 <= at,
        at + 8 + ENTRY_BYTES * entries.len() <= bytes.len(),
        bytes.subrange(at, at + 8) == spec_u64_to_le_bytes(entries.len() as u64),
        forall|i: int|
            0 <= i < entries.len() ==> bytes.subrange(
                at + 8 + ENTRY_BYTES * i,
                at + 8 + ENTRY_BYTES * i + ENTRY_BYTES,
            ) == spec_encode_entry(#[trigger] entries[i]),
    ensures
        spec_is_at(bytes, at, at + 8 + ENTRY_BYTES * entries.len(), spec_encode_state(entries)),
{
    let parts = spec_entry_parts(entries);
    let end = at + 8 + ENTRY_BYTES * entries.len();
    let body = bytes.subrange(at + 8, end);
    lemma_entry_parts_uniform(entries);
    assert forall|i: int| 0 <= i < parts.len() implies body.subrange(
        ENTRY_BYTES * i,
        ENTRY_BYTES * i + ENTRY_BYTES,
    ) == #[trigger] parts[i] by {
        assert(parts[i] == spec_encode_entry(entries[i]));
        assert(body.subrange(ENTRY_BYTES * i, ENTRY_BYTES * i + ENTRY_BYTES) =~= bytes.subrange(
            at + 8 + ENTRY_BYTES * i,
            at + 8 + ENTRY_BYTES * i + ENTRY_BYTES,
        ));
    }
    lemma_concat_of_windows(parts, ENTRY_BYTES as nat, body);
    assert(bytes.subrange(at, end) =~= bytes.subrange(at, at + 8) + body);
}

/// Two states whose encodings start at the same place of a string are the
/// same state.
pub proof fn lemma_state_unique(
    bytes: Seq<u8>,
    at: int,
    end: int,
    entries: Seq<(Address, u64)>,
    other_end: int,
    others: Seq<(Address, u64)>,
)
    requires
        spec_is_at(bytes, at, end, spec_encode_state(entries)),
        spec_is_at(bytes, at, other_end, spec_encode_state(others)),
        entries.len() <= u64::MAX,
        others.len() <= u64::MAX,
    ensures
        end == other_end,
        entries == others,
{
    lemma_state_at(bytes, at, end, entries);
    lemma_state_at(bytes, at, other_end, others);
    lemma_u64_le_injective(entries.len() as u64, others.len() as u64);
    assert forall|i: int| 0 <= i < entries.len() implies entries[i] == others[i] by {
        lemma_encode_entry_injective(entries[i], others[i]);
    }
    assert(entries =~= others);
}

/// The state whose encoding starts at `at`, and where the encoding ends, if
/// there is such a state.
pub fn decode_state_at(bytes: &[u8], at: usize) -> (r: Option<(Balances, usize)>)
    requires
        at <= bytes@.len(),
    ensures
        match r {
            Some((state, end)) => state@.len() <= usize::MAX && spec_is_at(
                bytes@,
                at as int,
                end as int,
                spec_encode_state(state@),
            ),
            None => forall|entries: Seq<(Address, u64)>, end: int|
                entries.len() <= u64::MAX ==> !#[trigger] spec_is_at(
                    bytes@,
                    at as int,
                    end,
                    spec_encode_state(entries),
                ),
        },
{
    let len = bytes.len();
    if len - at < 8 {
        assert forall|entries: Seq<(Address, u64)>, end: int| entries.len() <= u64::MAX implies !#[trigger] spec_is_at(
            bytes@,
            at as int,
            end,
            spec_encode_state(entries),
        ) by {
            if spec_is_at(bytes@, at as int, end, spec_encode_state(entries)) {
                lemma_state_at(bytes@, at as int, end, entries);
            }
        }
        return None;
    }
    let count = u64_le_at(bytes, at);
    let room = (len - at - 8) / ENTRY_BYTES;
    if count > room as u64 {
        assert forall|entries: Seq<(Address, u64)>, end: int| entries.len() <= u64::MAX implies !#[trigger] spec_is_at(
            bytes@,
            at as int,
            end,
            spec_encode_state(entries),
        ) by {
            if spec_is_at(bytes@, at as int, end, spec_encode_state(entries)) {
                lemma_state_at(bytes@, at as int, end, entries);
                lemma_u64_le_injective(entries.len() as u64, count);
            }
        }
        return None;
    }
    let n = count as usize;
    let mut entries: Vec<(Address, u64)> = Vec::new();
    let mut i: usize = 0;
    while i < n
        invariant
            i <= n,
            n == count,
            len == bytes@.len(),
            at + 8 + ENTRY_BYTES * n <= len,
            spec_u64_to_le_bytes(count) == bytes@.subrange(at as int, at + 8),
            entries@.len() == i,
            forall|j: int|
                0 <= j < i ==> bytes@.subrange(
                    at + 8 + ENTRY_BYTES * j,
                    at + 8 + ENTRY_BYTES * j + ENTRY_BYTES,
                ) == spec_encode_entry(#[trigger] entries@[j]),
        decreases n - i,
    {
        let from = at + 8 + ENTRY_BYTES * i;
        let entry = (Address(array_at::<32>(bytes, from)), u64_le_at(bytes, from + 32));
        proof {
            lemma_encode_entry_fields(entry);
            assert(spec_encode_entry(entry) =~= bytes@.subrange(from as int, from + ENTRY_BYTES));
        }
        entries.push(entry);
        i += 1;
    }
    proof {
        lemma_state_of_windows(bytes@, at as int, entries@);
    }
    Some((Balances { entries }, at + 8 + ENTRY_BYTES * n))
}

impl Balances {
    /// The encoding of the state.
    pub fn encode(&self) -> (bytes: Vec<u8>)
        ensures
            bytes@ == spec_encode_state(self@),
    {
        let mut bytes: Vec<u8> = Vec::new();
        self.encode_into(&mut bytes);
        assert(bytes@ =~= spec_encode_state(self@));
        bytes
    }

    /// Appends the encoding of the state to `out`.
    pub fn encode_into(&self, out: &mut Vec<u8>)
        ensures
            final(out)@ == old(out)@ + spec_encode_state(self@),
    {
        let count = u64_to_le_bytes(self.entries.len() as u64);
        append_bytes(out, count.as_slice());
        let mut i: usize = 0;
        assert(spec_entry_parts(self@.subrange(0, 0)) =~= Seq::<Seq<u8>>::empty());
        while i < self.entries.len()
            invariant
                i <= self.entries@.len(),
                out@ == old(out)@ + spec_u64_to_le_bytes(self@.len() as u64) + spec_concat(
                    spec_entry_parts(self@.subrange(0, i as int)),
                ),
            decreases self.entries.len() - i,
        {
            let entry = &self.entries[i];
            append_bytes(out, &entry.0.0);
            let amount = u64_to_le_bytes(entry.1);
            append_bytes(out, amount.as_slice());
            proof {
                let done = spec_entry_parts(self@.subrange(0, i as int));
                let part = spec_encode_entry(self@[i as int]);
                assert(spec_entry_parts(self@.subrange(0, i + 1)) =~= done.push(part));
                lemma_concat_push(done, part);
            }
            i += 1;
        }
        assert(self@.subrange(0, self@.len() as int) =~= self@);
        assert(out@ =~= old(out)@ + spec_encode_state(self@));
    }
}

} // verus!
