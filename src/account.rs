use crate::amount::{in_range, Amount};
use crate::backend::{lemma_find_root_wf, lookup, record, MemoryBackend};
use crate::tx::{State, Transaction, Type};
use vstd::prelude::*;

verus! {

/// The balances of one client.
#[derive(Clone, Copy, Debug, PartialEq, Eq, Structural)]
pub struct Account {
    pub client: u16,
    /// Funds set aside by open disputes.
    pub held: Amount,
    /// All funds, held or not.
    pub total: Amount,
    /// Set by a chargeback; a locked account refuses withdrawals.
    pub locked: bool,
}

/// Whether balances of `held` and `total` ten-thousandths leave an account
/// consistent: nothing negative is held, and the held, total and available
/// funds are all representable.
pub open spec fn consistent(held: int, total: int) -> bool {
    &&& 0 <= held
    &&& in_range(held)
    &&& in_range(total)
    &&& in_range(total - held)
}

impl Account {
    pub open spec fn wf(self) -> bool {
        consistent(self.held.units as int, self.total.units as int)
    }

    pub open spec fn available_spec(&self) -> int {
        self.total.units - self.held.units
    }

    /// The account that a client has before its first transaction.
    pub open spec fn opened(client: u16) -> Account {
        Account { client, held: Amount { units: 0 }, total: Amount { units: 0 }, locked: false }
    }

    /// The funds that are not held: `total - held`.
    pub fn available(&self) -> (r: Amount)
        requires
            self.wf(),
        ensures
            r.units == self.available_spec(),
            r.wf(),
    {
        Amount { units: self.total.units - self.held.units }
    }

    /// A new account of `client`, with no funds and unlocked.
    pub fn new(client: u16) -> (r: Account)
        ensures
            r == Account::opened(client),
            r.wf(),
    {
        Account { client, held: Amount::zero(), total: Amount::zero(), locked: false }
    }
}

/// The account with new balances and lock flag.
pub open spec fn with_funds(a: Account, held: int, total: int, locked: bool) -> Account {
    Account {
        client: a.client,
        held: Amount { units: held as i128 },
        total: Amount { units: total as i128 },
        locked,
    }
}

/// Whether `t` is the root transaction that the control record `item` on
/// account `a` refers to, owned by that account's client and in state `s`.
pub open spec fn targets(a: Account, item: Transaction, t: Transaction, s: State) -> bool {
    &&& t.tx == item.tx
    &&& t.tx_type.is_root()
    &&& t.client == a.client
    &&& t.state == s
}

/// What one record does to the account of its client, given the root
/// transaction that the index holds for its id (looked up for control records
/// only): the new account, and the lifecycle state to record, if any.
///
/// A record whose precondition fails, or whose effect would leave the account
/// inconsistent, changes nothing and records no state. A refused withdrawal is
/// still recorded as processed.
pub open spec fn step(a: Account, item: Transaction, target: Option<Transaction>) -> (Account, Option<(u32, State)>) {
    let held = a.held.units as int;
    let total = a.total.units as int;
    match item.tx_type {
        Type::Deposit { amount } => {
            if consistent(held, total + amount.units) {
                (with_funds(a, held, total + amount.units, a.locked), Some((item.tx, State::Processed)))
            } else {
                (a, None)
            }
        },
        Type::Withdrawal { amount } => {
            if !a.locked && a.available_spec() >= amount.units && consistent(held, total - amount.units) {
                (with_funds(a, held, total - amount.units, a.locked), Some((item.tx, State::Processed)))
            } else {
                (a, Some((item.tx, State::Processed)))
            }
        },
        Type::Dispute => match target {
            Some(t) if targets(a, item, t, State::Processed) => match t.tx_type {
                Type::Deposit { amount } => if consistent(held + amount.units, total) {
                    (with_funds(a, held + amount.units, total, a.locked), Some((t.tx, State::Disputed)))
                } else {
                    (a, None)
                },
                _ => (a, Some((t.tx, State::Disputed))),
            },
            _ => (a, None),
        },
        Type::Resolve => match target {
            Some(t) if targets(a, item, t, State::Disputed) => match t.tx_type {
                Type::Deposit { amount } => if consistent(held - amount.units, total) {
                    (with_funds(a, held - amount.units, total, a.locked), Some((t.tx, State::Processed)))
                } else {
                    (a, None)
                },
                _ => (a, Some((t.tx, State::Processed))),
            },
            _ => (a, None),
        },
        Type::Chargeback => match target {
            Some(t) if targets(a, item, t, State::Disputed) => match t.tx_type {
                Type::Deposit { amount } => if consistent(held - amount.units, total - amount.units) {
                    (with_funds(a, held - amount.units, total - amount.units, true), Some((t.tx, State::ChargedBack)))
                } else {
                    (a, None)
                },
                _ => (with_funds(a, held, total, true), Some((t.tx, State::ChargedBack))),
            },
            _ => (a, None),
        },
    }
}

/// Whether `t` is the root transaction that `item` refers to, owned by the
/// client of `a` and in state `s`.
fn is_target(a: &Account, item: &Transaction, t: &Transaction, s: State) -> (r: bool)
    ensures
        r == targets(*a, *item, *t, s),
{
    t.tx == item.tx && t.tx_type.is_root() && t.client == a.client && t.state == s
}

/// Applies one record to the account of its client; `target` is what the
/// index holds for the record's id. Returns the lifecycle state to record.
pub fn apply(a: &mut Account, item: &Transaction, target: &Option<Transaction>) -> (u: Option<(u32, State)>)
    requires
        old(a).wf(),
        item.wf(),
        match *target {
            Some(t) => t.wf(),
            None => true,
        },
    ensures
        (*final(a), u) == step(*old(a), *item, *target),
        final(a).wf(),
{
    match item.tx_type {
        Type::Deposit { amount } => {
            if let Some(total) = a.total.checked_add(amount) {
                if let Some(_) = total.checked_sub(a.held) {
                    a.total = total;
                    return Some((item.tx, State::Processed));
                }
            }
            None
        },
        Type::Withdrawal { amount } => {
            if !a.locked && a.total.units - a.held.units >= amount.units {
                if let Some(total) = a.total.checked_sub(amount) {
                    if let Some(_) = total.checked_sub(a.held) {
                        a.total = total;
                    }
                }
            }
            Some((item.tx, State::Processed))
        },
        Type::Dispute => {
            let t = match target {
                Some(t) => t,
                None => return None,
            };
            if !is_target(a, item, t, State::Processed) {
                return None;
            }
            if let Type::Deposit { amount } = t.tx_type {
                if let Some(held) = a.held.checked_add(amount) {
                    if held.units < 0 {
                        return None;
                    }
                    if let Some(_) = a.total.checked_sub(held) {
                        a.held = held;
                        return Some((t.tx, State::Disputed));
                    }
                }
                return None;
            }
            Some((t.tx, State::Disputed))
        },
        Type::Resolve => {
            let t = match target {
                Some(t) => t,
                None => return None,
            };
            if !is_target(a, item, t, State::Disputed) {
                return None;
            }
            if let Type::Deposit { amount } = t.tx_type {
                if amount.units > a.held.units {
                    return None;
                }
                if let Some(held) = a.held.checked_sub(amount) {
                    if let Some(_) = a.total.checked_sub(held) {
                        a.held = held;
                        return Some((t.tx, State::Processed));
                    }
                }
                return None;
            }
            Some((t.tx, State::Processed))
        },
        Type::Chargeback => {
            let t = match target {
                Some(t) => t,
                None => return None,
            };
            if !is_target(a, item, t, State::Disputed) {
                return None;
            }
            if let Type::Deposit { amount } = t.tx_type {
                if amount.units > a.held.units {
                    return None;
                }
                if let Some(held) = a.held.checked_sub(amount) {
                    if let Some(total) = a.total.checked_sub(amount) {
                        if let Some(_) = total.checked_sub(held) {
                            a.held = held;
                            a.total = total;
                            a.locked = true;
                            return Some((t.tx, State::ChargedBack));
                        }
                    }
                }
                return None;
            }
            a.locked = true;
            Some((t.tx, State::ChargedBack))
        },
    }
}

/// Whether every account in `s` is consistent and no client has two.
pub open spec fn table_wf(s: Seq<Account>) -> bool {
    &&& forall|i: int| 0 <= i < s.len() ==> (#[trigger] s[i]).wf()
    &&& forall|i: int, j: int|
        0 <= i < s.len() && 0 <= j < s.len() && i != j ==> #[trigger] s[i].client != #[trigger] s[j].client
}

/// Whether the table `s` has an account of `client`.
pub open spec fn has_client(s: Seq<Account>, client: u16) -> bool {
    exists|i: int| 0 <= i < s.len() && #[trigger] s[i].client == client
}

/// The position of the account of `client` in `s`, where there is one.
pub open spec fn client_pos(s: Seq<Account>, client: u16) -> int {
    choose|i: int| 0 <= i < s.len() && #[trigger] s[i].client == client
}

/// What one record does to the account table: a record that is not awaiting
/// processing is ignored; otherwise the account of its client is opened if
/// there is none, and the record is applied to it by [`step`].
pub open spec fn table_step(s: Seq<Account>, item: Transaction, target: Option<Transaction>) -> (Seq<Account>, Option<(u32, State)>) {
    if item.state != State::NeedsProcessing {
        (s, None)
    } else if has_client(s, item.client) {
        let i = client_pos(s, item.client);
        let r = step(s[i], item, target);
        (s.update(i, r.0), r.1)
    } else {
        let r = step(Account::opened(item.client), item, target);
        (s.push(r.0), r.1)
    }
}

/// What the index is asked for a record: nothing for a root record, the
/// record's id for a control record.
pub open spec fn target_of(txns: Seq<Transaction>, states: Map<u32, State>, item: Transaction) -> Option<Transaction> {
    if item.tx_type.is_root() {
        None
    } else {
        lookup(txns, states, item.tx)
    }
}

/// The account table and the recorded states after applying `items` in order,
/// starting from table `s` and states `states`, with the index over `txns`.
pub open spec fn replay(s: Seq<Account>, txns: Seq<Transaction>, states: Map<u32, State>, items: Seq<Transaction>) -> (Seq<Account>, Map<u32, State>)
    decreases items.len(),
{
    if items.len() == 0 {
        (s, states)
    } else {
        let r = table_step(s, items[0], target_of(txns, states, items[0]));
        replay(r.0, txns, record(states, r.1), items.drop_first())
    }
}

/// The table of client accounts.
pub struct Vault {
    accounts: Vec<Account>,
}

impl View for Vault {
    type V = Seq<Account>;

    closed spec fn view(&self) -> Seq<Account> {
        self.accounts@
    }
}

impl Vault {
    pub open spec fn wf(&self) -> bool {
        table_wf(self@)
    }

    /// An empty table.
    pub fn new() -> (r: Vault)
        ensures
            r@ == Seq::<Account>::empty(),
            r.wf(),
    {
        Vault { accounts: Vec::new() }
    }

    /// A snapshot of every account.
    pub fn get_accounts(&self) -> (r: Vec<Account>)
        ensures
            r@ == self@,
    {
        self.accounts.clone()
    }

    /// Applies one record, given what the index holds for its id (consulted
    /// for control records only). Returns the lifecycle state that the index
    /// must record, if any.
    pub fn process_tx(&mut self, item: &Transaction, target: &Option<Transaction>) -> (u: Option<(u32, State)>)
        requires
            old(self).wf(),
            item.wf(),
            match *target {
                Some(t) => t.wf(),
                None => true,
            },
        ensures
            (final(self)@, u) == table_step(old(self)@, *item, *target),
            final(self).wf(),
    {
        if item.state != State::NeedsProcessing {
            return None;
        }
        let n = self.accounts.len();
        let mut i: usize = 0;
        while i < n
            invariant
                n == self.accounts.len(),
                i <= n,
                self@ == old(self)@,
                table_wf(self@),
                item.wf(),
                item.state == State::NeedsProcessing,
                match *target {
                    Some(t) => t.wf(),
                    None => true,
                },
                forall|j: int| 0 <= j < i ==> (#[trigger] self.accounts@[j]).client != item.client,
            decreases n - i,
        {
            if self.accounts[i].client == item.client {
                let ghost s = self@;
                assert(has_client(s, item.client));
                assert(client_pos(s, item.client) == i as int);
                let mut a = self.accounts[i];
                let u = apply(&mut a, item, target);
                self.accounts.set(i, a);
                assert forall|p: int, q: int|
                    0 <= p < self@.len() && 0 <= q < self@.len() && p != q implies #[trigger] self@[p].client != #[trigger] self@[q].client by {
                    assert(s[p].client != s[q].client);
                }
                return u;
            }
            i = i + 1;
        }
        let ghost s = self@;
        assert(!has_client(s, item.client));
        let mut a = Account::new(item.client);
        let u = apply(&mut a, item, target);
        self.accounts.push(a);
        assert forall|p: int, q: int|
            0 <= p < self@.len() && 0 <= q < self@.len() && p != q implies #[trigger] self@[p].client != #[trigger] self@[q].client by {
            if p < s.len() && q < s.len() {
                assert(s[p].client != s[q].client);
            }
        }
        u
    }

    /// Applies every record of `backend`, in order, consulting and updating
    /// its lifecycle states.
    pub fn process_tx_stream(&mut self, backend: &mut MemoryBackend)
        requires
            old(self).wf(),
            old(backend).wf(),
        ensures
            final(self).wf(),
            final(backend).txns() == old(backend).txns(),
            (final(self)@, final(backend).states()) == replay(
                old(self)@,
                old(backend).txns(),
                old(backend).states(),
                old(backend).txns(),
            ),
    {
        let stream = backend.create_tx_stream();
        let ghost txns = stream@;
        let n = stream.len();
        let mut i: usize = 0;
        assert(txns.subrange(0, n as int) =~= txns);
        while i < n
            invariant
                n == stream@.len(),
                i <= n,
                txns == stream@,
                backend.txns() == txns,
                backend.wf(),
                self.wf(),
                replay(old(self)@, txns, old(backend).states(), txns) == replay(
                    self@,
                    txns,
                    backend.states(),
                    txns.subrange(i as int, n as int),
                ),
            decreases n - i,
        {
            let ghost rest = txns.subrange(i as int, n as int);
            assert(rest.drop_first() =~= txns.subrange(i + 1, n as int));
            let item = stream[i];
            assert(item.wf());
            let target = if item.tx_type.is_root() {
                None
            } else {
                backend.find_transaction(item.tx)
            };
            proof {
                lemma_find_root_wf(txns, item.tx);
            }
            let u = self.process_tx(&item, &target);
            if let Some((id, state)) = u {
                backend.set_tx_state(id, state);
            }
            i = i + 1;
        }
    }
}

} // verus!
