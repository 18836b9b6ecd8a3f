use crate::amount::Amount;
use vstd::prelude::*;

verus! {

/// The kind of a transaction record.
#[derive(Clone, Copy, Debug, PartialEq, Eq, Structural)]
pub enum Type {
    /// A deposit. This is a root transaction.
    Deposit { amount: Amount },
    /// A withdrawal. This is a root transaction.
    Withdrawal { amount: Amount },
    /// A dispute of the root transaction named by [`Transaction::tx`].
    Dispute,
    /// A resolution of the disputed root transaction named by [`Transaction::tx`].
    Resolve,
    /// A chargeback of the disputed root transaction named by [`Transaction::tx`].
    Chargeback,
}

impl Type {
    pub open spec fn is_root_spec(&self) -> bool {
        self is Deposit || self is Withdrawal
    }

    /// Whether this is a root transaction, one that refers to no other
    /// transaction.
    #[verifier::when_used_as_spec(is_root_spec)]
    pub fn is_root(&self) -> (r: bool)
        ensures
            r == self.is_root_spec(),
    {
        match self {
            Type::Deposit { .. } | Type::Withdrawal { .. } => true,
            _ => false,
        }
    }

    pub open spec fn wf(self) -> bool {
        match self {
            Type::Deposit { amount } => amount.wf(),
            Type::Withdrawal { amount } => amount.wf(),
            _ => true,
        }
    }
}

/// The lifecycle state of a root transaction.
#[derive(Clone, Copy, Debug, PartialEq, Eq, Structural)]
pub enum State {
    /// Not applied yet.
    NeedsProcessing,
    /// Applied: funds were credited or debited, or a withdrawal was refused.
    Processed,
    /// Under dispute: the deposited funds are held.
    Disputed,
    /// Charged back; this state is final.
    ChargedBack,
}

impl Default for State {
    fn default() -> (r: State)
        ensures
            r == State::NeedsProcessing,
    {
        State::NeedsProcessing
    }
}

/// One transaction record, with the lifecycle state that is known of it.
#[derive(Clone, Copy, Debug, PartialEq, Eq, Structural)]
pub struct Transaction {
    pub client: u16,
    pub tx: u32,
    pub tx_type: Type,
    pub state: State,
}

impl Transaction {
    pub open spec fn wf(self) -> bool {
        self.tx_type.wf()
    }

    /// A record that has not been applied yet.
    pub fn new(client: u16, tx: u32, tx_type: Type) -> (r: Transaction)
        ensures
            r == (Transaction { client, tx, tx_type, state: State::NeedsProcessing }),
    {
        Transaction { client, tx, tx_type, state: State::NeedsProcessing }
    }
}

} // verus!
