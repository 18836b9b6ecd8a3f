use crate::tx::{State, Transaction};
use std::collections::HashMap;
use vstd::prelude::*;

verus! {

broadcast use vstd::std_specs::hash::group_hash_axioms;

/// The first root transaction of `txns` whose id is `id`.
pub open spec fn find_root(txns: Seq<Transaction>, id: u32) -> Option<Transaction>
    decreases txns.len(),
{
    if txns.len() == 0 {
        None
    } else if txns[0].tx == id && txns[0].tx_type.is_root() {
        Some(txns[0])
    } else {
        find_root(txns.drop_first(), id)
    }
}

/// The lifecycle state recorded for `id`; one never recorded awaits processing.
pub open spec fn state_of(states: Map<u32, State>, id: u32) -> State {
    if states.contains_key(id) {
        states[id]
    } else {
        State::NeedsProcessing
    }
}

/// What the index answers for `id`: the first root transaction with that id,
/// carrying the state last recorded for the id.
pub open spec fn lookup(txns: Seq<Transaction>, states: Map<u32, State>, id: u32) -> Option<Transaction> {
    match find_root(txns, id) {
        Some(t) => Some(Transaction { state: state_of(states, id), ..t }),
        None => None,
    }
}

/// The states after recording `u`, if there is anything to record.
pub open spec fn record(states: Map<u32, State>, u: Option<(u32, State)>) -> Map<u32, State> {
    match u {
        Some((id, s)) => states.insert(id, s),
        None => states,
    }
}

/// Whether every record of `txns` is well formed.
pub open spec fn all_wf(txns: Seq<Transaction>) -> bool {
    forall|i: int| 0 <= i < txns.len() ==> (#[trigger] txns[i]).wf()
}

/// A root transaction that the index finds among well-formed records is well
/// formed.
pub proof fn lemma_find_root_wf(txns: Seq<Transaction>, id: u32)
    requires
        all_wf(txns),
    ensures
        match find_root(txns, id) {
            Some(t) => t.wf(),
            None => true,
        },
    decreases txns.len(),
{
    if txns.len() > 0 {
        assert(txns[0].wf());
        assert(all_wf(txns.drop_first())) by {
            assert forall|i: int| 0 <= i < txns.drop_first().len() implies (#[trigger] txns.drop_first()[i]).wf() by {
                assert(txns[i + 1].wf());
            }
        }
        lemma_find_root_wf(txns.drop_first(), id);
    }
}

/// A transaction index held in memory: the records in their order, and the
/// lifecycle state recorded for each id.
pub struct MemoryBackend {
    txns: Vec<Transaction>,
    tx_states: HashMap<u32, State>,
}

impl MemoryBackend {
    pub closed spec fn txns(&self) -> Seq<Transaction> {
        self.txns@
    }

    pub closed spec fn states(&self) -> Map<u32, State> {
        self.tx_states@
    }

    pub open spec fn wf(&self) -> bool {
        all_wf(self.txns())
    }

    /// An index over `txns` with no state recorded.
    pub fn new(txns: Vec<Transaction>) -> (r: MemoryBackend)
        ensures
            r.txns() == txns@,
            r.states() == Map::<u32, State>::empty(),
    {
        MemoryBackend { txns, tx_states: HashMap::new() }
    }

    /// All records, in the order in which they are to be applied.
    pub fn create_tx_stream(&self) -> (r: Vec<Transaction>)
        ensures
            r@ == self.txns(),
    {
        self.txns.clone()
    }

    /// The first root transaction with id `id`, with the state last recorded
    /// for that id.
    pub fn find_transaction(&self, id: u32) -> (r: Option<Transaction>)
        ensures
            r == lookup(self.txns(), self.states(), id),
    {
        let n = self.txns.len();
        let mut i: usize = 0;
        assert(self.txns@.subrange(0, n as int) =~= self.txns@);
        while i < n
            invariant
                n == self.txns@.len(),
                i <= n,
                find_root(self.txns@, id) == find_root(self.txns@.subrange(i as int, n as int), id),
            decreases n - i,
        {
            let ghost rest = self.txns@.subrange(i as int, n as int);
            assert(rest.drop_first() =~= self.txns@.subrange(i + 1, n as int));
            let t = self.txns[i];
            if t.tx == id && t.tx_type.is_root() {
                let state = match self.tx_states.get(&id) {
                    Some(s) => *s,
                    None => State::NeedsProcessing,
                };
                return Some(Transaction { state, ..t });
            }
            i = i + 1;
        }
        None
    }

    /// Records `state` for `id`.
    pub fn set_tx_state(&mut self, id: u32, state: State)
        ensures
            final(self).txns() == old(self).txns(),
            final(self).states() == old(self).states().insert(id, state),
    {
        self.tx_states.insert(id, state);
    }
}

} // verus!
