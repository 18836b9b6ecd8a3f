use crate::account::{client_pos, has_client, replay, step, table_step, table_wf, target_of, Account};
use crate::backend::{all_wf, find_root, lemma_find_root_wf, record, state_of};
use crate::tx::{State, Transaction, Type};
use vstd::prelude::*;

verus! {

/// Whether `target` is absent or well formed.
pub open spec fn target_wf(target: Option<Transaction>) -> bool {
    match target {
        Some(t) => t.wf(),
        None => true,
    }
}

/// One record keeps an account consistent and owned by the same client.
pub proof fn lemma_step_wf(a: Account, item: Transaction, target: Option<Transaction>)
    requires
        a.wf(),
        item.wf(),
        target_wf(target),
    ensures
        step(a, item, target).0.wf(),
        step(a, item, target).0.client == a.client,
{
}

/// The account that a table holds for `client`, or a fresh one.
pub open spec fn account_of(s: Seq<Account>, client: u16) -> Account {
    if has_client(s, client) {
        s[client_pos(s, client)]
    } else {
        Account::opened(client)
    }
}

/// One record on a table: the table stays well formed, and the record's
/// client has an account, at a position that later records find again.
pub proof fn lemma_table_step(s: Seq<Account>, item: Transaction, target: Option<Transaction>)
    requires
        table_wf(s),
        item.wf(),
        target_wf(target),
    ensures
        table_wf(table_step(s, item, target).0),
        item.state == State::NeedsProcessing ==> {
            let s1 = table_step(s, item, target).0;
            &&& has_client(s1, item.client)
            &&& s1[client_pos(s1, item.client)] == step(account_of(s, item.client), item, target).0
            &&& table_step(s, item, target).1 == step(account_of(s, item.client), item, target).1
            &&& s1.len() >= s.len()
            &&& forall|j: int| 0 <= j < s.len() && s[j].client != item.client ==> s1[j] == s[j]
        },
{
    if item.state == State::NeedsProcessing {
        let c = item.client;
        let a = account_of(s, c);
        lemma_step_wf(a, item, target);
        let s1 = table_step(s, item, target).0;
        if has_client(s, c) {
            let i = client_pos(s, c);
            assert(s1 == s.update(i, step(a, item, target).0));
            assert(s1[i].client == c);
            assert forall|p: int, q: int|
                0 <= p < s1.len() && 0 <= q < s1.len() && p != q implies #[trigger] s1[p].client != #[trigger] s1[q].client by {
                assert(s[p].client != s[q].client);
            }
            assert(client_pos(s1, c) == i);
        } else {
            let i = s.len() as int;
            assert(s1[i].client == c);
            assert forall|p: int, q: int|
                0 <= p < s1.len() && 0 <= q < s1.len() && p != q implies #[trigger] s1[p].client != #[trigger] s1[q].client by {
                if p < s.len() && q < s.len() {
                    assert(s[p].client != s[q].client);
                } else if p < s.len() {
                    assert(s[p].client == s1[p].client);
                } else if q < s.len() {
                    assert(s[q].client == s1[q].client);
                }
            }
            assert(client_pos(s1, c) == i);
        }
    }
}

/// Where a record leaves the account of its client as it is and records
/// nothing, it leaves a table that already holds that account as it is.
pub proof fn lemma_table_step_noop(s: Seq<Account>, item: Transaction, target: Option<Transaction>)
    requires
        table_wf(s),
        has_client(s, item.client),
        step(account_of(s, item.client), item, target) == (account_of(s, item.client), None::<(u32, State)>),
    ensures
        table_step(s, item, target) == (s, None::<(u32, State)>),
{
    if item.state == State::NeedsProcessing {
        let i = client_pos(s, item.client);
        assert(s.update(i, s[i]) =~= s);
    }
}

/// Every table that replaying records reaches is well formed: each account
/// holds no negative funds, and its available funds are its total less what
/// it holds.
pub proof fn lemma_replay_consistent(
    s: Seq<Account>,
    txns: Seq<Transaction>,
    states: Map<u32, State>,
    items: Seq<Transaction>,
)
    requires
        table_wf(s),
        all_wf(txns),
        all_wf(items),
    ensures
        table_wf(replay(s, txns, states, items).0),
        forall|i: int|
            0 <= i < replay(s, txns, states, items).0.len() ==> {
                let a = #[trigger] replay(s, txns, states, items).0[i];
                &&& 0 <= a.held.units
                &&& a.available_spec() == a.total.units - a.held.units
            },
    decreases items.len(),
{
    if items.len() > 0 {
        let item = items[0];
        assert(item.wf());
        let target = target_of(txns, states, item);
        lemma_find_root_wf(txns, item.tx);
        lemma_table_step(s, item, target);
        let r = table_step(s, item, target);
        assert(all_wf(items.drop_first())) by {
            assert forall|i: int| 0 <= i < items.drop_first().len() implies (#[trigger] items.drop_first()[i]).wf() by {
                assert(items[i + 1].wf());
            }
        }
        lemma_replay_consistent(r.0, txns, record(states, r.1), items.drop_first());
    }
    let t = replay(s, txns, states, items).0;
    assert forall|i: int| 0 <= i < t.len() implies 0 <= (#[trigger] t[i]).held.units by {
        assert(t[i].wf());
    }
}

/// A control record that names an id changes nothing when the index's answer
/// for that id is not a root transaction of the account's client, or not in
/// the state that the record acts on.
proof fn lemma_control_skipped(a: Account, item: Transaction, target: Option<Transaction>, from: State)
    requires
        item.tx_type is Dispute ==> from == State::Processed,
        item.tx_type is Resolve || item.tx_type is Chargeback ==> from == State::Disputed,
        !item.tx_type.is_root(),
        match target {
            Some(t) => !crate::account::targets(a, item, t, from),
            None => true,
        },
    ensures
        step(a, item, target) == (a, None::<(u32, State)>),
{
}

/// A dispute record that comes twice in a row has the effect of one: the
/// second finds its transaction already disputed. Tables and recorded states
/// agree.
pub proof fn lemma_repeated_dispute(s: Seq<Account>, txns: Seq<Transaction>, states: Map<u32, State>, d: Transaction)
    requires
        table_wf(s),
        all_wf(txns),
        d.tx_type is Dispute,
    ensures
        replay(s, txns, states, seq![d, d]) == replay(s, txns, states, seq![d]),
{
    assert(seq![d, d].drop_first() =~= seq![d]);
    assert(seq![d].drop_first() =~= Seq::<Transaction>::empty());
    let tg1 = target_of(txns, states, d);
    lemma_find_root_wf(txns, d.tx);
    lemma_table_step(s, d, tg1);
    let r1 = table_step(s, d, tg1);
    let s1 = r1.0;
    let states1 = record(states, r1.1);
    if d.state == State::NeedsProcessing {
        let a0 = account_of(s, d.client);
        let a1 = step(a0, d, tg1).0;
        assert(account_of(s1, d.client) == a1);
        let tg2 = target_of(txns, states1, d);
        match r1.1 {
            Some(u) => {
                assert(u.1 == State::Disputed);
                assert(state_of(states1, d.tx) == State::Disputed);
                lemma_control_skipped(a1, d, tg2, State::Processed);
            },
            None => {
                assert(a1 == a0);
                assert(tg2 == tg1);
            },
        }
        lemma_table_step_noop(s1, d, tg2);
    }
    let tg2 = target_of(txns, states1, d);
    assert(table_step(s1, d, tg2) == (s1, None::<(u32, State)>));
    assert(replay(s1, txns, states1, Seq::<Transaction>::empty()) == (s1, states1));
    assert(replay(s1, txns, states1, seq![d]) == (s1, states1));
    assert(replay(s, txns, states, seq![d]) == (s1, states1));
}

/// The account, the recorded state of id `x`, and whether anything was
/// recorded, after control records `items` act on account `a` whose client
/// they name, where the index holds `root` for `x` in state `st`.
pub open spec fn control_chain(a: Account, st: State, changed: bool, root: Option<Transaction>, items: Seq<Transaction>) -> (Account, State, bool)
    decreases items.len(),
{
    if items.len() == 0 {
        (a, st, changed)
    } else {
        let target = match root {
            Some(t) => Some(Transaction { state: st, ..t }),
            None => None,
        };
        let r = step(a, items[0], target);
        match r.1 {
            Some(u) => control_chain(r.0, u.1, true, root, items.drop_first()),
            None => control_chain(r.0, st, changed, root, items.drop_first()),
        }
    }
}

/// Whether `items` are unapplied control records of client `client` on id `x`.
pub open spec fn controls_on(items: Seq<Transaction>, client: u16, x: u32) -> bool {
    forall|k: int|
        0 <= k < items.len() ==> {
            &&& !(#[trigger] items[k]).tx_type.is_root()
            &&& items[k].client == client
            &&& items[k].tx == x
            &&& items[k].state == State::NeedsProcessing
        }
}

proof fn lemma_chain_changed(a: Account, st: State, root: Option<Transaction>, items: Seq<Transaction>)
    ensures
        control_chain(a, st, true, root, items) == ({
            let r = control_chain(a, st, false, root, items);
            (r.0, r.1, true)
        }),
        !control_chain(a, st, false, root, items).2 ==> control_chain(a, st, false, root, items).1 == st,
    decreases items.len(),
{
    if items.len() > 0 {
        let target = match root {
            Some(t) => Some(Transaction { state: st, ..t }),
            None => None,
        };
        let r = step(a, items[0], target);
        match r.1 {
            Some(u) => lemma_chain_changed(r.0, u.1, root, items.drop_first()),
            None => lemma_chain_changed(r.0, st, root, items.drop_first()),
        }
    }
}

/// Replaying control records of one client on one id, where the client has an
/// account, changes only that account and only the state of that id, as
/// [`control_chain`] says.
pub proof fn lemma_replay_controls(
    s: Seq<Account>,
    txns: Seq<Transaction>,
    states: Map<u32, State>,
    items: Seq<Transaction>,
    client: u16,
    x: u32,
)
    requires
        table_wf(s),
        all_wf(txns),
        has_client(s, client),
        controls_on(items, client, x),
    ensures
        ({
            let i = client_pos(s, client);
            let ch = control_chain(s[i], state_of(states, x), false, find_root(txns, x), items);
            replay(s, txns, states, items) == (
                s.update(i, ch.0),
                if ch.2 { states.insert(x, ch.1) } else { states },
            )
        }),
    decreases items.len(),
{
    let i = client_pos(s, client);
    if items.len() == 0 {
        assert(s.update(i, s[i]) =~= s);
    } else {
        let item = items[0];
        assert(!item.tx_type.is_root() && item.client == client && item.tx == x);
        let target = target_of(txns, states, item);
        lemma_find_root_wf(txns, x);
        lemma_table_step(s, item, target);
        let r = table_step(s, item, target);
        let a1 = step(s[i], item, target).0;
        assert(r.0 == s.update(i, a1));
        assert(table_wf(r.0));
        assert(r.0[i].client == client);
        assert(client_pos(r.0, client) == i);
        let rest = items.drop_first();
        assert(controls_on(rest, client, x)) by {
            assert forall|k: int| 0 <= k < rest.len() implies {
                &&& !(#[trigger] rest[k]).tx_type.is_root()
                &&& rest[k].client == client
                &&& rest[k].tx == x
                &&& rest[k].state == State::NeedsProcessing
            } by {
                assert(rest[k] == items[k + 1]);
            }
        }
        let states1 = record(states, r.1);
        lemma_replay_controls(r.0, txns, states1, rest, client, x);
        assert(r.0.update(i, control_chain(a1, state_of(states1, x), false, find_root(txns, x), rest).0)
            =~= s.update(i, control_chain(a1, state_of(states1, x), false, find_root(txns, x), rest).0));
        match r.1 {
            Some(u) => {
                assert(u.0 == x);
                lemma_chain_changed(a1, u.1, find_root(txns, x), rest);
                let ch = control_chain(a1, u.1, false, find_root(txns, x), rest);
                if ch.2 {
                    assert(states.insert(x, u.1).insert(x, ch.1) =~= states.insert(x, ch.1));
                } else {
                    assert(ch.1 == u.1);
                }
            },
            None => {},
        }
    }
}

/// A dispute, a resolution, a second dispute and a chargeback of one
/// transaction leave the same accounts and recorded states as the dispute and
/// the chargeback alone: the resolution undoes exactly what the first dispute
/// did.
pub proof fn lemma_resolve_then_redispute(
    s: Seq<Account>,
    txns: Seq<Transaction>,
    states: Map<u32, State>,
    d: Transaction,
    r: Transaction,
    c: Transaction,
)
    requires
        table_wf(s),
        all_wf(txns),
        d.tx_type is Dispute,
        r.tx_type is Resolve,
        c.tx_type is Chargeback,
        r.client == d.client && c.client == d.client,
        r.tx == d.tx && c.tx == d.tx,
        d.state == State::NeedsProcessing,
        r.state == State::NeedsProcessing,
        c.state == State::NeedsProcessing,
    ensures
        replay(s, txns, states, seq![d, r, d, c]) == replay(s, txns, states, seq![d, c]),
{
    let cl = d.client;
    let x = d.tx;
    let root = find_root(txns, x);
    let tg = target_of(txns, states, d);
    lemma_find_root_wf(txns, x);
    lemma_table_step(s, d, tg);
    let r1 = table_step(s, d, tg);
    let s1 = r1.0;
    let states1 = record(states, r1.1);
    let long = seq![r, d, c];
    let short = seq![c];
    assert(seq![d, r, d, c].drop_first() =~= long);
    assert(seq![d, c].drop_first() =~= short);
    assert(long.drop_first() =~= seq![d, c]);
    assert(short.drop_first() =~= Seq::<Transaction>::empty());
    assert(controls_on(long, cl, x));
    assert(controls_on(short, cl, x));
    lemma_replay_controls(s1, txns, states1, long, cl, x);
    lemma_replay_controls(s1, txns, states1, short, cl, x);
    let i = client_pos(s1, cl);
    let a0 = account_of(s, cl);
    let a1 = s1[i];
    let st0 = state_of(states, x);
    let st1 = state_of(states1, x);
    assert(a1 == step(a0, d, tg).0);
    reveal_with_fuel(control_chain, 4);
    let ch1 = control_chain(a1, st1, false, root, long);
    let ch2 = control_chain(a1, st1, false, root, short);
    match r1.1 {
        Some(u) => {
            assert(st1 == State::Disputed);
            assert(ch1.0 == ch2.0);
            assert((if ch1.2 { states1.insert(x, ch1.1) } else { states1 }) =~= (if ch2.2 {
                states1.insert(x, ch2.1)
            } else {
                states1
            }));
        },
        None => {
            assert(a1 == a0);
            assert(st1 == st0);
            assert(ch1.0 == ch2.0);
            assert((if ch1.2 { states1.insert(x, ch1.1) } else { states1 }) =~= (if ch2.2 {
                states1.insert(x, ch2.1)
            } else {
                states1
            }));
        },
    }
}

/// A dispute record whose transaction belongs to another client changes no
/// account's funds and records no state: at most it opens an empty account for
/// the client that it names.
pub proof fn lemma_cross_client_dispute(s: Seq<Account>, txns: Seq<Transaction>, states: Map<u32, State>, d: Transaction)
    requires
        table_wf(s),
        all_wf(txns),
        d.tx_type is Dispute,
        match find_root(txns, d.tx) {
            Some(t) => t.client != d.client,
            None => false,
        },
    ensures
        ({
            let r = replay(s, txns, states, seq![d]);
            &&& r.1 == states
            &&& s.len() <= r.0.len() <= s.len() + 1
            &&& forall|j: int| 0 <= j < s.len() ==> r.0[j] == s[j]
            &&& r.0.len() == s.len() + 1 ==> r.0[s.len() as int] == Account::opened(d.client)
        }),
{
    assert(seq![d].drop_first() =~= Seq::<Transaction>::empty());
    let tg = target_of(txns, states, d);
    if d.state == State::NeedsProcessing {
        let a = account_of(s, d.client);
        assert(step(a, d, tg) == (a, None::<(u32, State)>));
        if has_client(s, d.client) {
            let i = client_pos(s, d.client);
            assert(s.update(i, a) =~= s);
            assert(table_step(s, d, tg) == (s, None::<(u32, State)>));
        } else {
            assert(table_step(s, d, tg) == (s.push(a), None::<(u32, State)>));
        }
    }
    let r1 = table_step(s, d, tg);
    assert(replay(s, txns, states, seq![d]) == replay(r1.0, txns, record(states, r1.1), Seq::<Transaction>::empty()));
}

} // verus!
