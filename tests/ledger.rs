use ledger_vault::account::{Account, Vault};
use ledger_vault::amount::Amount;
use ledger_vault::backend::MemoryBackend;
use ledger_vault::tx::{State, Transaction, Type};

fn make_accounts_from_txns(txns: Vec<Transaction>) -> Vec<Account> {
    let mut backend = MemoryBackend::new(txns);
    let mut vault = Vault::new();
    vault.process_tx_stream(&mut backend);
    vault.get_accounts()
}

fn deposit(client: u16, tx: u32, whole: i64) -> Transaction {
    Transaction::new(client, tx, Type::Deposit { amount: Amount::from_whole(whole) })
}

fn debit(client: u16, tx: u32, whole: i64) -> Transaction {
    Transaction::new(client, tx, Type::Withdrawal { amount: Amount::from_whole(whole) })
}

fn control(client: u16, tx: u32, kind: Type) -> Transaction {
    Transaction::new(client, tx, kind)
}

fn account(accounts: &[Account], client: u16) -> Account {
    *accounts.iter().find(|a| a.client == client).unwrap()
}

#[test]
fn dispute() {
    let txns = vec![deposit(1, 1, 10), control(1, 1, Type::Dispute)];
    let accounts = make_accounts_from_txns(txns);
    assert!(accounts[0].total.units > 0);
    assert_eq!(accounts[0].held, accounts[0].total);
    assert_eq!(accounts[0].available(), Amount::from_whole(0));
}

#[test]
fn dispute_resolution() {
    let txns = vec![
        deposit(1, 1, 10),
        control(1, 1, Type::Dispute),
        control(1, 1, Type::Resolve),
    ];
    let accounts = make_accounts_from_txns(txns);
    assert!(accounts[0].total.units > 0);
    assert_eq!(accounts[0].held, Amount::from_whole(0));
    assert_eq!(accounts[0].total, accounts[0].available());
}

#[test]
fn close() {
    let txns = vec![
        deposit(1, 1, 10),
        control(1, 1, Type::Dispute),
        control(1, 1, Type::Chargeback),
    ];
    let accounts = make_accounts_from_txns(txns);
    assert!(accounts[0].locked);
    assert_eq!(accounts[0].total, Amount::from_whole(0));
    assert_eq!(accounts[0].held, accounts[0].total);
    assert_eq!(accounts[0].available(), Amount::from_whole(0));
}

#[test]
fn withdrawal() {
    let txns = vec![deposit(1, 1, 10), debit(1, 1, 5)];
    let accounts = make_accounts_from_txns(txns);
    assert_eq!(accounts[0].total, Amount::from_whole(5));
    assert_eq!(accounts[0].total, accounts[0].available());
}

#[test]
fn withdrawal_fail() {
    let txns = vec![deposit(1, 1, 10), debit(1, 1, 15)];
    let accounts = make_accounts_from_txns(txns);
    assert_eq!(accounts[0].total, Amount::from_whole(10));
    assert_eq!(accounts[0].total, accounts[0].available());
}

#[test]
fn dispute_holds_deposit() {
    let accounts = make_accounts_from_txns(vec![deposit(1, 1, 10), control(1, 1, Type::Dispute)]);
    let a = account(&accounts, 1);
    assert_eq!(a.total.units, 100000);
    assert_eq!(a.held.units, 100000);
    assert_eq!(a.available().units, 0);
    assert!(!a.locked);
}

#[test]
fn resolve_releases_hold() {
    let accounts = make_accounts_from_txns(vec![
        deposit(1, 1, 10),
        control(1, 1, Type::Dispute),
        control(1, 1, Type::Resolve),
    ]);
    let a = account(&accounts, 1);
    assert_eq!(a.total.units, 100000);
    assert_eq!(a.held.units, 0);
    assert_eq!(a.available().units, 100000);
    assert!(!a.locked);
}

#[test]
fn chargeback_locks() {
    let accounts = make_accounts_from_txns(vec![
        deposit(1, 1, 10),
        control(1, 1, Type::Dispute),
        control(1, 1, Type::Chargeback),
    ]);
    let a = account(&accounts, 1);
    assert_eq!(a.total.units, 0);
    assert_eq!(a.held.units, 0);
    assert_eq!(a.available().units, 0);
    assert!(a.locked);
}

#[test]
fn withdrawal_applies() {
    let accounts = make_accounts_from_txns(vec![deposit(1, 1, 10), debit(1, 2, 5)]);
    let a = account(&accounts, 1);
    assert_eq!(a.total.units, 50000);
    assert_eq!(a.available().units, 50000);
}

#[test]
fn withdrawal_refused() {
    let accounts = make_accounts_from_txns(vec![deposit(1, 1, 10), debit(1, 2, 15)]);
    let a = account(&accounts, 1);
    assert_eq!(a.total.units, 100000);
    assert_eq!(a.available().units, 100000);
}

#[test]
fn repeated_dispute_applies_once() {
    let once = make_accounts_from_txns(vec![deposit(1, 1, 10), control(1, 1, Type::Dispute)]);
    let twice = make_accounts_from_txns(vec![
        deposit(1, 1, 10),
        control(1, 1, Type::Dispute),
        control(1, 1, Type::Dispute),
    ]);
    assert_eq!(once, twice);
    assert_eq!(account(&twice, 1).held.units, 100000);
}

#[test]
fn resolve_between_disputes_cancels() {
    let long = make_accounts_from_txns(vec![
        deposit(1, 1, 10),
        deposit(1, 2, 3),
        control(1, 1, Type::Dispute),
        control(1, 1, Type::Resolve),
        control(1, 1, Type::Dispute),
        control(1, 1, Type::Chargeback),
    ]);
    let short = make_accounts_from_txns(vec![
        deposit(1, 1, 10),
        deposit(1, 2, 3),
        control(1, 1, Type::Dispute),
        control(1, 1, Type::Chargeback),
    ]);
    assert_eq!(long, short);
    let a = account(&long, 1);
    assert_eq!(a.total.units, 30000);
    assert_eq!(a.held.units, 0);
    assert!(a.locked);
}

#[test]
fn dispute_from_other_client_is_skipped() {
    let accounts = make_accounts_from_txns(vec![deposit(1, 1, 10), control(2, 1, Type::Dispute)]);
    let a = account(&accounts, 1);
    assert_eq!(a.total.units, 100000);
    assert_eq!(a.held.units, 0);
    let b = account(&accounts, 2);
    assert_eq!(b.total.units, 0);
    assert_eq!(b.held.units, 0);
    assert!(!b.locked);
}

#[test]
fn balances_stay_consistent() {
    let accounts = make_accounts_from_txns(vec![
        deposit(1, 1, 10),
        debit(1, 2, 10),
        control(1, 1, Type::Dispute),
        control(1, 1, Type::Chargeback),
        deposit(2, 3, 4),
        control(2, 3, Type::Dispute),
        control(2, 3, Type::Resolve),
        control(2, 3, Type::Resolve),
    ]);
    for a in &accounts {
        assert!(a.held.units >= 0);
        assert_eq!(a.available().units, a.total.units - a.held.units);
    }
    let a = account(&accounts, 1);
    assert_eq!(a.total.units, -100000);
    assert_eq!(a.held.units, 0);
    assert!(a.locked);
}

#[test]
fn control_before_its_deposit_is_skipped() {
    let accounts = make_accounts_from_txns(vec![control(1, 1, Type::Dispute), deposit(1, 1, 10)]);
    let a = account(&accounts, 1);
    assert_eq!(a.total.units, 100000);
    assert_eq!(a.held.units, 0);
}

#[test]
fn resolve_without_dispute_is_skipped() {
    let accounts = make_accounts_from_txns(vec![deposit(1, 1, 10), control(1, 1, Type::Resolve)]);
    assert_eq!(account(&accounts, 1).held.units, 0);
    let accounts = make_accounts_from_txns(vec![deposit(1, 1, 10), control(1, 9, Type::Chargeback)]);
    assert!(!account(&accounts, 1).locked);
}

#[test]
fn locked_account_refuses_withdrawals_but_takes_deposits() {
    let accounts = make_accounts_from_txns(vec![
        deposit(1, 1, 10),
        deposit(1, 2, 5),
        control(1, 1, Type::Dispute),
        control(1, 1, Type::Chargeback),
        debit(1, 3, 1),
        deposit(1, 4, 2),
    ]);
    let a = account(&accounts, 1);
    assert!(a.locked);
    assert_eq!(a.total.units, 70000);
}

#[test]
fn dispute_of_withdrawal_moves_no_funds() {
    let accounts = make_accounts_from_txns(vec![
        deposit(1, 1, 10),
        debit(1, 2, 4),
        control(1, 2, Type::Dispute),
        control(1, 2, Type::Chargeback),
    ]);
    let a = account(&accounts, 1);
    assert_eq!(a.total.units, 60000);
    assert_eq!(a.held.units, 0);
    assert!(a.locked);
}

#[test]
fn deposit_past_the_limit_is_skipped() {
    let big = Amount::from_units(ledger_vault::amount::MAX_UNITS).unwrap();
    let accounts = make_accounts_from_txns(vec![
        Transaction::new(1, 1, Type::Deposit { amount: big }),
        deposit(1, 2, 1),
    ]);
    assert_eq!(account(&accounts, 1).total, big);
}

#[test]
fn accounts_open_in_order_of_first_record() {
    let accounts = make_accounts_from_txns(vec![deposit(3, 1, 1), deposit(1, 2, 2), deposit(3, 3, 1)]);
    assert_eq!(accounts.len(), 2);
    assert_eq!(accounts[0].client, 3);
    assert_eq!(accounts[0].total.units, 20000);
    assert_eq!(accounts[1].client, 1);
}

#[test]
fn index_reports_first_root_and_recorded_state() {
    let mut backend = MemoryBackend::new(vec![
        control(1, 7, Type::Dispute),
        deposit(1, 7, 3),
        debit(2, 7, 1),
    ]);
    let t = backend.find_transaction(7).unwrap();
    assert_eq!(t.tx_type, Type::Deposit { amount: Amount::from_whole(3) });
    assert_eq!(t.state, State::NeedsProcessing);
    backend.set_tx_state(7, State::Disputed);
    assert_eq!(backend.find_transaction(7).unwrap().state, State::Disputed);
    assert!(backend.find_transaction(8).is_none());
    assert_eq!(backend.create_tx_stream().len(), 3);
}

#[test]
fn applied_record_is_ignored() {
    let mut vault = Vault::new();
    let mut item = deposit(1, 1, 10);
    item.state = State::Processed;
    assert_eq!(vault.process_tx(&item, &None), None);
    assert!(vault.get_accounts().is_empty());
}

#[test]
fn process_tx_reports_state_to_record() {
    let mut vault = Vault::new();
    let d = deposit(1, 1, 10);
    assert_eq!(vault.process_tx(&d, &None), Some((1, State::Processed)));
    let mut target = d;
    target.state = State::Processed;
    let u = vault.process_tx(&control(1, 1, Type::Dispute), &Some(target));
    assert_eq!(u, Some((1, State::Disputed)));
    assert_eq!(vault.get_accounts()[0].held.units, 100000);
    let w = debit(1, 2, 50);
    assert_eq!(vault.process_tx(&w, &None), Some((2, State::Processed)));
    assert_eq!(vault.get_accounts()[0].total.units, 100000);
}

#[test]
fn state_defaults_to_needs_processing() {
    assert_eq!(State::default(), State::NeedsProcessing);
    assert!(Type::Deposit { amount: Amount::zero() }.is_root());
    assert!(!Type::Chargeback.is_root());
}
