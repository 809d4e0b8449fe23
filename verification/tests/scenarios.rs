use tinypay::accounts::Account;
use tinypay::amount::SCALE;
use tinypay::events::{reduce, reduce_with, Chargeback, Dispute, Event, Resolve, Transaction};
use tinypay::ledger::{ChargebackPolicy, Ledger};

fn transaction(id: u32, client_id: u16, amount: i64) -> Event {
    Event::Transaction(Transaction { id, client_id, amount })
}

fn dispute(transaction_id: u32, client_id: u16) -> Event {
    Event::Dispute(Dispute { transaction_id, client_id })
}

fn resolve(transaction_id: u32, client_id: u16) -> Event {
    Event::Resolve(Resolve { transaction_id, client_id })
}

fn chargeback(transaction_id: u32, client_id: u16) -> Event {
    Event::Chargeback(Chargeback { transaction_id, client_id })
}

fn account(client: u16, available: i64, held: i64, total: i64, locked: bool) -> Account {
    Account { client, available, held, total, locked }
}

const POLICIES: [ChargebackPolicy; 2] =
    [ChargebackPolicy::LockUndisputed, ChargebackPolicy::LockOverdrawn];

#[test]
fn new_account_is_empty_and_unlocked() {
    assert_eq!(Account::new(7), account(7, 0, 0, 0, false));
}

#[test]
fn client_id_of_every_kind_of_event() {
    assert_eq!(transaction(1, 11, 5).client_id(), 11);
    assert_eq!(dispute(1, 12).client_id(), 12);
    assert_eq!(resolve(1, 13).client_id(), 13);
    assert_eq!(chargeback(1, 14).client_id(), 14);
}

#[test]
fn simple_deposit() {
    let accounts = reduce(&[transaction(1, 1, 100 * SCALE)]);
    assert_eq!(accounts, vec![account(1, 1_000_000, 0, 1_000_000, false)]);
}

#[test]
fn insufficient_withdrawal_is_dropped() {
    let accounts = reduce(&[transaction(1, 1, 100 * SCALE), transaction(2, 1, -150 * SCALE)]);
    assert_eq!(accounts, vec![account(1, 1_000_000, 0, 1_000_000, false)]);
}

#[test]
fn withdrawal_of_everything_is_accepted() {
    let accounts = reduce(&[transaction(1, 1, 100 * SCALE), transaction(2, 1, -100 * SCALE)]);
    assert_eq!(accounts, vec![account(1, 0, 0, 0, false)]);
}

#[test]
fn chargeback_without_dispute_locks() {
    let accounts = reduce(&[transaction(1, 1, 100 * SCALE), chargeback(1, 1)]);
    assert_eq!(accounts, vec![account(1, 1_000_000, 0, 1_000_000, true)]);
}

#[test]
fn chargeback_without_dispute_is_ignored_under_the_other_policy() {
    let accounts = reduce_with(
        &[transaction(1, 1, 100 * SCALE), chargeback(1, 1)],
        ChargebackPolicy::LockOverdrawn,
    );
    assert_eq!(accounts, vec![account(1, 1_000_000, 0, 1_000_000, false)]);
}

#[test]
fn disputed_chargeback_may_leave_the_total_negative() {
    let accounts = reduce(&[
        transaction(1, 1, 100 * SCALE),
        transaction(2, 1, -50 * SCALE),
        dispute(1, 1),
        chargeback(1, 1),
    ]);
    assert_eq!(accounts, vec![account(1, -500_000, 0, -500_000, false)]);
}

#[test]
fn overdrawing_chargeback_locks_under_the_other_policy() {
    let accounts = reduce_with(
        &[
            transaction(1, 1, 100 * SCALE),
            transaction(2, 1, -50 * SCALE),
            dispute(1, 1),
            chargeback(1, 1),
        ],
        ChargebackPolicy::LockOverdrawn,
    );
    assert_eq!(accounts, vec![account(1, -500_000, 1_000_000, 500_000, true)]);
}

#[test]
fn resolve_returns_funds() {
    let accounts = reduce(&[transaction(1, 1, 100 * SCALE), dispute(1, 1), resolve(1, 1)]);
    assert_eq!(accounts, vec![account(1, 1_000_000, 0, 1_000_000, false)]);
}

#[test]
fn locked_account_ignores_what_follows() {
    let accounts = reduce(&[
        transaction(1, 1, 100 * SCALE),
        chargeback(1, 1),
        transaction(2, 1, 50 * SCALE),
    ]);
    assert_eq!(accounts, vec![account(1, 1_000_000, 0, 1_000_000, true)]);
}

#[test]
fn locked_account_ignores_every_kind_of_event() {
    for policy in POLICIES {
        let mut ledger = Ledger::new(1);
        ledger.apply(policy, &transaction(1, 1, 100 * SCALE));
        ledger.apply(policy, &transaction(2, 1, -50 * SCALE));
        ledger.apply(policy, &dispute(1, 1));
        match policy {
            ChargebackPolicy::LockUndisputed => ledger.apply(policy, &chargeback(9, 1)),
            ChargebackPolicy::LockOverdrawn => ledger.apply(policy, &chargeback(1, 1)),
        }
        let locked = ledger.account();
        assert_eq!(locked, account(1, -500_000, 1_000_000, 500_000, true));
        for event in [
            transaction(3, 1, 10 * SCALE),
            transaction(4, 1, -SCALE),
            dispute(2, 1),
            resolve(1, 1),
            chargeback(1, 1),
            chargeback(5, 1),
        ] {
            ledger.apply(policy, &event);
            assert_eq!(ledger.account(), locked);
            assert_eq!(ledger.amount_of(1), Some(100 * SCALE));
            assert_eq!(ledger.amount_of(2), Some(-50 * SCALE));
            assert_eq!(ledger.amount_of(3), None);
            assert!(ledger.is_disputed(1));
            assert!(!ledger.is_disputed(2));
        }
    }
}

#[test]
fn total_is_available_plus_held_after_every_event() {
    let events = [
        transaction(1, 1, 100 * SCALE),
        transaction(2, 1, -30 * SCALE),
        dispute(2, 1),
        dispute(1, 1),
        transaction(3, 1, 5),
        resolve(2, 1),
        chargeback(1, 1),
        transaction(4, 1, 12_345),
        dispute(4, 1),
        chargeback(7, 1),
        transaction(5, 1, 1),
    ];
    for policy in POLICIES {
        let mut ledger = Ledger::new(1);
        let mut was_locked = false;
        for event in events.iter() {
            ledger.apply(policy, event);
            let now = ledger.account();
            assert_eq!(now.client, 1);
            assert_eq!(now.total, now.available + now.held);
            assert!(now.locked || !was_locked);
            was_locked = now.locked;
        }
    }
}

#[test]
fn balances_after_a_mixed_history() {
    let events = [
        transaction(1, 1, 100 * SCALE),
        transaction(2, 1, -30 * SCALE),
        dispute(2, 1),
        dispute(1, 1),
        resolve(2, 1),
        chargeback(1, 1),
    ];
    // 100 - 30 = 70; dispute of the withdrawal: available 100, held -30;
    // dispute of the deposit: available 0, held 70; resolve of the
    // withdrawal: available -30, held 100; chargeback of the deposit:
    // held 0, total -30.
    assert_eq!(reduce(&events), vec![account(1, -300_000, 0, -300_000, false)]);
    assert_eq!(
        reduce_with(&events, ChargebackPolicy::LockOverdrawn),
        vec![account(1, -300_000, 1_000_000, 700_000, true)]
    );
}

#[test]
fn second_transaction_with_a_known_id_is_ignored_whatever_its_amount() {
    for policy in POLICIES {
        for amount in [100 * SCALE, 1, 0, -1, -100 * SCALE, i64::MAX, i64::MIN] {
            let accounts = reduce_with(
                &[transaction(1, 1, 100 * SCALE), transaction(1, 1, amount)],
                policy,
            );
            assert_eq!(accounts, vec![account(1, 1_000_000, 0, 1_000_000, false)]);
        }
    }
}

#[test]
fn id_of_a_rejected_transaction_stays_free() {
    let accounts = reduce(&[transaction(1, 1, -5 * SCALE), transaction(1, 1, 7 * SCALE)]);
    assert_eq!(accounts, vec![account(1, 70_000, 0, 70_000, false)]);
}

#[test]
fn dispute_then_resolve_restores_the_account() {
    for policy in POLICIES {
        for amount in [100 * SCALE, -20 * SCALE, 0, 1] {
            let mut ledger = Ledger::new(1);
            ledger.apply(policy, &transaction(1, 1, 500 * SCALE));
            ledger.apply(policy, &transaction(2, 1, amount));
            let before = ledger.account();
            ledger.apply(policy, &dispute(2, 1));
            assert!(ledger.is_disputed(2));
            assert_eq!(ledger.account().available, before.available - amount);
            assert_eq!(ledger.account().held, amount);
            ledger.apply(policy, &resolve(2, 1));
            assert_eq!(ledger.account(), before);
            assert!(!ledger.is_disputed(2));
            assert_eq!(ledger.amount_of(2), Some(amount));
        }
    }
}

#[test]
fn events_on_unknown_transactions_change_nothing() {
    for policy in POLICIES {
        for event in [dispute(9, 1), resolve(9, 1)] {
            let accounts = reduce_with(&[transaction(1, 1, 100 * SCALE), event], policy);
            assert_eq!(accounts, vec![account(1, 1_000_000, 0, 1_000_000, false)]);
        }
    }
    assert_eq!(
        reduce_with(
            &[transaction(1, 1, 100 * SCALE), chargeback(9, 1)],
            ChargebackPolicy::LockOverdrawn
        ),
        vec![account(1, 1_000_000, 0, 1_000_000, false)]
    );
    assert_eq!(
        reduce_with(
            &[transaction(1, 1, 100 * SCALE), chargeback(9, 1)],
            ChargebackPolicy::LockUndisputed
        ),
        vec![account(1, 1_000_000, 0, 1_000_000, true)]
    );
}

#[test]
fn ledger_knows_what_was_accepted_and_not_charged_back() {
    let policy = ChargebackPolicy::LockUndisputed;
    let mut ledger = Ledger::new(3);
    assert_eq!(ledger.amount_of(1), None);
    ledger.apply(policy, &transaction(1, 3, 40));
    ledger.apply(policy, &transaction(2, 3, -50));
    ledger.apply(policy, &transaction(3, 3, -15));
    assert_eq!(ledger.amount_of(1), Some(40));
    assert_eq!(ledger.amount_of(2), None);
    assert_eq!(ledger.amount_of(3), Some(-15));
    ledger.apply(policy, &dispute(2, 3));
    assert!(!ledger.is_disputed(2));
    ledger.apply(policy, &dispute(1, 3));
    assert!(ledger.is_disputed(1));
    ledger.apply(policy, &chargeback(1, 3));
    assert!(!ledger.is_disputed(1));
    assert_eq!(ledger.amount_of(1), None);
    assert_eq!(ledger.amount_of(3), Some(-15));
    assert_eq!(ledger.account(), account(3, -15, 0, -15, false));
    // The id of a transaction that was charged back is free again.
    ledger.apply(policy, &transaction(1, 3, 100));
    assert_eq!(ledger.amount_of(1), Some(100));
    assert_eq!(ledger.account(), account(3, 85, 0, 85, false));
}

#[test]
fn deposit_is_accepted_on_a_negative_balance() {
    let accounts = reduce(&[
        transaction(1, 1, 100 * SCALE),
        transaction(2, 1, -50 * SCALE),
        dispute(1, 1),
        chargeback(1, 1),
        transaction(3, 1, 20 * SCALE),
        transaction(4, 1, -SCALE),
    ]);
    assert_eq!(accounts, vec![account(1, -300_000, 0, -300_000, false)]);
}

#[test]
fn second_dispute_of_an_open_dispute_is_ignored() {
    for policy in POLICIES {
        let accounts = reduce_with(
            &[transaction(1, 1, 100 * SCALE), dispute(1, 1), dispute(1, 1)],
            policy,
        );
        assert_eq!(accounts, vec![account(1, 0, 1_000_000, 1_000_000, false)]);
    }
}

#[test]
fn resolved_transaction_may_be_disputed_again() {
    let accounts = reduce(&[
        transaction(1, 1, 100 * SCALE),
        dispute(1, 1),
        resolve(1, 1),
        dispute(1, 1),
    ]);
    assert_eq!(accounts, vec![account(1, 0, 1_000_000, 1_000_000, false)]);
}

#[test]
fn resolve_without_dispute_is_ignored() {
    let accounts = reduce(&[transaction(1, 1, 100 * SCALE), resolve(1, 1)]);
    assert_eq!(accounts, vec![account(1, 1_000_000, 0, 1_000_000, false)]);
}

#[test]
fn disputed_withdrawal_makes_held_negative() {
    let accounts = reduce(&[
        transaction(1, 1, 100 * SCALE),
        transaction(2, 1, -40 * SCALE),
        dispute(2, 1),
    ]);
    assert_eq!(accounts, vec![account(1, 1_000_000, -400_000, 600_000, false)]);
}

#[test]
fn event_that_would_overflow_is_dropped() {
    let accounts = reduce(&[transaction(1, 1, i64::MAX), transaction(2, 1, 1)]);
    assert_eq!(accounts, vec![account(1, i64::MAX, 0, i64::MAX, false)]);

    // The dispute would carry the available funds below the least balance.
    let accounts = reduce(&[
        transaction(1, 1, i64::MAX),
        transaction(2, 1, -i64::MAX),
        dispute(2, 1),
        dispute(1, 1),
        transaction(3, 1, -2),
        dispute(2, 1),
        transaction(4, 1, i64::MAX),
        dispute(4, 1),
    ]);
    assert_eq!(accounts, vec![account(1, 0, i64::MAX, i64::MAX, false)]);
}

#[test]
fn accounts_come_in_the_order_of_first_events() {
    let accounts = reduce(&[
        dispute(1, 9),
        transaction(1, 3, 10),
        transaction(1, 7, 20),
        transaction(2, 3, 5),
        chargeback(4, 7),
        transaction(1, 9, 1),
    ]);
    assert_eq!(
        accounts,
        vec![account(9, 1, 0, 1, false), account(3, 15, 0, 15, false), account(7, 20, 0, 20, true)]
    );
}

#[test]
fn transaction_ids_belong_to_their_client() {
    let accounts = reduce(&[
        transaction(1, 1, 10),
        transaction(1, 2, 20),
        dispute(1, 2),
        resolve(1, 1),
    ]);
    assert_eq!(accounts, vec![account(1, 10, 0, 10, false), account(2, 0, 20, 20, false)]);
}

#[test]
fn dropped_event_still_opens_an_account() {
    for policy in POLICIES {
        assert_eq!(reduce_with(&[dispute(1, 4)], policy), vec![account(4, 0, 0, 0, false)]);
        assert_eq!(
            reduce_with(&[transaction(1, 4, -1)], policy),
            vec![account(4, 0, 0, 0, false)]
        );
    }
}

#[test]
fn ledger_follows_events_whichever_client_they_name() {
    let mut ledger = Ledger::new(1);
    ledger.apply(ChargebackPolicy::LockUndisputed, &transaction(1, 2, 10));
    assert_eq!(ledger.account(), account(1, 10, 0, 10, false));
}
