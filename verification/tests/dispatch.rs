use tinypay::accounts::Account;
use tinypay::dispatch::{
    action_for, default_workers, merge, reduce_sharded, shard, worker_index, workers_for, Action,
};
use tinypay::events::csv::{next_event, FromCsvRowError, NextError};
use tinypay::events::{reduce_with, Chargeback, Dispute, Event, Resolve, Transaction};
use tinypay::ledger::ChargebackPolicy;

fn stream() -> Vec<Event> {
    let mut events = Vec::new();
    for round in 0..4_u32 {
        for client_id in [5_u16, 0, 12, 7, 65_535, 6, 1] {
            let id = round * 10 + u32::from(client_id % 10);
            events.push(Event::Transaction(Transaction {
                id,
                client_id,
                amount: i64::from(client_id) * 3 + i64::from(round) * 10_000 + 1,
            }));
            events.push(Event::Transaction(Transaction { id: id + 100, client_id, amount: -2 }));
            if client_id % 2 == 0 {
                events.push(Event::Dispute(Dispute { transaction_id: id, client_id }));
            }
            if client_id % 4 == 0 && round > 0 {
                events.push(Event::Resolve(Resolve { transaction_id: id, client_id }));
            }
            if client_id == 6 && round == 2 {
                events.push(Event::Chargeback(Chargeback { transaction_id: id, client_id }));
            }
            if client_id == 7 && round == 1 {
                events.push(Event::Chargeback(Chargeback { transaction_id: id, client_id }));
            }
        }
    }
    events.push(Event::Transaction(Transaction { id: 900, client_id: 1, amount: 1_000_000 }));
    events.push(Event::Transaction(Transaction { id: 901, client_id: 1, amount: -1_000_000 }));
    events.push(Event::Dispute(Dispute { transaction_id: 900, client_id: 1 }));
    events.push(Event::Chargeback(Chargeback { transaction_id: 900, client_id: 1 }));
    events.push(Event::Transaction(Transaction { id: 902, client_id: 1, amount: 5 }));
    events
}

fn sorted(mut accounts: Vec<Account>) -> Vec<Account> {
    accounts.sort_by_key(|account| {
        (account.client, account.available, account.held, account.total, account.locked)
    });
    accounts
}

#[test]
fn worker_is_client_modulo_workers() {
    assert_eq!(worker_index(0, 1), 0);
    assert_eq!(worker_index(65_535, 1), 0);
    assert_eq!(worker_index(10, 4), 2);
    assert_eq!(worker_index(11, 4), 3);
    assert_eq!(worker_index(12, 4), 0);
    assert_eq!(worker_index(65_535, 65_536), 65_535);
    assert_eq!(worker_index(65_535, 1_000_000), 65_535);
    assert_eq!(worker_index(65_535, 1_000), 535);
}

#[test]
fn pool_has_a_worker_for_each_processor_and_never_none() {
    assert_eq!(workers_for(0), 1);
    assert_eq!(workers_for(1), 1);
    assert_eq!(workers_for(16), 16);
    assert_eq!(workers_for(usize::MAX), usize::MAX);
    assert!(default_workers() >= 1);
}

#[test]
fn shard_keeps_the_order_of_each_worker() {
    let events = stream();
    for workers in [1_usize, 2, 3, 7, 16] {
        let queues = shard(&events, workers);
        assert_eq!(queues.len(), workers);
        for (worker, queue) in queues.iter().enumerate() {
            let expected: Vec<Event> = events
                .iter()
                .copied()
                .filter(|event| usize::from(event.client_id()) % workers == worker)
                .collect();
            assert_eq!(queue, &expected);
        }
    }
    assert_eq!(shard(&[], 3), vec![Vec::<Event>::new(), Vec::new(), Vec::new()]);
}

#[test]
fn merge_puts_the_answers_one_after_the_other() {
    let first = Account { client: 1, available: 1, held: 0, total: 1, locked: false };
    let second = Account { client: 2, available: 0, held: 2, total: 2, locked: true };
    let third = Account::new(3);
    assert_eq!(merge(&vec![]), vec![]);
    assert_eq!(merge(&vec![vec![], vec![]]), vec![]);
    assert_eq!(
        merge(&vec![vec![second], vec![], vec![third, first]]),
        vec![second, third, first]
    );
}

#[test]
fn sharded_replay_holds_the_accounts_of_the_plain_replay() {
    let events = stream();
    for policy in [ChargebackPolicy::LockUndisputed, ChargebackPolicy::LockOverdrawn] {
        let plain = reduce_with(&events, policy);
        assert_eq!(plain.len(), 7);
        assert!(plain.iter().any(|account| account.locked));
        assert_eq!(reduce_sharded(&events, 1, policy), plain);
        for workers in [2_usize, 3, 4, 5, 8, 64, 70_000] {
            let sharded = reduce_sharded(&events, workers, policy);
            assert_eq!(sorted(sharded), sorted(plain.clone()));
        }
    }
}

#[test]
fn sharded_replay_lists_workers_in_order() {
    let events = [
        Event::Transaction(Transaction { id: 1, client_id: 3, amount: 30 }),
        Event::Transaction(Transaction { id: 1, client_id: 2, amount: 20 }),
        Event::Transaction(Transaction { id: 1, client_id: 4, amount: 40 }),
        Event::Transaction(Transaction { id: 1, client_id: 1, amount: 10 }),
    ];
    let clients: Vec<u16> = reduce_sharded(&events, 2, ChargebackPolicy::LockUndisputed)
        .iter()
        .map(|account| account.client)
        .collect();
    assert_eq!(clients, vec![2, 4, 3, 1]);
    assert_eq!(reduce_sharded(&[], 4, ChargebackPolicy::LockUndisputed), vec![]);
}

#[test]
fn dispatcher_stops_skips_or_sends() {
    let event = Event::Dispute(Dispute { transaction_id: 1, client_id: 10 });
    assert_eq!(action_for::<NextError>(None, 4), Action::Stop);
    assert_eq!(
        action_for(Some(Err(NextError::Parse(FromCsvRowError::MissingAmount))), 4),
        Action::Skip
    );
    assert_eq!(action_for(Some(Err(NextError::IO("broken pipe".to_string()))), 4), Action::Skip);
    assert_eq!(action_for::<NextError>(Some(Ok(event)), 4), Action::Send(2, event));
    assert_eq!(action_for::<NextError>(Some(Ok(event)), 1), Action::Send(0, event));
    assert_eq!(action_for::<String>(Some(Ok(event)), 11), Action::Send(10, event));
}

#[test]
fn dispatcher_routes_what_the_reader_answers() {
    let lines = [
        "type, client, tx, amount",
        "deposit, 5, 1, 2.5",
        "dispute, 6, 1, 7",
        "withdrawal, 6, 2",
        "resolve, 6, 2",
    ];
    let mut actions = Vec::new();
    for line in lines {
        actions.push(action_for(next_event(Ok(Some(line.to_string()))), 4));
    }
    actions.push(action_for(next_event(Err("broken pipe".to_string())), 4));
    actions.push(action_for(next_event(Ok(None)), 4));
    assert_eq!(
        actions,
        vec![
            Action::Skip,
            Action::Send(1, Event::Transaction(Transaction { id: 1, client_id: 5, amount: 25_000 })),
            Action::Skip,
            Action::Skip,
            Action::Send(2, Event::Resolve(Resolve { transaction_id: 2, client_id: 6 })),
            Action::Skip,
            Action::Stop,
        ]
    );
}
