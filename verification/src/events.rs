//! The events that move funds, and the replay that turns them into accounts.

pub mod csv;

use crate::accounts::Account;
use crate::ledger::{
    lemma_known_transactions, lemma_lock_is_kept, lemma_locked_ledger_ignores_events,
    lemma_step_keeps_consistency, ChargebackPolicy, Ledger, LedgerState,
};
use std::collections::HashMap;
use vstd::prelude::*;

verus! {

/// A deposit (`amount >= 0`) or a withdrawal (`amount < 0`), in
/// ten-thousandths of a unit.
#[derive(Clone, Copy, Debug, PartialEq, Eq, Structural)]
pub struct Transaction {
    pub id: u32,
    pub client_id: u16,
    pub amount: i64,
}

/// A claim against an earlier transaction of the same client.
#[derive(Clone, Copy, Debug, PartialEq, Eq, Structural)]
pub struct Dispute {
    pub transaction_id: u32,
    pub client_id: u16,
}

/// The friendly end of a dispute: the funds return to the client.
#[derive(Clone, Copy, Debug, PartialEq, Eq, Structural)]
pub struct Resolve {
    pub transaction_id: u32,
    pub client_id: u16,
}

/// The adversarial end of a dispute: the funds leave the account.
#[derive(Clone, Copy, Debug, PartialEq, Eq, Structural)]
pub struct Chargeback {
    pub transaction_id: u32,
    pub client_id: u16,
}

/// One line of the input stream.
#[derive(Clone, Copy, Debug, PartialEq, Eq, Structural)]
pub enum Event {
    Transaction(Transaction),
    Dispute(Dispute),
    Resolve(Resolve),
    Chargeback(Chargeback),
}

impl Event {
    /// The client an event belongs to.
    pub open spec fn client(&self) -> u16 {
        match *self {
            Event::Transaction(transaction) => transaction.client_id,
            Event::Dispute(dispute) => dispute.client_id,
            Event::Resolve(resolve) => resolve.client_id,
            Event::Chargeback(chargeback) => chargeback.client_id,
        }
    }

    /// The client an event belongs to.
    #[verifier::when_used_as_spec(client)]
    pub fn client_id(&self) -> (id: u16)
        ensures
            id == self.client(),
    {
        match self {
            Event::Transaction(transaction) => transaction.client_id,
            Event::Dispute(dispute) => dispute.client_id,
            Event::Resolve(resolve) => resolve.client_id,
            Event::Chargeback(chargeback) => chargeback.client_id,
        }
    }
}

/// The clients that `events` name, each once, in the order of their first
/// event.
pub open spec fn clients(events: Seq<Event>) -> Seq<u16>
    decreases events.len(),
{
    if events.len() == 0 {
        Seq::empty()
    } else {
        let earlier = clients(events.drop_last());
        if earlier.contains(events.last().client()) {
            earlier
        } else {
            earlier.push(events.last().client())
        }
    }
}

/// The ledger of `client` after `events`: opened empty, then stepped through
/// the events that name the client, in their order. Events of other clients
/// play no part.
pub open spec fn replay(policy: ChargebackPolicy, events: Seq<Event>, client: u16) -> LedgerState
    decreases events.len(),
{
    if events.len() == 0 {
        LedgerState::opened(client)
    } else {
        let earlier = replay(policy, events.drop_last(), client);
        if events.last().client() == client {
            earlier.step(policy, events.last())
        } else {
            earlier
        }
    }
}

/// Until the events name a client, its ledger is the opened one.
pub proof fn lemma_replay_opened(policy: ChargebackPolicy, events: Seq<Event>, client: u16)
    requires
        !clients(events).contains(client),
    ensures
        replay(policy, events, client) == LedgerState::opened(client),
    decreases events.len(),
{
    if events.len() > 0 {
        let earlier = clients(events.drop_last());
        if earlier.contains(client) {
            let k = earlier.index_of(client);
            assert(clients(events)[k] == client);
        }
        assert(clients(events).last() == events.last().client() || earlier.contains(
            events.last().client(),
        ));
        if events.last().client() == client {
            if earlier.contains(client) {
            } else {
                assert(clients(events).last() == client);
            }
        }
        lemma_replay_opened(policy, events.drop_last(), client);
    }
}

/// No client is listed twice.
pub proof fn lemma_clients_are_distinct(events: Seq<Event>)
    ensures
        clients(events).no_duplicates(),
    decreases events.len(),
{
    if events.len() > 0 {
        lemma_clients_are_distinct(events.drop_last());
    }
}

/// The clients listed are those that some event names.
pub proof fn lemma_clients_are_those_named(events: Seq<Event>, client: u16)
    ensures
        clients(events).contains(client) <==> exists|i: int|
            0 <= i < events.len() && (#[trigger] events[i]).client() == client,
    decreases events.len(),
{
    if events.len() > 0 {
        let earlier = events.drop_last();
        lemma_clients_are_those_named(earlier, client);
        if clients(events).contains(client) {
            if clients(earlier).contains(client) {
                let i = choose|i: int|
                    0 <= i < earlier.len() && (#[trigger] earlier[i]).client() == client;
                assert(events[i].client() == client);
            } else {
                let k = clients(events).index_of(client);
                assert(events[events.len() - 1].client() == client);
            }
        }
        if exists|i: int| 0 <= i < events.len() && (#[trigger] events[i]).client() == client {
            let i = choose|i: int|
                0 <= i < events.len() && (#[trigger] events[i]).client() == client;
            if i < earlier.len() {
                assert(earlier[i].client() == client);
                let k = clients(earlier).index_of(client);
                assert(clients(events)[k] == client);
            } else if clients(earlier).contains(client) {
                let k = clients(earlier).index_of(client);
                assert(clients(events)[k] == client);
            } else {
                assert(clients(events).last() == client);
            }
        }
    }
}

/// After any events the ledger of a client is consistent, and its account
/// is the client's: the total is the sum of the available and held funds,
/// and every disputed transaction is known.
pub proof fn lemma_replay_is_consistent(policy: ChargebackPolicy, events: Seq<Event>, client: u16)
    ensures
        replay(policy, events, client).consistent(),
        replay(policy, events, client).account.client == client,
    decreases events.len(),
{
    if events.len() > 0 {
        lemma_replay_is_consistent(policy, events.drop_last(), client);
        lemma_step_keeps_consistency(
            replay(policy, events.drop_last(), client),
            policy,
            events.last(),
        );
        lemma_lock_is_kept(replay(policy, events.drop_last(), client), policy, events.last());
    }
}

/// Once an account is locked it stays locked, and its ledger stays as it
/// was when the lock fell, whatever events follow.
pub proof fn lemma_lock_is_permanent(
    policy: ChargebackPolicy,
    events: Seq<Event>,
    client: u16,
    seen: int,
)
    requires
        0 <= seen <= events.len(),
        replay(policy, events.take(seen), client).account.locked,
    ensures
        replay(policy, events, client) == replay(policy, events.take(seen), client),
    decreases events.len(),
{
    if seen == events.len() {
        assert(events.take(seen) =~= events);
    } else {
        assert(events.drop_last().take(seen) =~= events.take(seen));
        lemma_lock_is_permanent(policy, events.drop_last(), client, seen);
        lemma_locked_ledger_ignores_events(
            replay(policy, events.drop_last(), client),
            policy,
            events.last(),
        );
    }
}

/// Whether event `at` is a deposit or withdrawal of `client` with the id `id`
/// that the client's ledger accepts.
pub open spec fn accepted_at(
    policy: ChargebackPolicy,
    events: Seq<Event>,
    client: u16,
    id: u32,
    at: int,
) -> bool {
    &&& 0 <= at < events.len()
    &&& events[at].client() == client
    &&& events[at] matches Event::Transaction(transaction)
    &&& transaction.id == id
    &&& replay(policy, events.take(at), client).accepts(transaction)
}

/// Whether event `at` is a chargeback of transaction `id` of `client` that
/// the client's ledger carries out.
pub open spec fn charged_back_at(
    policy: ChargebackPolicy,
    events: Seq<Event>,
    client: u16,
    id: u32,
    at: int,
) -> bool {
    &&& 0 <= at < events.len()
    &&& events[at].client() == client
    &&& events[at] matches Event::Chargeback(chargeback)
    &&& chargeback.transaction_id == id
    &&& replay(policy, events.take(at), client).charges_back(policy, id)
}

/// Whether transaction `id` of `client` was accepted at event `at` and has
/// not been charged back since.
pub open spec fn stands_since(
    policy: ChargebackPolicy,
    events: Seq<Event>,
    client: u16,
    id: u32,
    at: int,
) -> bool {
    &&& accepted_at(policy, events, client, id, at)
    &&& forall|later: int|
        at < later < events.len() ==> !#[trigger] charged_back_at(
            policy,
            events,
            client,
            id,
            later,
        )
}

/// After any events a ledger knows exactly the transactions that it
/// accepted and has not charged back since, each with the amount it was
/// accepted with.
pub proof fn lemma_known_are_accepted_and_not_charged_back(
    policy: ChargebackPolicy,
    events: Seq<Event>,
    client: u16,
    id: u32,
)
    ensures
        replay(policy, events, client).known.contains_key(id) <==> exists|at: int|
            stands_since(policy, events, client, id, at),
        forall|at: int| #[trigger]
            stands_since(policy, events, client, id, at) ==> events[at] == Event::Transaction(
                Transaction { id, client_id: client, amount: replay(policy, events, client).known[id] },
            ),
    decreases events.len(),
{
    if events.len() > 0 {
        let earlier = events.drop_last();
        let last = earlier.len() as int;
        let before = replay(policy, earlier, client);
        let after = replay(policy, events, client);
        lemma_known_are_accepted_and_not_charged_back(policy, earlier, client, id);
        assert(events.take(last) =~= earlier);
        assert forall|at: int| 0 <= at < last implies events.take(at) == earlier.take(at) by {
            assert(events.take(at) =~= earlier.take(at));
        }
        assert forall|at: int| 0 <= at < last implies (accepted_at(policy, events, client, id, at)
            <==> accepted_at(policy, earlier, client, id, at)) && (charged_back_at(
            policy,
            events,
            client,
            id,
            at,
        ) <==> charged_back_at(policy, earlier, client, id, at)) by {
            assert(events.take(at) == earlier.take(at));
            assert(events[at] == earlier[at]);
        }
        let gone = charged_back_at(policy, events, client, id, last);
        let come = accepted_at(policy, events, client, id, last);
        assert forall|at: int| 0 <= at < last implies (stands_since(policy, events, client, id, at)
            <==> stands_since(policy, earlier, client, id, at) && !gone) by {
            if stands_since(policy, events, client, id, at) {
                assert forall|later: int| at < later < earlier.len() implies !#[trigger] charged_back_at(
                    policy,
                    earlier,
                    client,
                    id,
                    later,
                ) by {
                    assert(!charged_back_at(policy, events, client, id, later));
                }
                assert(!charged_back_at(policy, events, client, id, last));
            }
            if stands_since(policy, earlier, client, id, at) && !gone {
                assert forall|later: int| at < later < events.len() implies !#[trigger] charged_back_at(
                    policy,
                    events,
                    client,
                    id,
                    later,
                ) by {
                    if later < last {
                        assert(!charged_back_at(policy, earlier, client, id, later));
                    }
                }
            }
        }
        assert(stands_since(policy, events, client, id, last) <==> come);
        assert(after.known.contains_key(id) <==> come || (before.known.contains_key(id) && !gone))
            by {
            lemma_known_transactions(before, policy, events.last());
        }
        if come {
            assert(stands_since(policy, events, client, id, last));
            assert(!before.known.contains_key(id));
        } else if before.known.contains_key(id) && !gone {
            let at = choose|at: int| stands_since(policy, earlier, client, id, at);
            assert(stands_since(policy, events, client, id, at));
        }
        if exists|at: int| stands_since(policy, events, client, id, at) {
            let at = choose|at: int| stands_since(policy, events, client, id, at);
            if at < last {
                assert(stands_since(policy, earlier, client, id, at));
            }
        }
        assert forall|at: int| #[trigger]
            stands_since(policy, events, client, id, at) implies events[at] == Event::Transaction(
            Transaction { id, client_id: client, amount: after.known[id] },
        ) by {
            if at < last {
                assert(stands_since(policy, earlier, client, id, at));
                assert(events[at] == earlier[at]);
                assert(before.known.contains_key(id));
                lemma_known_transactions(before, policy, events.last());
            }
        }
    } else {
        assert(!replay(policy, events, client).known.contains_key(id));
    }
}

/// The accounts after `events`: one for each client that the events name, in
/// the order of [`clients`], each as [`replay`] leaves it.
pub open spec fn accounts_after(policy: ChargebackPolicy, events: Seq<Event>) -> Seq<Account> {
    Seq::new(clients(events).len(), |i: int| replay(policy, events, clients(events)[i]).account)
}

/// In the accounts after any events the total of every account is the sum
/// of its available and held funds, and every account names the client it
/// is listed for.
pub proof fn lemma_accounts_are_balanced(policy: ChargebackPolicy, events: Seq<Event>)
    ensures
        forall|i: int|
            0 <= i < accounts_after(policy, events).len() ==> {
                &&& (#[trigger] accounts_after(policy, events)[i]).balanced()
                &&& accounts_after(policy, events)[i].client == clients(events)[i]
            },
{
    assert forall|i: int| 0 <= i < accounts_after(policy, events).len() implies {
        &&& (#[trigger] accounts_after(policy, events)[i]).balanced()
        &&& accounts_after(policy, events)[i].client == clients(events)[i]
    } by {
        lemma_replay_is_consistent(policy, events, clients(events)[i]);
    }
}

/// Replays `events` under [`ChargebackPolicy::LockUndisputed`] and returns
/// the account of every client they name, in the order of the clients' first
/// events.
pub fn reduce(events: &[Event]) -> (accounts: Vec<Account>)
    ensures
        accounts@ == accounts_after(ChargebackPolicy::LockUndisputed, events@),
        forall|i: int| 0 <= i < accounts.len() ==> (#[trigger] accounts[i]).balanced(),
{
    reduce_with(events, ChargebackPolicy::LockUndisputed)
}

/// Replays `events` under `policy` and returns the account of every client
/// they name, in the order of the clients' first events.
pub fn reduce_with(events: &[Event], policy: ChargebackPolicy) -> (accounts: Vec<Account>)
    ensures
        accounts@ == accounts_after(policy, events@),
        forall|i: int| 0 <= i < accounts.len() ==> (#[trigger] accounts[i]).balanced(),
{
    let mut positions: HashMap<u16, usize> = HashMap::new();
    let mut ledgers: Vec<Ledger> = Vec::new();
    let mut done: usize = 0;
    while done < events.len()
        invariant
            done <= events.len(),
            ledgers.len() == clients(events@.take(done as int)).len(),
            forall|k: int|
                0 <= k < ledgers.len() ==> {
                    let client = #[trigger] clients(events@.take(done as int))[k];
                    &&& ledgers[k]@ == replay(policy, events@.take(done as int), client)
                    &&& positions@.contains_key(client)
                    &&& positions@[client] == k
                },
            forall|client: u16| #[trigger]
                positions@.contains_key(client) ==> {
                    &&& positions@[client] < ledgers.len()
                    &&& clients(events@.take(done as int))[positions@[client] as int] == client
                },
        decreases events.len() - done,
    {
        let event = &events[done];
        let client = event.client_id();
        let ghost before = events@.take(done as int);
        let ghost after = events@.take(done + 1);
        proof {
            assert(after.drop_last() =~= before);
            assert(after.last() == *event);
        }
        let position = match positions.get(&client) {
            Some(position) => {
                proof {
                    assert(clients(before)[*position as int] == client);
                }
                *position
            },
            None => {
                proof {
                    if clients(before).contains(client) {
                        let k = clients(before).index_of(client);
                        assert(positions@.contains_key(clients(before)[k]));
                    }
                    lemma_replay_opened(policy, before, client);
                }
                let position = ledgers.len();
                ledgers.push(Ledger::new(client));
                positions.insert(client, position);
                position
            },
        };
        ledgers[position].apply(policy, event);
        proof {
            assert forall|k: int| 0 <= k < ledgers.len() implies {
                let named = #[trigger] clients(after)[k];
                &&& ledgers[k]@ == replay(policy, after, named)
                &&& positions@.contains_key(named)
                &&& positions@[named] == k
            } by {
                if k < clients(before).len() {
                    assert(clients(after)[k] == clients(before)[k]);
                }
            }
        }
        done += 1;
    }
    proof {
        assert(events@.take(done as int) =~= events@);
    }
    let mut accounts: Vec<Account> = Vec::new();
    let mut copied: usize = 0;
    while copied < ledgers.len()
        invariant
            copied <= ledgers.len(),
            ledgers.len() == clients(events@).len(),
            accounts.len() == copied,
            forall|k: int|
                0 <= k < ledgers.len() ==> ledgers[k]@ == replay(
                    policy,
                    events@,
                    #[trigger] clients(events@)[k],
                ),
            forall|k: int| 0 <= k < copied ==> #[trigger] accounts[k] == ledgers[k]@.account,
        decreases ledgers.len() - copied,
    {
        accounts.push(ledgers[copied].account());
        copied += 1;
    }
    proof {
        assert(accounts@ =~= accounts_after(policy, events@));
        lemma_accounts_are_balanced(policy, events@);
    }
    accounts
}

} // verus!
