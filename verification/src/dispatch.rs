//! Sharding the replay over a pool of workers.
//!
//! Clients never touch each other's funds, so the stream of events can be
//! split by client and each part replayed on its own. Events are routed by
//! `client mod workers`: every event of a client reaches the same worker, in
//! the order of the stream. This module holds the routing rule, the
//! dispatcher's decision on each answer of the reader, the split, the merge
//! of the workers' answers, and the proof that the merged answer holds the
//! same accounts as a replay of the whole stream.

use crate::accounts::Account;
use crate::events::{
    accounts_after, clients, lemma_clients_are_distinct, lemma_clients_are_those_named,
    lemma_replay_is_consistent, reduce_with, replay, Event,
};
use crate::ledger::ChargebackPolicy;
use vstd::prelude::*;
use vstd::seq_lib::lemma_no_dup_in_concat;

verus! {

/// The worker that serves `client` in a pool of `workers`.
pub open spec fn worker_of(client: u16, workers: int) -> int {
    client as int % workers
}

/// The events that reach `worker` in a pool of `workers`, in the order of the
/// stream.
pub open spec fn queue(events: Seq<Event>, workers: int, worker: int) -> Seq<Event> {
    events.filter(|event: Event| worker_of(event.client(), workers) == worker)
}

/// What each worker of a pool of `workers` answers: the accounts after its
/// own queue.
pub open spec fn worker_outputs(policy: ChargebackPolicy, events: Seq<Event>, workers: int) -> Seq<
    Seq<Account>,
> {
    Seq::new(workers as nat, |worker: int| accounts_after(policy, queue(events, workers, worker)))
}

/// The accounts after a sharded replay: the workers' answers, one after the
/// other.
pub open spec fn sharded_accounts(
    policy: ChargebackPolicy,
    events: Seq<Event>,
    workers: int,
) -> Seq<Account> {
    worker_outputs(policy, events, workers).flatten()
}

/// A worker's queue names exactly those clients of the stream that the
/// worker serves.
pub proof fn lemma_queue_clients(events: Seq<Event>, workers: int, worker: int, client: u16)
    ensures
        clients(queue(events, workers, worker)).contains(client) <==> clients(events).contains(
            client,
        ) && worker_of(client, workers) == worker,
{
    let served = |event: Event| worker_of(event.client(), workers) == worker;
    let queued = queue(events, workers, worker);
    lemma_clients_are_those_named(events, client);
    lemma_clients_are_those_named(queued, client);
    if clients(queued).contains(client) {
        let i = choose|i: int| 0 <= i < queued.len() && (#[trigger] queued[i]).client() == client;
        assert(queued.contains(queued[i]));
        events.lemma_filter_contains_rev(served, queued[i]);
        let j = events.index_of(queued[i]);
        assert(events[j].client() == client);
    }
    if clients(events).contains(client) && worker_of(client, workers) == worker {
        let j = choose|j: int| 0 <= j < events.len() && (#[trigger] events[j]).client() == client;
        events.lemma_filter_contains(served, j);
        let i = queued.index_of(events[j]);
        assert(queued[i].client() == client);
    }
}

/// The queue of the worker that serves a client leaves the client's ledger
/// as the whole stream does.
pub proof fn lemma_queue_replay(
    policy: ChargebackPolicy,
    events: Seq<Event>,
    workers: int,
    client: u16,
)
    ensures
        replay(policy, queue(events, workers, worker_of(client, workers)), client) == replay(
            policy,
            events,
            client,
        ),
    decreases events.len(),
{
    reveal(Seq::filter);
    let worker = worker_of(client, workers);
    if events.len() > 0 {
        lemma_queue_replay(policy, events.drop_last(), workers, client);
        let queued = queue(events, workers, worker);
        let earlier = queue(events.drop_last(), workers, worker);
        if worker_of(events.last().client(), workers) == worker {
            assert(queued.drop_last() =~= earlier);
            assert(queued.last() == events.last());
        }
    }
}

/// Two lists without repetitions that hold the same items are equal as
/// multisets.
pub proof fn lemma_same_items_same_multiset<A>(left: Seq<A>, right: Seq<A>)
    requires
        left.no_duplicates(),
        right.no_duplicates(),
        forall|item: A| left.contains(item) <==> right.contains(item),
    ensures
        left.to_multiset() == right.to_multiset(),
{
    broadcast use vstd::multiset::group_multiset_axioms;

    left.to_multiset_ensures();
    right.to_multiset_ensures();
    left.lemma_multiset_has_no_duplicates();
    right.lemma_multiset_has_no_duplicates();
    assert forall|item: A| left.to_multiset().count(item) == right.to_multiset().count(
        item,
    ) by {
        assert(left.contains(item) <==> left.to_multiset().count(item) > 0);
        assert(right.contains(item) <==> right.to_multiset().count(item) > 0);
        assert(left.to_multiset().contains(item) <==> left.to_multiset().count(item) > 0);
        assert(right.to_multiset().contains(item) <==> right.to_multiset().count(item) > 0);
    }
    assert(left.to_multiset() =~= right.to_multiset());
}

/// The accounts after a replay: no account is listed twice, each listed
/// account belongs to a client of the stream and is the one the replay leaves
/// that client, and each client of the stream finds its account listed.
pub proof fn lemma_accounts_after(policy: ChargebackPolicy, events: Seq<Event>)
    ensures
        accounts_after(policy, events).no_duplicates(),
        forall|i: int|
            0 <= i < accounts_after(policy, events).len() ==> {
                let account = #[trigger] accounts_after(policy, events)[i];
                &&& clients(events).contains(account.client)
                &&& account == replay(policy, events, account.client).account
            },
        forall|client: u16| #[trigger]
            clients(events).contains(client) ==> accounts_after(policy, events).contains(
                replay(policy, events, client).account,
            ),
{
    let accounts = accounts_after(policy, events);
    lemma_clients_are_distinct(events);
    assert forall|i: int| 0 <= i < accounts.len() implies {
        let account = #[trigger] accounts[i];
        &&& account.client == clients(events)[i]
        &&& clients(events).contains(account.client)
        &&& account == replay(policy, events, account.client).account
    } by {
        lemma_replay_is_consistent(policy, events, clients(events)[i]);
    }
    assert forall|client: u16| #[trigger] clients(events).contains(client) implies accounts.contains(
        replay(policy, events, client).account,
    ) by {
        let i = clients(events).index_of(client);
        assert(accounts[i] == replay(policy, events, client).account);
    }
}

/// The answers of the first `count` workers, one after the other: no account
/// is listed twice, each listed account belongs to a client that one of
/// these workers serves and is the one a replay of the whole stream leaves
/// that client, and each such client finds its account listed.
proof fn lemma_first_outputs(
    policy: ChargebackPolicy,
    events: Seq<Event>,
    workers: int,
    count: int,
)
    requires
        0 <= count <= workers,
    ensures
        worker_outputs(policy, events, workers).take(count).flatten().no_duplicates(),
        forall|i: int|
            0 <= i < worker_outputs(policy, events, workers).take(count).flatten().len() ==> {
                let account = #[trigger] worker_outputs(policy, events, workers).take(
                    count,
                ).flatten()[i];
                &&& clients(events).contains(account.client)
                &&& 0 <= worker_of(account.client, workers) < count
                &&& account == replay(policy, events, account.client).account
            },
        forall|client: u16| #[trigger]
            clients(events).contains(client) && 0 <= worker_of(client, workers) < count
                ==> worker_outputs(policy, events, workers).take(count).flatten().contains(
                replay(policy, events, client).account,
            ),
    decreases count,
{
    let outputs = worker_outputs(policy, events, workers);
    if count == 0 {
        assert(outputs.take(count).flatten() =~= Seq::<Account>::empty());
    } else {
        let worker = count - 1;
        let queued = queue(events, workers, worker);
        let earlier = outputs.take(worker).flatten();
        let last = accounts_after(policy, queued);
        let merged = outputs.take(count).flatten();
        lemma_first_outputs(policy, events, workers, worker);
        lemma_accounts_after(policy, queued);
        assert(merged =~= earlier + last) by {
            assert(outputs.take(count) =~= outputs.take(worker).push(last));
            outputs.take(worker).lemma_flatten_push(last);
        }
        assert forall|i: int| 0 <= i < last.len() implies {
            let account = #[trigger] last[i];
            &&& clients(events).contains(account.client)
            &&& worker_of(account.client, workers) == worker
            &&& account == replay(policy, events, account.client).account
        } by {
            lemma_queue_clients(events, workers, worker, last[i].client);
            lemma_queue_replay(policy, events, workers, last[i].client);
        }
        assert forall|i: int, j: int|
            0 <= i < earlier.len() && 0 <= j < last.len() implies earlier[i] != last[j] by {
            assert(worker_of(earlier[i].client, workers) < worker);
            assert(worker_of(last[j].client, workers) == worker);
        }
        lemma_no_dup_in_concat(earlier, last);
        assert forall|i: int| 0 <= i < merged.len() implies {
            let account = #[trigger] merged[i];
            &&& clients(events).contains(account.client)
            &&& 0 <= worker_of(account.client, workers) < count
            &&& account == replay(policy, events, account.client).account
        } by {
            if i < earlier.len() {
                assert(merged[i] == earlier[i]);
            } else {
                assert(merged[i] == last[i - earlier.len()]);
            }
        }
        assert forall|client: u16| #[trigger]
            clients(events).contains(client) && 0 <= worker_of(client, workers)
                < count implies merged.contains(replay(policy, events, client).account) by {
            let account = replay(policy, events, client).account;
            if worker_of(client, workers) < worker {
                let i = earlier.index_of(account);
                assert(merged[i] == account);
            } else {
                lemma_queue_clients(events, workers, worker, client);
                lemma_queue_replay(policy, events, workers, client);
                let j = last.index_of(account);
                assert(merged[earlier.len() + j] == account);
            }
        }
    }
}

/// Sharding changes no account: for any stream and any pool of one worker or
/// more, the workers' answers taken together hold exactly the accounts that
/// a replay of the whole stream yields, each once.
pub proof fn lemma_sharding_keeps_accounts(
    policy: ChargebackPolicy,
    events: Seq<Event>,
    workers: int,
)
    requires
        workers >= 1,
    ensures
        sharded_accounts(policy, events, workers).to_multiset() == accounts_after(
            policy,
            events,
        ).to_multiset(),
{
    let whole = accounts_after(policy, events);
    let sharded = sharded_accounts(policy, events, workers);
    let outputs = worker_outputs(policy, events, workers);
    assert(outputs.take(workers) =~= outputs);
    lemma_first_outputs(policy, events, workers, workers);
    lemma_accounts_after(policy, events);
    assert forall|account: Account| whole.contains(account) <==> sharded.contains(account) by {
        if whole.contains(account) {
            let i = whole.index_of(account);
            assert(whole[i] == account);
            assert(clients(events).contains(account.client));
            assert(0 <= worker_of(account.client, workers) < workers);
        }
        if sharded.contains(account) {
            let i = sharded.index_of(account);
            assert(sharded[i] == account);
            assert(clients(events).contains(account.client));
        }
    }
    lemma_same_items_same_multiset(sharded, whole);
}

/// A pool of one worker answers as the plain replay does, account for
/// account and in the same order.
pub proof fn lemma_one_worker(policy: ChargebackPolicy, events: Seq<Event>)
    ensures
        sharded_accounts(policy, events, 1) == accounts_after(policy, events),
{
    let outputs = worker_outputs(policy, events, 1);
    assert(queue(events, 1, 0) =~= events) by {
        lemma_whole_queue(events);
    }
    assert(outputs =~= Seq::<Seq<Account>>::empty().push(accounts_after(policy, events)));
    Seq::<Seq<Account>>::empty().lemma_flatten_push(accounts_after(policy, events));
    assert(sharded_accounts(policy, events, 1) =~= accounts_after(policy, events));
}

/// The only worker of a pool of one gets the whole stream.
proof fn lemma_whole_queue(events: Seq<Event>)
    ensures
        queue(events, 1, 0) == events,
    decreases events.len(),
{
    reveal(Seq::filter);
    if events.len() > 0 {
        lemma_whole_queue(events.drop_last());
        assert(events.drop_last().push(events.last()) =~= events);
    }
}

/// The number of logical processors of this machine, as `num_cpus::get`
/// reports it. Nothing is claimed of the number.
#[verifier::external_body]
fn logical_cpus() -> (count: usize) {
    num_cpus::get()
}

/// The size of the pool for a machine that reports `cpus` logical
/// processors: one worker for each, and one worker where it reports none.
pub fn workers_for(cpus: usize) -> (workers: usize)
    ensures
        workers == if cpus == 0 {
            1
        } else {
            cpus
        },
{
    if cpus == 0 {
        1
    } else {
        cpus
    }
}

/// The size of the pool where the caller names none: [`workers_for`] the
/// logical processors of this machine.
pub fn default_workers() -> (workers: usize)
    ensures
        workers >= 1,
{
    workers_for(logical_cpus())
}

/// The worker that serves `client_id` in a pool of `workers_count`.
pub fn worker_index(client_id: u16, workers_count: usize) -> (index: usize)
    requires
        workers_count > 0,
    ensures
        index == worker_of(client_id, workers_count as int),
        index < workers_count,
{
    client_id as usize % workers_count
}

/// What the dispatcher does with one answer of the reader.
#[derive(Clone, Copy, Debug, PartialEq, Eq, Structural)]
pub enum Action {
    /// The stream has ended: close the queues.
    Stop,
    /// The row was not read or is no event: go on with the next.
    Skip,
    /// Put the event into the queue of the worker.
    Send(usize, Event),
}

/// Decides what to do with one answer of the reader in a pool of
/// `workers_count`: stop at the end of the stream, skip a row that failed,
/// and send an event to the worker that serves its client.
pub fn action_for<E>(answer: Option<Result<Event, E>>, workers_count: usize) -> (action: Action)
    requires
        workers_count > 0,
    ensures
        action == match answer {
            None => Action::Stop,
            Some(Err(_)) => Action::Skip,
            Some(Ok(event)) => Action::Send(
                worker_of(event.client(), workers_count as int) as usize,
                event,
            ),
        },
        action matches Action::Send(worker, _) ==> worker < workers_count,
{
    match answer {
        None => Action::Stop,
        Some(Err(_)) => Action::Skip,
        Some(Ok(event)) => Action::Send(worker_index(event.client_id(), workers_count), event),
    }
}

/// Splits the stream into one queue for each of `workers_count` workers.
pub fn shard(events: &[Event], workers_count: usize) -> (queues: Vec<Vec<Event>>)
    requires
        workers_count > 0,
    ensures
        queues.len() == workers_count,
        forall|worker: int|
            0 <= worker < workers_count ==> (#[trigger] queues[worker])@ == queue(
                events@,
                workers_count as int,
                worker,
            ),
{
    let mut queues: Vec<Vec<Event>> = Vec::new();
    while queues.len() < workers_count
        invariant
            queues.len() <= workers_count,
            forall|worker: int|
                0 <= worker < queues.len() ==> (#[trigger] queues[worker])@ == Seq::<
                    Event,
                >::empty(),
        decreases workers_count - queues.len(),
    {
        queues.push(Vec::new());
    }
    proof {
        reveal(Seq::filter);
        assert(events@.take(0) =~= Seq::<Event>::empty());
    }
    let mut routed: usize = 0;
    while routed < events.len()
        invariant
            workers_count > 0,
            routed <= events.len(),
            queues.len() == workers_count,
            forall|worker: int|
                0 <= worker < workers_count ==> (#[trigger] queues[worker])@ == queue(
                    events@.take(routed as int),
                    workers_count as int,
                    worker,
                ),
        decreases events.len() - routed,
    {
        let event = events[routed];
        let target = worker_index(event.client_id(), workers_count);
        let ghost before = queues@;
        queues[target].push(event);
        proof {
            reveal(Seq::filter);
            assert(events@.take(routed + 1).drop_last() =~= events@.take(routed as int));
            assert(events@.take(routed + 1).last() == event);
            assert forall|worker: int| 0 <= worker < workers_count implies (
            #[trigger] queues[worker])@ == queue(
                events@.take(routed + 1),
                workers_count as int,
                worker,
            ) by {
                assert(before[worker]@ == queue(
                    events@.take(routed as int),
                    workers_count as int,
                    worker,
                ));
            }
        }
        routed += 1;
    }
    proof {
        assert(events@.take(routed as int) =~= events@);
    }
    queues
}

/// What `outputs` hold as lists of accounts.
pub open spec fn lists(outputs: Seq<Vec<Account>>) -> Seq<Seq<Account>> {
    outputs.map_values(|output: Vec<Account>| output@)
}

/// Puts the workers' answers one after the other.
pub fn merge(outputs: &Vec<Vec<Account>>) -> (accounts: Vec<Account>)
    ensures
        accounts@ == lists(outputs@).flatten(),
{
    let mut accounts: Vec<Account> = Vec::new();
    let mut worker: usize = 0;
    proof {
        assert(lists(outputs@).take(0).flatten() =~= Seq::<Account>::empty());
    }
    while worker < outputs.len()
        invariant
            worker <= outputs.len(),
            accounts@ == lists(outputs@).take(worker as int).flatten(),
        decreases outputs.len() - worker,
    {
        let output = &outputs[worker];
        let ghost merged = accounts@;
        let mut copied: usize = 0;
        while copied < output.len()
            invariant
                copied <= output.len(),
                accounts@ == merged + output@.take(copied as int),
            decreases output.len() - copied,
        {
            accounts.push(output[copied]);
            proof {
                assert(output@.take(copied + 1) =~= output@.take(copied as int).push(
                    output@[copied as int],
                ));
            }
            copied += 1;
        }
        proof {
            assert(output@.take(copied as int) =~= output@);
            assert(lists(outputs@).take(worker + 1) =~= lists(outputs@).take(worker as int).push(
                output@,
            ));
            lists(outputs@).take(worker as int).lemma_flatten_push(output@);
        }
        worker += 1;
    }
    proof {
        assert(lists(outputs@).take(worker as int) =~= lists(outputs@));
    }
    accounts
}

/// Replays `events` under `policy` on a pool of `workers_count` workers, one
/// after the other, and returns their answers in the order of the workers.
/// The result holds the same accounts as [`reduce_with`] on the whole
/// stream, each once, in an order that depends on the size of the pool.
pub fn reduce_sharded(events: &[Event], workers_count: usize, policy: ChargebackPolicy) -> (accounts:
    Vec<Account>)
    requires
        workers_count > 0,
    ensures
        accounts@ == sharded_accounts(policy, events@, workers_count as int),
        accounts@.to_multiset() == accounts_after(policy, events@).to_multiset(),
{
    let queues = shard(events, workers_count);
    let mut outputs: Vec<Vec<Account>> = Vec::new();
    let mut worker: usize = 0;
    while worker < workers_count
        invariant
            worker <= workers_count,
            queues.len() == workers_count,
            outputs.len() == worker,
            forall|k: int|
                0 <= k < workers_count ==> (#[trigger] queues[k])@ == queue(
                    events@,
                    workers_count as int,
                    k,
                ),
            forall|k: int|
                0 <= k < worker ==> (#[trigger] outputs[k])@ == accounts_after(
                    policy,
                    queue(events@, workers_count as int, k),
                ),
        decreases workers_count - worker,
    {
        outputs.push(reduce_with(queues[worker].as_slice(), policy));
        worker += 1;
    }
    let accounts = merge(&outputs);
    proof {
        assert(lists(outputs@) =~= worker_outputs(policy, events@, workers_count as int));
        lemma_sharding_keeps_accounts(policy, events@, workers_count as int);
    }
    accounts
}

} // verus!
