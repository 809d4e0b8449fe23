//! The per-client ledger: the state machine behind the replay.
//!
//! A ledger holds one client's account together with the transactions it has
//! accepted and the disputes that are open on them. [`LedgerState`] is the
//! mathematical model and [`LedgerState::step`] its transition function;
//! [`Ledger`] is the executable ledger, whose [`Ledger::apply`] is proved to
//! follow the model.
//!
//! # Arithmetic
//!
//! Balances are `i64` counts of ten-thousandths. No balance ever wraps or
//! saturates: an event whose effect would carry a balance out of the range of
//! `i64` is dropped like any other event the ledger rejects, and leaves the
//! ledger as it was.

use crate::accounts::Account;
use crate::events::{Chargeback, Dispute, Event, Resolve, Transaction};
use std::collections::{HashMap, HashSet};
use vstd::prelude::*;

verus! {

/// What a chargeback does when it cannot simply be carried out.
#[derive(Clone, Copy, Debug, PartialEq, Eq, Structural)]
pub enum ChargebackPolicy {
    /// A chargeback on a transaction that is not under dispute locks the
    /// account. A chargeback on a disputed transaction is always carried out
    /// and never locks, even where it leaves the total negative.
    LockUndisputed,
    /// A chargeback on a transaction that is not under dispute is ignored. A
    /// chargeback on a disputed transaction that would leave the total
    /// negative locks the account and moves no funds.
    LockOverdrawn,
}

/// Whether `value` can be held in a balance.
pub open spec fn representable(value: int) -> bool {
    i64::MIN <= value <= i64::MAX
}

/// The state of one client's ledger.
pub struct LedgerState {
    /// The client's balances.
    pub account: Account,
    /// The amount of every transaction that was accepted and not charged back.
    pub known: Map<u32, i64>,
    /// The transactions that are under dispute.
    pub disputed: Set<u32>,
}

impl LedgerState {
    /// The ledger of a client nothing has happened to.
    pub open spec fn opened(client: u16) -> LedgerState {
        LedgerState { account: Account::empty(client), known: Map::empty(), disputed: Set::empty() }
    }

    /// The invariant of every ledger that grew from an opened one: the total
    /// is the sum of the other two balances, and only known transactions are
    /// under dispute.
    pub open spec fn consistent(self) -> bool {
        &&& self.account.balanced()
        &&& self.disputed.subset_of(self.known.dom())
    }

    /// This ledger with other balances.
    pub open spec fn with_balances(self, available: int, held: int, total: int) -> LedgerState {
        LedgerState {
            account: Account {
                available: available as i64,
                held: held as i64,
                total: total as i64,
                ..self.account
            },
            ..self
        }
    }

    /// This ledger with a locked account.
    pub open spec fn locked(self) -> LedgerState {
        LedgerState { account: Account { locked: true, ..self.account }, ..self }
    }

    /// Whether a deposit or withdrawal is accepted: the account is unlocked,
    /// the id is new, a withdrawal is covered by the available funds, and the
    /// new balances are representable.
    pub open spec fn accepts(self, transaction: Transaction) -> bool {
        &&& !self.account.locked
        &&& !self.known.contains_key(transaction.id)
        &&& transaction.amount < 0 ==> self.account.available + transaction.amount >= 0
        &&& representable(self.account.available + transaction.amount)
        &&& representable(self.account.total + transaction.amount)
    }

    /// Whether a dispute on `id` is opened: the account is unlocked, the
    /// transaction is known and not yet under dispute, and the new balances
    /// are representable.
    pub open spec fn opens_dispute(self, id: u32) -> bool {
        &&& !self.account.locked
        &&& self.known.contains_key(id)
        &&& !self.disputed.contains(id)
        &&& representable(self.account.available - self.known[id])
        &&& representable(self.account.held + self.known[id])
    }

    /// Whether a resolve of `id` is carried out: the account is unlocked, the
    /// transaction is known and under dispute, and the new balances are
    /// representable.
    pub open spec fn resolves(self, id: u32) -> bool {
        &&& !self.account.locked
        &&& self.disputed.contains(id)
        &&& self.known.contains_key(id)
        &&& representable(self.account.available + self.known[id])
        &&& representable(self.account.held - self.known[id])
    }

    /// Whether a chargeback of `id` locks the account.
    pub open spec fn chargeback_locks(self, policy: ChargebackPolicy, id: u32) -> bool {
        &&& !self.account.locked
        &&& match policy {
            ChargebackPolicy::LockUndisputed => !self.disputed.contains(id),
            ChargebackPolicy::LockOverdrawn => {
                &&& self.known.contains_key(id)
                &&& self.disputed.contains(id)
                &&& self.account.total - self.known[id] < 0
            },
        }
    }

    /// Whether a chargeback of `id` is carried out: the account is unlocked,
    /// the transaction is known and under dispute, the policy does not lock
    /// the account instead, and the new balances are representable.
    pub open spec fn charges_back(self, policy: ChargebackPolicy, id: u32) -> bool {
        &&& !self.account.locked
        &&& self.disputed.contains(id)
        &&& self.known.contains_key(id)
        &&& !self.chargeback_locks(policy, id)
        &&& representable(self.account.held - self.known[id])
        &&& representable(self.account.total - self.known[id])
    }

    /// The ledger after a deposit or withdrawal: where it is accepted, the
    /// amount is added to the available funds and to the total, and the
    /// transaction becomes known.
    pub open spec fn transact(self, transaction: Transaction) -> LedgerState {
        if self.accepts(transaction) {
            LedgerState {
                known: self.known.insert(transaction.id, transaction.amount),
                ..self.with_balances(
                    self.account.available + transaction.amount,
                    self.account.held as int,
                    self.account.total + transaction.amount,
                )
            }
        } else {
            self
        }
    }

    /// The ledger after a dispute on `id`: where it is opened, the amount of
    /// the transaction moves from the available funds to the held ones.
    pub open spec fn dispute(self, id: u32) -> LedgerState {
        if self.opens_dispute(id) {
            LedgerState {
                disputed: self.disputed.insert(id),
                ..self.with_balances(
                    self.account.available - self.known[id],
                    self.account.held + self.known[id],
                    self.account.total as int,
                )
            }
        } else {
            self
        }
    }

    /// The ledger after a resolve of `id`: where it is carried out, the amount
    /// of the transaction moves back from the held funds to the available
    /// ones, and the dispute is closed. The transaction stays known and may
    /// be disputed again.
    pub open spec fn resolve(self, id: u32) -> LedgerState {
        if self.resolves(id) {
            LedgerState {
                disputed: self.disputed.remove(id),
                ..self.with_balances(
                    self.account.available + self.known[id],
                    self.account.held - self.known[id],
                    self.account.total as int,
                )
            }
        } else {
            self
        }
    }

    /// The ledger after a chargeback of `id`: where the policy locks, the
    /// account is locked and nothing else changes; where the chargeback is
    /// carried out, the amount of the transaction leaves the held funds and
    /// the total, the dispute is closed and the transaction forgotten.
    pub open spec fn chargeback(self, policy: ChargebackPolicy, id: u32) -> LedgerState {
        if self.chargeback_locks(policy, id) {
            self.locked()
        } else if self.charges_back(policy, id) {
            LedgerState {
                known: self.known.remove(id),
                disputed: self.disputed.remove(id),
                ..self.with_balances(
                    self.account.available as int,
                    self.account.held - self.known[id],
                    self.account.total - self.known[id],
                )
            }
        } else {
            self
        }
    }

    /// The ledger after one event. The client named by the event plays no
    /// part: routing events to ledgers is the caller's business.
    pub open spec fn step(self, policy: ChargebackPolicy, event: Event) -> LedgerState {
        match event {
            Event::Transaction(transaction) => self.transact(transaction),
            Event::Dispute(dispute) => self.dispute(dispute.transaction_id),
            Event::Resolve(resolve) => self.resolve(resolve.transaction_id),
            Event::Chargeback(chargeback) => self.chargeback(policy, chargeback.transaction_id),
        }
    }
}

/// Every event keeps a consistent ledger consistent: after it the total is
/// still the sum of the available and held funds, and every disputed
/// transaction is still known.
pub proof fn lemma_step_keeps_consistency(
    ledger: LedgerState,
    policy: ChargebackPolicy,
    event: Event,
)
    requires
        ledger.consistent(),
    ensures
        ledger.step(policy, event).consistent(),
{
}

/// No event unlocks an account, and no event changes the client of one.
pub proof fn lemma_lock_is_kept(ledger: LedgerState, policy: ChargebackPolicy, event: Event)
    ensures
        ledger.account.locked ==> ledger.step(policy, event).account.locked,
        ledger.step(policy, event).account.client == ledger.account.client,
{
}

/// An event that reaches a locked account changes nothing: not a balance,
/// not the lock, not what the ledger knows.
pub proof fn lemma_locked_ledger_ignores_events(
    ledger: LedgerState,
    policy: ChargebackPolicy,
    event: Event,
)
    requires
        ledger.account.locked,
    ensures
        ledger.step(policy, event) == ledger,
{
}

/// The known transactions change in two ways only: an accepted transaction
/// becomes known, with its amount, and a transaction that is charged back is
/// forgotten.
pub proof fn lemma_known_transactions(ledger: LedgerState, policy: ChargebackPolicy, event: Event)
    ensures
        ledger.step(policy, event).known == match event {
            Event::Transaction(transaction) if ledger.accepts(transaction) => ledger.known.insert(
                transaction.id,
                transaction.amount,
            ),
            Event::Chargeback(chargeback) if ledger.charges_back(
                policy,
                chargeback.transaction_id,
            ) => ledger.known.remove(chargeback.transaction_id),
            _ => ledger.known,
        },
{
}

/// A transaction whose id is already known changes nothing, whatever its
/// amount.
pub proof fn lemma_known_id_is_rejected(
    ledger: LedgerState,
    policy: ChargebackPolicy,
    transaction: Transaction,
)
    requires
        ledger.known.contains_key(transaction.id),
    ensures
        ledger.step(policy, Event::Transaction(transaction)) == ledger,
{
}

/// Of two transactions with one id that follow each other, the second
/// changes nothing, whatever its amount, provided the first was accepted or
/// the second would not have been accepted in its place either.
pub proof fn lemma_duplicate_transaction_is_ignored(
    ledger: LedgerState,
    policy: ChargebackPolicy,
    first: Transaction,
    second: Transaction,
)
    requires
        first.id == second.id,
        ledger.accepts(first) || !ledger.accepts(second),
    ensures
        ledger.step(policy, Event::Transaction(first)).step(policy, Event::Transaction(second))
            == ledger.step(policy, Event::Transaction(first)),
{
}

/// A dispute followed at once by a resolve of the same transaction leaves
/// the available and held funds, and with them the whole account, as they
/// were before the dispute, provided the transaction was not under dispute
/// already in a way that lets the resolve move funds.
pub proof fn lemma_dispute_then_resolve(
    ledger: LedgerState,
    policy: ChargebackPolicy,
    dispute: Dispute,
    resolve: Resolve,
)
    requires
        dispute.transaction_id == resolve.transaction_id,
        !(ledger.resolves(resolve.transaction_id) && ledger.known[resolve.transaction_id] != 0),
    ensures
        ledger.step(policy, Event::Dispute(dispute)).step(policy, Event::Resolve(resolve)).account
            == ledger.account,
        !ledger.disputed.contains(dispute.transaction_id) ==> ledger.step(
            policy,
            Event::Dispute(dispute),
        ).step(policy, Event::Resolve(resolve)) == ledger,
{
    let id = dispute.transaction_id;
    let disputed = ledger.step(policy, Event::Dispute(dispute));
    let resolved = disputed.step(policy, Event::Resolve(resolve));
    if ledger.opens_dispute(id) {
        assert(disputed.resolves(id));
        assert(resolved.disputed =~= ledger.disputed);
    }
}

/// A dispute or a resolve that names an unknown transaction changes nothing.
/// A chargeback that names one moves no funds and changes nothing the ledger
/// knows: it locks the account where the policy locks on undisputed
/// transactions and the transaction is not under dispute, as it cannot be in
/// a consistent ledger, and changes nothing otherwise.
pub proof fn lemma_unknown_transaction(
    ledger: LedgerState,
    policy: ChargebackPolicy,
    id: u32,
    client: u16,
)
    requires
        !ledger.known.contains_key(id),
    ensures
        ledger.step(policy, Event::Dispute(Dispute { transaction_id: id, client_id: client }))
            == ledger,
        ledger.step(policy, Event::Resolve(Resolve { transaction_id: id, client_id: client }))
            == ledger,
        ledger.step(
            policy,
            Event::Chargeback(Chargeback { transaction_id: id, client_id: client }),
        ) == if policy == ChargebackPolicy::LockUndisputed && !ledger.disputed.contains(id) {
            ledger.locked()
        } else {
            ledger
        },
        ledger.consistent() ==> !ledger.disputed.contains(id),
{
}

/// Under [`ChargebackPolicy::LockUndisputed`] a chargeback of a transaction
/// that is not under dispute, known or not, locks the account and changes
/// nothing else.
pub proof fn lemma_undisputed_chargeback_locks(ledger: LedgerState, chargeback: Chargeback)
    requires
        !ledger.disputed.contains(chargeback.transaction_id),
    ensures
        ledger.step(ChargebackPolicy::LockUndisputed, Event::Chargeback(chargeback))
            == ledger.locked(),
{
}

/// The ledger of one client.
pub struct Ledger {
    account: Account,
    known_transactions: HashMap<u32, i64>,
    open_disputes: HashSet<u32>,
}

impl View for Ledger {
    type V = LedgerState;

    closed spec fn view(&self) -> LedgerState {
        LedgerState {
            account: self.account,
            known: self.known_transactions@,
            disputed: self.open_disputes@,
        }
    }
}

impl Ledger {
    /// Opens the ledger of a client nothing has happened to.
    pub fn new(client: u16) -> (ledger: Ledger)
        ensures
            ledger@ == LedgerState::opened(client),
            ledger@.consistent(),
    {
        Ledger {
            account: Account::new(client),
            known_transactions: HashMap::new(),
            open_disputes: HashSet::new(),
        }
    }

    /// The client's balances.
    pub fn account(&self) -> (account: Account)
        ensures
            account == self@.account,
    {
        self.account
    }

    /// The amount of transaction `id`, if the ledger knows it.
    pub fn amount_of(&self, id: u32) -> (amount: Option<i64>)
        ensures
            amount == if self@.known.contains_key(id) {
                Some(self@.known[id])
            } else {
                None
            },
    {
        match self.known_transactions.get(&id) {
            Some(amount) => Some(*amount),
            None => None,
        }
    }

    /// Whether transaction `id` is under dispute.
    pub fn is_disputed(&self, id: u32) -> (disputed: bool)
        ensures
            disputed == self@.disputed.contains(id),
    {
        self.open_disputes.contains(&id)
    }

    /// Applies one event to the ledger, whichever client the event names.
    pub fn apply(&mut self, policy: ChargebackPolicy, event: &Event)
        ensures
            final(self)@ == old(self)@.step(policy, *event),
            old(self)@.consistent() ==> final(self)@.consistent(),
    {
        proof {
            if self@.consistent() {
                lemma_step_keeps_consistency(self@, policy, *event);
            }
        }
        if self.account.locked {
            return ;
        }
        match event {
            Event::Transaction(transaction) => self.transact(transaction),
            Event::Dispute(dispute) => self.dispute(dispute),
            Event::Resolve(resolve) => self.resolve(resolve),
            Event::Chargeback(chargeback) => self.chargeback(policy, chargeback),
        }
    }

    fn transact(&mut self, transaction: &Transaction)
        requires
            !old(self)@.account.locked,
        ensures
            final(self)@ == old(self)@.transact(*transaction),
    {
        if self.known_transactions.contains_key(&transaction.id) {
            return ;
        }
        let (Some(available), Some(total)) = (
            self.account.available.checked_add(transaction.amount),
            self.account.total.checked_add(transaction.amount),
        ) else {
            return ;
        };
        if transaction.amount < 0 && available < 0 {
            return ;
        }
        self.account.available = available;
        self.account.total = total;
        self.known_transactions.insert(transaction.id, transaction.amount);
    }

    fn dispute(&mut self, dispute: &Dispute)
        requires
            !old(self)@.account.locked,
        ensures
            final(self)@ == old(self)@.dispute(dispute.transaction_id),
    {
        let Some(amount) = self.amount_of(dispute.transaction_id) else {
            return ;
        };
        if self.open_disputes.contains(&dispute.transaction_id) {
            return ;
        }
        let (Some(available), Some(held)) = (
            self.account.available.checked_sub(amount),
            self.account.held.checked_add(amount),
        ) else {
            return ;
        };
        self.account.available = available;
        self.account.held = held;
        self.open_disputes.insert(dispute.transaction_id);
    }

    fn resolve(&mut self, resolve: &Resolve)
        requires
            !old(self)@.account.locked,
        ensures
            final(self)@ == old(self)@.resolve(resolve.transaction_id),
    {
        if !self.open_disputes.contains(&resolve.transaction_id) {
            return ;
        }
        let Some(amount) = self.amount_of(resolve.transaction_id) else {
            return ;
        };
        let (Some(available), Some(held)) = (
            self.account.available.checked_add(amount),
            self.account.held.checked_sub(amount),
        ) else {
            return ;
        };
        self.account.available = available;
        self.account.held = held;
        self.open_disputes.remove(&resolve.transaction_id);
    }

    fn chargeback(&mut self, policy: ChargebackPolicy, chargeback: &Chargeback)
        requires
            !old(self)@.account.locked,
        ensures
            final(self)@ == old(self)@.chargeback(policy, chargeback.transaction_id),
    {
        let disputed = self.open_disputes.contains(&chargeback.transaction_id);
        if !disputed {
            match policy {
                ChargebackPolicy::LockUndisputed => {
                    self.account.locked = true;
                },
                ChargebackPolicy::LockOverdrawn => {},
            }
            return ;
        }
        let Some(amount) = self.amount_of(chargeback.transaction_id) else {
            return ;
        };
        let total = self.account.total.checked_sub(amount);
        match policy {
            ChargebackPolicy::LockUndisputed => {},
            ChargebackPolicy::LockOverdrawn => {
                let overdrawn = match total {
                    Some(total) => total < 0,
                    None => amount > 0,
                };
                if overdrawn {
                    self.account.locked = true;
                    return ;
                }
            },
        }
        let (Some(held), Some(total)) = (self.account.held.checked_sub(amount), total) else {
            return ;
        };
        self.account.held = held;
        self.account.total = total;
        self.open_disputes.remove(&chargeback.transaction_id);
        self.known_transactions.remove(&chargeback.transaction_id);
    }
}

} // verus!
