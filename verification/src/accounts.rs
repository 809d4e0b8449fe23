//! Client accounts.

pub mod csv;

use vstd::prelude::*;

verus! {

/// The balances of one client, in ten-thousandths of a unit.
#[derive(Clone, Copy, Debug, PartialEq, Eq, Structural)]
pub struct Account {
    /// The client who owns the account.
    pub client: u16,
    /// Funds the client may withdraw.
    pub available: i64,
    /// Funds tied up by open disputes.
    pub held: i64,
    /// Everything the client owns on paper.
    pub total: i64,
    /// Whether the account has stopped accepting events.
    pub locked: bool,
}

impl Account {
    /// An empty, unlocked account: what `new` returns.
    pub open spec fn empty(client: u16) -> Account {
        Account { client, available: 0, held: 0, total: 0, locked: false }
    }

    /// Whether the total is the sum of the available and held funds.
    pub open spec fn balanced(self) -> bool {
        self.total == self.available + self.held
    }

    /// Opens an empty, unlocked account for `client`.
    pub fn new(client: u16) -> (account: Self)
        ensures
            account == Account::empty(client),
    {
        Self { client, available: 0, held: 0, total: 0, locked: false }
    }
}

} // verus!
