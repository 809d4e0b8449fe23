//! A small payments engine.
//!
//! The engine replays an ordered stream of client-scoped events (deposits,
//! withdrawals, disputes, resolves and chargebacks) and yields the final
//! balances of every client seen.
//!
//! Amounts are fixed-point integers counted in ten-thousandths of a unit, so
//! every balance is exact to four decimal places.

pub mod accounts;
pub mod amount;
pub mod dispatch;
pub mod events;
pub mod ledger;
pub mod text;
