//! A multi-party authorization engine: a group of members controls a shared
//! account, and a stored operation runs only once enough members approved it.
//!
//! * `ident`: accounts, payload hashes, errors and notifications.
//! * `accounts`, `hashing`: what is derived from bytes: a group's account,
//!   the accounts of named users, the hash of a payload.
//! * `deposit`: what a payload costs, and the ledger interface that locks,
//!   frees and moves funds; `balances`: a ledger in memory.
//! * `model`, `state`: the mathematical model of a group and of the engine.
//! * `group`: a group in memory: membership, stored payloads, approvals.
//! * `engine`: the entry points.
//! * `laws`: what holds of each step; `runs`: what holds of every sequence
//!   of calls.

pub mod accounts;
pub mod balances;
pub mod deposit;
pub mod engine;
pub mod group;
pub mod hashing;
pub mod ident;
pub mod keyset;
pub mod laws;
pub mod model;
pub mod runs;
pub mod state;
