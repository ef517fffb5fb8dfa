//! Watchlist monitoring engine for account balances on a public ledger.
//!
//! The crate keeps a durable registry of (account, subscriber) monitoring
//! entries, encodes both stores to a textual snapshot with atomic
//! replace-on-write semantics, and decides, cycle by cycle, which entries
//! have changed and must be notified. All of that logic is verified; the
//! network and file plumbing around it lives outside the library.
//!
//! - [`bot`] holds the entry and subscriber types, the command layer, and
//!   the per-cycle change detection.
//! - [`persistence`] holds the watchlist store, its key-uniqueness
//!   invariant, and the model of the atomic snapshot write.
//! - [`codec`] holds the snapshot text format with its round-trip proofs.
//! - [`near`] holds the data-source values and the shaping of fetched
//!   transaction lists.
//! - [`utils`] renders balances and timestamps; [`num`] and [`text`] hold
//!   the decimal and character groundwork; [`cli`] names the program's
//!   modes.

pub mod bot;
pub mod cli;
pub mod codec;
pub mod near;
pub mod num;
pub mod persistence;
pub mod text;
pub mod utils;
