//! A wagering-and-escrow settlement engine for bracket-style tournaments.
//!
//! Organizers register a tournament, optionally collateralize it, subdivide it
//! into rounds and teams, accept bets denominated in one of two fungible
//! tokens (selected by the tournament's collateralization state), record round
//! outcomes, and pay qualifying bets. Funds held for a tournament live in
//! escrow accounts whose only spender is an authority derived from the
//! tournament record itself, never a private key.
//!
//! The crate is organized as:
//! - [`addr`]: addresses and capability derivation for escrow authorities;
//! - [`ledger`]: the fungible-token custody model (transfer, mint, burn);
//! - [`entities`]: the persistent records (state, tournament, round, team, bet);
//! - [`errors`]: the engine's error taxonomy;
//! - [`amounts`]: per-tournament stake accounting used by the conservation laws;
//! - [`engine`]: the tournament lifecycle and settlement state machine;
//! - [`laws`]: proved system-wide properties (single settlement, unique
//!   winners, currency consistency, conservation of escrowed funds);
//! - [`faucet`]: the token-distribution utility with claim-once bookkeeping.

pub mod addr;
pub mod amounts;
pub mod engine;
pub mod entities;
pub mod errors;
pub mod faucet;
pub mod laws;
pub mod ledger;
