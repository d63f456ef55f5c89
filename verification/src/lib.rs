//! Verified core of a binary-outcome prediction market built around a
//! central limit order book: the order book's linked lists, the matching
//! engine, the user ledger and the market's settlement rules.

pub mod errors;
pub mod quantities;
pub mod state;
pub mod logic;
pub mod instructions;
