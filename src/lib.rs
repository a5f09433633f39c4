//! A ledger of arbitrage intents and their executions.
//!
//! A user registers an intent to act when the gap between two quoted prices reaches a
//! threshold; executing it records the outcome, credits 80% of the gap as profit to the
//! user's running total, and marks the intent executed. Signatures produced on other
//! chains can be stored per execution.
//!
//! Prices, thresholds and amounts are fixed-point decimals with 24 fractional digits,
//! held as integers of minor units, so every comparison and total is exact.
//! The host supplies what the engine cannot know: the caller, the attached deposit, the
//! time, and random bytes; it issues the settlement call that a successful execution
//! returns.
use vstd::prelude::*;

pub mod contract;
pub mod hex_text;
pub mod numeric;
pub mod records;
pub mod user_index;

verus! {

} // verus!
