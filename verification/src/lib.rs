//! A bilateral interest-rate-swap marketplace: participants post collateral,
//! open fixed-rate or floating-rate exposure, are matched against a
//! counter-party, and have their collateral marked to market as the reference
//! price moves.
//!
//! The heart of the crate is the exposure and collateral rebalancing engine:
//! it tracks each account's net position as an unsigned magnitude plus a side
//! tag, transfers collateral between the fixed and floating sides when the
//! reference price changes, flips an account's side when an opposing exposure
//! change exceeds its current exposure, and forces a default unwind when
//! collateral is exhausted.

pub mod contract;
pub mod laws;
pub mod model;
pub mod types;
