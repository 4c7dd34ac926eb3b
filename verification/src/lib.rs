//! A currency-aware portfolio balancer.
//!
//! The library models money as fixed-point integers — billionths of a unit
//! for amounts, millionths for shares and rates — and proves the balancing
//! engine's promises: one call distributes an investment over the
//! portfolio's positions so that the whole investment is placed, no
//! position receives a negative amount or more than the whole,
//! under-target positions are never pushed past their targets and are
//! served before the rest, and the emitted per-currency deltas convert
//! back to the investment within the one-cent display tolerance.
//!
//! Around the engine stand the rate table and amount arithmetic, the
//! portfolio model with its aggregation views, and the credential
//! protection helpers, which call the outside cipher and encoding crates
//! behind trusted, documented contracts.

pub mod amount;
pub mod balance;
pub mod crypt;
pub mod error;
pub mod fx;
pub mod portfolio;
pub mod xtb;
