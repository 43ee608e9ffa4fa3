//! Splitting a shared receipt among the people who owe on it.
//!
//! A [`receipt::Receipt`] holds the purchased items, the people, and the tax
//! and tip multipliers. Each person holds shares of some weight in some of
//! the items; an item's cost with tax and tip is divided among its holders in
//! proportion to their weights. All amounts are exact fractions of a cent
//! ([`cost::Cost`]), so that what the people owe together is what the items
//! cost together, which [`conservation::lemma_conservation`] proves.

pub mod command;
pub mod conservation;
pub mod cost;
pub mod gcd;
pub mod item;
pub mod person;
pub mod receipt;
pub mod sums;
pub mod text;
