//! Aggregation and ranking engine for combat-log leaderboard tables.
//!
//! The engine answers ranking and aggregation queries over an immutable,
//! already-built table of encounter-result rows: canonicalisation of
//! equivalent gear-set variants, frequency counting (raw and
//! partition-normalised), prevalence percentages, and player leaderboards
//! with recursive tie-breaking.

pub mod bignum;
pub mod counts;
pub mod intern;
pub mod label;
pub mod model;
pub mod normal;
pub mod order;
pub mod pages;
pub mod pairs;
pub mod partition;
pub mod prevalence;
pub mod rank;
pub mod resolve;
pub mod rounding;
pub mod topn;
