//! Core engine of a terminal portfolio tracker: holding-file parsing,
//! quote arithmetic, two-tier price caching, portfolio aggregation with
//! quantity-weighted cost basis, batch-refresh bookkeeping, and stable
//! direction-aware rankings.
//!
//! Monetary values (prices, quantities, cost bases, exchange rates) are
//! fixed-point integers with four decimal places; percentages share the
//! same scale, so `50.0 %` is stored as `500_000`.

pub mod aggregate;
pub mod amount;
pub mod bytes;
pub mod cache;
pub mod dashboard;
pub mod history;
pub mod holding;
pub mod market;
pub mod money;
pub mod portfolio;
pub mod position;
pub mod quote;
pub mod ranking;
pub mod summary;

pub use money::{MAX_AMOUNT, MAX_HOLDINGS, PCT_SCALE, SCALE};
