//! Reconciles donations from a card processor and a donation platform into one
//! list of donors, layers hand-written overrides on top, and sums the result

pub mod donor;
pub mod recency;
pub mod reconcile;
pub mod merge;
pub mod every_org;
pub mod metrics;
