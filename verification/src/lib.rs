//! In-memory spot-market trading core: fixed-point decimal amounts,
//! per-account balance accounting with freeze/settle/unfreeze invariants,
//! and a price-time-priority matching engine.

pub mod decimal;
pub mod models;
pub mod matching;
pub mod balance;
pub mod laws;
