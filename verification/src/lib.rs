//! Refreshes short-lived cloud credentials: exchanges a long-lived identity
//! plus a one-time multi-factor code for a temporary credential triple, then
//! reconciles that triple into one section of a local multi-section key-value
//! credential store, leaving every other section and key untouched.

pub mod error;
pub mod store;
pub mod codec;
pub mod exchange;
pub mod reconcile;
