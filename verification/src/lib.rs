//! Ordinal-aware construction of Bitcoin transactions.

mod bytes;
pub mod address;
pub mod allotment;
pub mod amount;
pub mod builder;
mod checks;
pub mod error;
pub mod fee_rate;
pub mod fulfilment;
pub mod laws;
pub mod model;
pub mod ordered;
pub mod outpoint;
pub mod promises;
pub mod request;
pub mod steps;
pub mod text;
pub mod transaction;
pub mod variations;
