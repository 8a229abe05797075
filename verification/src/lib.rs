//! Matching core of a limit-order-book exchange: a fixed-capacity,
//! arena-backed order book with price/time priority, the matching algorithm
//! that crosses bids against asks, and the locked/free balance ledger that
//! settlement updates. Asset custody, persistence and signature checking are
//! the host's business; this crate only computes.

pub mod types;
pub mod book;
pub mod ledger;
pub mod market;
pub mod engine;
