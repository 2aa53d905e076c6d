//! Constant-product swap pricing, a pool registry, and a search for cyclic
//! 2-hop and 3-hop arbitrage routes over a snapshot of that registry.
//!
//! Amounts and reserves are integer base units; a pool's fee is a number of
//! millionths of the input amount.
pub mod swap;
pub mod model;
pub mod order;
pub mod registry;
pub mod routes;
pub mod rank;
pub mod engine;
