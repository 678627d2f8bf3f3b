//! Reconstructs the set of unspent transaction outputs from a stream of
//! blocks, audits each block's monetary accounting against the issuance
//! schedule, and aggregates the surviving outputs into per-address balances.

pub mod aggregate;
pub mod apply;
pub mod audit;
pub mod block;
pub mod engine;
pub mod index;
pub mod laws;
pub mod numfmt;
pub mod snapshot;
pub mod subsidy;
