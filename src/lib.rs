//! Runtime core of a wallet for bitcoins and client-side-validated assets:
//! contract policies and their key and script derivation, the canonical
//! encoding and identity of contracts, the decisions of chain
//! synchronisation, and the composition of transfers.

pub mod cache;
pub mod chain;
pub mod crypto;
pub mod encoding;
pub mod ids;
pub mod index;
pub mod model;
pub mod operations;
pub mod policy;
pub mod records;
pub mod rpc;
pub mod service;
pub mod storage;
pub mod sync;
pub mod text;
pub mod transfer;
