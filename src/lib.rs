//! Ingestion and indexing core of a price-oracle relay: decoding of attested
//! batch envelopes and accumulator snapshots, typed update records with their
//! derived identity, proof binding, and a per-feed time-series store.

pub mod bytes;
pub mod payload;
pub mod accumulator;
pub mod message;
pub mod store;
