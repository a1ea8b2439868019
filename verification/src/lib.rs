//! Replication log of latest values.
//!
//! This crate keeps, for every key expression of a replicated storage, the
//! latest publication (last-writer-wins by timestamp) and summarises the log
//! into a compact, three-era digest that lets two replicas detect divergence
//! with little traffic.
//!
//! The pieces, from the leaves up:
//! - [`fingerprint`]: 64-bit fingerprints combined by bitwise XOR;
//! - [`hashing`]: the xxh3 hash behind every fingerprint;
//! - [`event`]: one publication — key, timestamp, action, fingerprint;
//! - [`error`]: the few ways the log and its alignment can fail;
//! - [`configuration`]: time classification into intervals and sub-intervals,
//!   era bounds, and the configuration fingerprint;
//! - [`classification`]: sub-intervals and intervals with rolling fingerprints;
//! - [`filter`]: the Bloom filter over tracked keys;
//! - [`log`]: the log itself;
//! - [`digest`]: the three-era digest and its comparison;
//! - [`aligner`]: the per-replica alignment state machine;
//! - [`laws`]: the properties that tie the pieces together — uniqueness,
//!   convergence, the fingerprint homomorphism, Bloom soundness.

pub mod fingerprint;
pub mod hashing;
pub mod event;
pub mod error;
pub mod configuration;
pub mod classification;
pub mod filter;
pub mod log;
pub mod digest;
pub mod aligner;
pub mod laws;
