//! A verified per-loglet worker for a replicated-log server node.
//!
//! A *loglet* is a bounded segment of a replicated log, written by a single
//! external sequencer and stored on this node as an ordered run of records
//! addressed by monotone 64-bit offsets. The worker in this crate is the sole
//! local authority for one loglet: it classifies and serializes store, seal,
//! trim, read and info requests, pipelines durability through a log store,
//! and keeps the in-memory tail, trim point and seal flag consistent with
//! what has been made durable.

pub mod types;
pub mod records;
pub mod messages;
pub mod state;
pub mod logstore;
pub mod read;
pub mod worker;
pub mod schemas;
pub mod invoke;
