//! Peer-liveness monitoring with a phi-accrual failure detector.
//!
//! Nodes of a small cluster exchange UDP heartbeats, and each node
//! estimates, per peer, a continuous suspicion level ("phi") instead of a
//! binary up/down flag: the longer a peer stays silent compared with its
//! observed heartbeat rhythm, the higher phi climbs past any chosen
//! threshold.  All time is integer milliseconds and phi is carried in
//! thousandths, so the whole statistical model is verified end to end.
//!
//! - [`history`]: the bounded window of inter-heartbeat intervals with
//!   running sums.
//! - [`logistic`]: fixed-point pieces of the phi computation, with the
//!   monotonicity lemmas behind the suspicion laws.
//! - [`phi`]: the per-peer failure detector, its builder, and its laws.
//! - [`inventory`]: the registry of monitored peers and the status
//!   snapshot.
//! - [`transport`]: the decision logic around the UDP socket and the
//!   per-peer ping timers.
//! - [`monitor`]: the status fan-out to observer sessions.
//! - [`messages`]: the message types and the length-prefixed wire codec,
//!   with its round-trip proof.
//! - [`wire`]: byte-level codec primitives (decimals, hyphenated hex
//!   ids, endpoints).
//!
//! Sockets, timers, and processes live in an embedding; every unit here
//! takes events as plain calls and hands effects back as plain values,
//! which keeps the single-writer discipline of the design checkable.

pub mod history;
pub mod inventory;
pub mod logistic;
pub mod messages;
pub mod monitor;
pub mod peer;
pub mod phi;
pub mod transport;
pub mod wire;
