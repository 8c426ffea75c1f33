//! A verified core for a stock-quote streaming server.
//!
//! The library holds the logic of the system; the surrounding process
//! (sockets, threads, signals) lives outside and hands plain values in
//! and out.
//!
//! - [`text`]: decimal numerals, splitting and string equality — the
//!   ground the codecs stand on.
//! - [`addr`]: the subscriber address and its `"a.b.c.d:port"` text.
//! - [`stock`]: quotes, requests, responses, the fixed-point price text,
//!   the pipe-separated quote line and the delivery-time ticker filter.
//! - [`json`]: the control-plane and broadcast JSON, with round-trip
//!   proofs.
//! - [`registry`]: the subscriber table — registration with replace
//!   semantics, liveness stamps, skip-on-full broadcast fan-out and
//!   timeout-driven eviction, with the laws that govern them.
//! - [`control`]: what one control-plane exchange does.
//! - [`generator`]: the per-ticker price state and snapshot production.
//! - [`catalog`]: what the startup tickers file means.

pub mod addr;
pub mod catalog;
pub mod control;
pub mod generator;
pub mod json;
pub mod registry;
pub mod stock;
pub mod text;
