//! A verified core for a small caching DNS forwarder.
//!
//! The library holds the DNS wire-format codec (header bit-fields,
//! length-prefixed label names, compression-pointer resolution), the
//! in-memory cache with its expiry sweep, and the per-query dispatch
//! decision. Socket transport and task scheduling live outside it.

pub mod wire;
pub mod message;
pub mod codec;
pub mod cache;
pub mod dispatch;
pub mod laws;
