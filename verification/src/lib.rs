//! Core of a caching reverse proxy that fronts a remote blob store.
//!
//! On a request for an object key the proxy serves a previously fetched copy
//! from a local cache, or — on first access — streams the object from the
//! origin store to the requesting clients while writing it to a cache
//! artifact that is published atomically on success.
//!
//! This crate is the verified core: key validation, the cache store's
//! commit/abort state machine, the singleflight coordinator that admits at
//! most one fill per key, the tee populator that fans origin chunks out to
//! the cache artifact and to every attached client sink, and the proxy
//! handler's decisions. All I/O (HTTP transport, origin wire protocol, disk
//! reads and writes, config file parsing) lives outside: callers perform the
//! actions these state machines decide on and feed the outcomes back in.

pub mod bytes;
pub mod config;
pub mod coordinator;
pub mod errors;
pub mod key;
pub mod proxy;
pub mod session;
pub mod store;
