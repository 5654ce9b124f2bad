//! Verified core of a dynamic-DNS synchronization client.
//!
//! The library covers secure configuration ingestion (path priority,
//! permission gate, config-document codec), public-IP discovery with a
//! v6-to-v4 fallback, the provider's update protocol, and a batch
//! orchestrator with per-domain failure isolation.  Network and file
//! I/O are reached only through capability traits implemented by the
//! surrounding application.

pub mod config;
pub mod duckdns;
pub mod ipaddr;
pub mod ipify;
pub mod sync;
pub mod text;
