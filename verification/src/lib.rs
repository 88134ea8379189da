//! Reachability and latency sampling of network endpoints, with the
//! bookkeeping for an append-only store of the samples.
//!
//! The library decides and computes; it sends no packet and opens no file.
//! Its caller sends the echo requests that a [`burst::Burst`] asks for and
//! hands back what came of them, and sends the statements of a
//! [`database::Database`] to the store and hands back the rows.
//!
//! - [`address`]: the addresses of the targets and their text.
//! - [`address_laws`]: why that text reads back as the address.
//! - [`burst`]: one burst of probes, stopped by the first failure.
//! - [`ping_result`]: the aggregate of a burst.
//! - [`database`]: the rows of the store and the order of what is read back.
//! - [`sweep`]: one pass over the list of targets.
//! - [`timestamp`]: points in time and their RFC 3339 text.
//! - [`ping`]: the sample of a single, implied target.
//! - [`config`]: the options of the program.
//! - [`text`]: digits and separated fields.

pub mod address;
pub mod address_laws;
pub mod burst;
pub mod config;
pub mod database;
pub mod ping;
pub mod ping_result;
pub mod sweep;
pub mod text;
pub mod timestamp;
