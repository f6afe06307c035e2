//! Exposes Linux scheduler statistics (`schedstat`) as Prometheus metrics.
//!
//! The library holds the two pieces with real contracts: the fixed-format
//! parser that turns per-CPU `schedstat` lines into counter records, and the
//! renderer that turns those records into Prometheus exposition text.

pub mod schedstat;
pub mod text;
