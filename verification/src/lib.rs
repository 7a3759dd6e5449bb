//! Telemetry correlation and normalization for home power metering.
//!
//! Field devices (smart power relays and a pulse-counting energy meter)
//! publish partial, timestamped reports over a message bus. This library
//! pairs those fragments into complete records, repairs monotonic
//! counters across device resets, reconciles device clocks against
//! arrival time, and batches encoded records for delivery to a
//! time-series sink with bounded buffering and unbounded retry.
//!
//! All bus and HTTP plumbing lives outside this crate; the library works
//! on plain values (strings, integers, bytes) and is verified.

pub mod buffer;
pub mod config;
pub mod counter;
pub mod device;
pub mod display;
pub mod encode;
pub mod impulse;
pub mod power_state;
pub mod precision;
pub mod strutil;
pub mod swarm;
pub mod telemetry;
pub mod timestamp;
pub mod topic;
pub mod writer;
