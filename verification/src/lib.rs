//! Watches a fixed set of named services and keeps a bounded pool of
//! indicator slots (LEDs on a companion device) synchronized with their
//! observed states.
//!
//! The verified core is the reconciliation engine: it maps service names to
//! indicator slots, detects status transitions, reclaims slots when services
//! disappear, and emits exactly one actuation request per transition.
//! Probing the service manager and calling the remote device are I/O and
//! live outside this library; they hand plain values in and take plain
//! values back.

pub mod config;
pub mod engine;
pub mod pool;
pub mod status;
