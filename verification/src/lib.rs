//! Fleet-sizing and reconciliation engine for a build-farm autoscaler.
//!
//! The library turns a snapshot of queued work into a desired list of
//! machine plans, matches that list against the machines that currently
//! exist, and decides, machine by machine, when a drained machine may be
//! destroyed.  All network and process plumbing lives outside the library;
//! the functions here work on plain values and carry proved contracts.

pub mod device;
pub mod hardware;
pub mod lifecycle;
pub mod machine_type;
pub mod reconcile;
pub mod util;
