//! Manager core for persistent SSH local port forwards.
//!
//! The library holds the verified logic: the forward registry and its
//! identity and ordering rules, the JSON text of the config file, port
//! selection, and the decisions behind delete and cleanup. All process,
//! network and file work stays with the binary that wraps this crate.

use vstd::prelude::*;

pub mod codec;
pub mod config;
pub mod forward;
pub mod laws;
pub mod port;
pub mod surface;
pub mod text;

verus! {

/// The failures the library itself can detect and report.
#[derive(Clone, Debug, PartialEq, Eq)]
pub enum Error {
    /// A port argument was not `L:R` or a single port number.
    BadPortSpec,
    /// No free local port at or above the requested one.
    NoPortAvailable,
    /// The config file exists but is not a well-formed registry.
    ConfigUnreadable,
}

} // verus!
