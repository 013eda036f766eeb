//! Core of a readiness-driven TCP echo relay: the per-connection buffered
//! state machine, the fixed-capacity connection table, and the routing and
//! admission rules of the event loop. Socket I/O and the readiness
//! multiplexer itself live with the caller, which reports each outcome back.
use vstd::prelude::*;

pub mod conn;
pub mod table;

verus! {

/// Most connections the table is ever sized for.
pub const MAX_CLIENTS: usize = 1024;

/// Size of the transfer buffer a read fills.
pub const DEFAULT_BUF_SIZE: usize = 1024;

} // verus!
