//! Authoritative lobby synchronization: a server keeps the canonical set of
//! connected participants, broadcasts a fixed-capacity snapshot of that set
//! whenever membership changes, and each client reconciles its local registry
//! of remote representations against the snapshots it receives.

use vstd::prelude::*;

pub mod client;
pub mod lobby;
pub mod server;
pub mod snapshot;

verus! {

/// Maximum number of participants a snapshot can announce; the wire format
/// always carries exactly this many slots.
pub const MAX_CONNECTIONS: usize = 16;

/// Opaque handle to a locally owned representation of one participant
/// (a placeholder entity on the server, a visual representation on a client).
/// The lobby never looks inside a handle; it only stores and returns it.
#[derive(Clone, Copy, PartialEq, Eq, Structural, Debug, Hash)]
pub struct EntityHandle {
    pub raw: u64,
}

impl EntityHandle {
    pub fn new(raw: u64) -> (h: EntityHandle)
        ensures
            h.raw == raw,
    {
        EntityHandle { raw }
    }
}

} // verus!
