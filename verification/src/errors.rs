//! Error kinds surfaced to the host, each distinguishable by the caller.

use vstd::prelude::*;

verus! {

/// Every failure the coordination plane can report.
#[derive(Clone, Copy, Debug, PartialEq, Eq, Structural)]
pub enum HydraError {
    /// A required configuration field is missing or empty; startup-only.
    ConfigInvalid,
    /// The checkpoints or clients table is missing or not in a ready state.
    MetadataUnavailable,
    /// The stream is missing or not in a ready state.
    StreamNotReady,
    /// A heartbeat write to the clients table failed.
    RegistrationFailed,
    /// A rebalance pass failed to fetch peers or shards.
    AssignmentFailed,
    /// The consumer adapter returned from its run loop with an error.
    ConsumerFatal,
    /// Normal shutdown; never surfaced to the host as a failure.
    Cancelled,
}

} // verus!
