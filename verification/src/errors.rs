//! The failure kinds that the pipeline surfaces to its callers.

use vstd::prelude::*;

verus! {

/// Why an operation of the pipeline failed.
///
/// Every component surfaces its failures to the caller; the only silent
/// branches are the documented success paths (a cached artifact skips the
/// download, removing an absent token is a no-op).
#[derive(Clone, Copy, Debug, PartialEq, Eq, Structural)]
pub enum InstallError {
    /// An expected file or record is absent.
    NotFound,
    /// The run port is already bound to another installer.
    Conflict,
    /// The network transfer failed, or the server answered with the
    /// carried non-success status code.
    Transport(u16),
    /// The config text or the archive cannot be decoded.
    Malformed,
    /// A directory or file could not be created or written.
    Filesystem,
    /// The host identifier could not be derived.
    Unavailable,
}

} // verus!
