//! The error kinds that the versioning core reports.
//!
//! Every failure is returned as a typed result. An absent head, an absent
//! staging file and an absent ref are modelled as empty or optional values,
//! never as errors.

use vstd::prelude::*;

verus! {

/// The failure kinds of the versioning core.
#[derive(Clone, Copy, Debug, PartialEq, Eq, Structural)]
pub enum CogitError {
    /// An underlying input/output failure, reported by the surrounding
    /// application.
    IoError,
    /// An operation that assumes an existing repository found none.
    NotARepository,
    /// A load by hash found no object, or the stored chain is corrupt.
    InvalidHash,
    /// Persisted commit, tree or staging data is malformed.
    SerializationError,
    /// A diff was requested between two identical versions.
    NoChangesToCommit,
}

} // verus!
