//! The error taxonomy of the synchronization core.

use vstd::prelude::*;

verus! {

/// Everything that can go wrong while pushing to or fetching from the
/// remote index.
///
/// - `ObjectReadError`: a local object could not be read (corrupt or missing).
/// - `UnsupportedKind`: an object of a kind other than commit, tree, blob or
///   tag was encountered; traversal aborts.
/// - `PullNeededError`: a non-forced push found remote-visible history that is
///   not available locally; the caller should fetch first or force the push.
/// - `ObjectNotIndexed`: a fetch referenced an id absent from the index.
/// - `MintError`: a ledger transaction failed to submit or finalize.
/// - `MissingEventError`: a ledger transaction finalized but the expected
///   record-minted event was absent.
/// - `IntegrityError`: a fetched object's content does not hash to the id it
///   was fetched for.
/// - `DecodeError`: a transported blob is not a well-formed encoding.
#[derive(Clone, Copy, Debug, PartialEq, Eq, Structural)]
pub enum RepoError {
    ObjectReadError,
    UnsupportedKind,
    PullNeededError,
    ObjectNotIndexed,
    MintError,
    MissingEventError,
    IntegrityError,
    DecodeError,
}

} // verus!
