//! Error kinds of the proxy core.

use vstd::prelude::*;

verus! {

/// Every failure the core can report.
///
/// `KeyInvalid`: the request path does not form a safe cache key.
/// `NotFound`: the origin store has no object under the key.
/// `OriginError`: the origin fetch failed part way or could not start.
/// `CacheIOError`: the cache artifact could not be written or published.
/// `FillConflict`: a fill was requested for a key whose temporary artifact
/// already exists; unreachable when fills are admitted through the
/// singleflight coordinator, kept as a defensive guard.
#[derive(Clone, Copy, Debug, PartialEq, Eq, Structural)]
pub enum ProxyError {
    KeyInvalid,
    NotFound,
    OriginError,
    CacheIOError,
    FillConflict,
}

} // verus!
