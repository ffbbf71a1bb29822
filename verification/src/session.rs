//! Single-flight background resolution.
//!
//! A resolution run may be offloaded to a worker thread while the foreground
//! keeps using the cache.  The discipline is relocate-then-merge: the cache
//! is moved out of the session (never aliased), the worker resolves it to
//! completion, and the coordinating thread merges the result back.  At most
//! one run may be in flight per session; a second request is refused, not
//! queued.  The thread plumbing itself lives with the caller; this type
//! holds the decisions and their guarantees.

use vstd::prelude::*;

use crate::cache::Cache;
use crate::order::CacheIdentifier;

verus! {

/// The shared state a coordinating thread keeps: the visible cache, and
/// whether a resolution run is in flight.  While one is, the visible cache
/// is a stand-in empty value, so callers must tolerate a temporarily
/// smaller view.
pub struct ResolveSession<IdType, ValueType> where IdType: CacheIdentifier, ValueType: View {
    /// The cache as the foreground sees it.
    pub cache: Cache<IdType, ValueType>,
    /// Whether a resolution run is in flight; callers should treat this as
    /// read-only and go through `start_resolution` / `finish_resolution`.
    pub in_flight: bool,
}

impl<IdType: CacheIdentifier, ValueType: View> ResolveSession<IdType, ValueType> {
    /// Whether a resolution run is currently in flight.
    pub open spec fn resolving(&self) -> bool {
        self.in_flight
    }

    /// A session around an empty cache, with nothing in flight.
    pub fn new() -> (r: Self)
        ensures
            r.cache.wf(),
            r.cache@ == Map::<IdType::V, ValueType::V>::empty(),
            !r.resolving(),
    {
        ResolveSession { cache: Default::default(), in_flight: false }
    }

    /// Whether a resolution run is currently in flight.
    pub fn is_resolving(&self) -> (r: bool)
        ensures
            r == self.resolving(),
    {
        self.in_flight
    }

    /// Begin a run: relocate the cache out of the session — for a worker to
    /// own exclusively — leaving an empty stand-in behind, and remember that
    /// a run is in flight.  Refused, returning `None` and changing nothing,
    /// while another run is in flight.
    pub fn start_resolution(&mut self) -> (r: Option<Cache<IdType, ValueType>>)
        requires
            old(self).cache.wf(),
        ensures
            old(self).resolving() ==> r is None && *final(self) == *old(self),
            !old(self).resolving() ==> (r matches Some(c)
                && c == old(self).cache
                && final(self).resolving()
                && final(self).cache.wf()
                && final(self).cache@ == Map::<IdType::V, ValueType::V>::empty()),
    {
        if self.in_flight {
            return None;
        }
        let mut taken: Cache<IdType, ValueType> = Default::default();
        core::mem::swap(&mut self.cache, &mut taken);
        self.in_flight = true;
        Some(taken)
    }

    /// Finish a run: absorb the worker's resulting cache — its entries win
    /// on key conflicts — and clear the in-flight mark.
    pub fn finish_resolution(&mut self, result: Cache<IdType, ValueType>)
        requires
            old(self).resolving(),
            old(self).cache.wf(),
            result.wf(),
        ensures
            !final(self).resolving(),
            final(self).cache.wf(),
            final(self).cache@
                == old(self).cache@.union_prefer_right(result@),
    {
        self.cache.merge_with(result);
        self.in_flight = false;
    }
}

} // verus!
