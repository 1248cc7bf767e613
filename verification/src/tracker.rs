//! Identities and the per-scan output of a tracker.

use vstd::prelude::*;

use crate::diagnostics::LifecycleEvent;
use crate::ids::TrackId;
use crate::lifecycle::TrackStatus;

verus! {

/// Identity attached to an extracted target estimate.
///
/// `Unlabeled` is not a temporary or missing ID. It represents a backend whose output is a
/// target set without persistent identity.
#[derive(Debug, Clone)]
pub enum TrackIdentity {
    Labeled(TrackId),
    Unlabeled,
}

impl TrackIdentity {
    pub fn track_id(&self) -> (id: Option<&TrackId>)
        ensures
            match self {
                TrackIdentity::Labeled(track_id) => id == Some(track_id),
                TrackIdentity::Unlabeled => id is None,
            },
    {
        match self {
            TrackIdentity::Labeled(track_id) => Some(track_id),
            TrackIdentity::Unlabeled => None,
        }
    }
}

#[derive(Debug, Clone)]
pub struct TrackReport<S> {
    pub identity: TrackIdentity,
    pub state: S,
    pub status: TrackStatus,
}

/// Everything a tracker reports for one scan.
#[derive(Debug, Clone)]
pub struct TrackingOutput<S, Diagnostics> {
    pub measurement_time_ns: i64,
    pub arrival_time_ns: i64,
    pub tracks: Vec<TrackReport<S>>,
    pub lifecycle: Vec<LifecycleEvent<S>>,
    pub diagnostics: Diagnostics,
}

} // verus!
