//! Lifecycle events and per-batch counters.

use vstd::prelude::*;

use crate::ids::{ObservationId, TrackId};
use crate::lifecycle::TrackStatus;

verus! {

#[derive(Debug, Clone, Copy, PartialEq, Eq, Structural)]
pub enum LifecycleEventKind {
    Created,
    Confirmed,
    Missed,
    Coasted,
    Deleted,
}

/// One change in a track's life, with the state reported for it.
#[derive(Debug, Clone)]
pub struct LifecycleEvent<S> {
    pub time_ns: i64,
    pub track_id: TrackId,
    pub kind: LifecycleEventKind,
    pub observation_id: Option<ObservationId>,
    pub status: TrackStatus,
    pub state: S,
}

/// Counters for one processed batch.
#[derive(Debug, Clone, Copy, Default, PartialEq, Eq, Structural)]
pub struct BatchDiagnostics {
    pub candidate_pairs: usize,
    pub gated_out_pairs: usize,
    pub invalid_candidate_pairs: usize,
    pub selected_associations: usize,
    pub missed_updates: usize,
    pub coasted_updates: usize,
    pub created_tracks: usize,
    pub confirmed_tracks: usize,
    pub deleted_tracks: usize,
}

impl BatchDiagnostics {
    /// All counters zero.
    pub fn zero() -> (d: Self)
        ensures
            d == (BatchDiagnostics {
                candidate_pairs: 0,
                gated_out_pairs: 0,
                invalid_candidate_pairs: 0,
                selected_associations: 0,
                missed_updates: 0,
                coasted_updates: 0,
                created_tracks: 0,
                confirmed_tracks: 0,
                deleted_tracks: 0,
            }),
    {
        BatchDiagnostics {
            candidate_pairs: 0,
            gated_out_pairs: 0,
            invalid_candidate_pairs: 0,
            selected_associations: 0,
            missed_updates: 0,
            coasted_updates: 0,
            created_tracks: 0,
            confirmed_tracks: 0,
            deleted_tracks: 0,
        }
    }
}

/// The number of `events` of `kind`.
pub open spec fn count_kind<S>(events: Seq<LifecycleEvent<S>>, kind: LifecycleEventKind) -> nat
    decreases events.len(),
{
    if events.len() == 0 {
        0
    } else {
        count_kind(events.drop_last(), kind) + if events.last().kind == kind { 1nat } else { 0nat }
    }
}

/// Each lifecycle counter of `d` equals the number of `events` of its kind.
pub open spec fn counters_match<S>(d: BatchDiagnostics, events: Seq<LifecycleEvent<S>>) -> bool {
    &&& d.created_tracks == count_kind(events, LifecycleEventKind::Created)
    &&& d.confirmed_tracks == count_kind(events, LifecycleEventKind::Confirmed)
    &&& d.missed_updates == count_kind(events, LifecycleEventKind::Missed)
    &&& d.coasted_updates == count_kind(events, LifecycleEventKind::Coasted)
    &&& d.deleted_tracks == count_kind(events, LifecycleEventKind::Deleted)
}

/// A scan starts with its lifecycle counters at zero and no events, which match.
pub proof fn lemma_zero_counters_match_no_events<S>(d: BatchDiagnostics)
    requires
        d.created_tracks == 0,
        d.confirmed_tracks == 0,
        d.missed_updates == 0,
        d.coasted_updates == 0,
        d.deleted_tracks == 0,
    ensures
        counters_match(d, Seq::<LifecycleEvent<S>>::empty()),
{
}

} // verus!
