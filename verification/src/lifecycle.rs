//! Track lifecycle states and the hit-count rules for confirmation, misses, and deletion.

use vstd::prelude::*;

use crate::arith::{clamp_i64, saturating_sub_i64};
use crate::ids::{ObservationId, TrackId};

verus! {

#[derive(Debug, Clone, Copy, PartialEq, Eq, Structural)]
pub enum TrackStatus {
    Tentative,
    Confirmed,
}

/// One live track with its retained state and lifecycle counters.
#[derive(Debug, Clone)]
pub struct ManagedTrack<S> {
    pub id: TrackId,
    pub state: S,
    pub status: TrackStatus,
    pub hit_count: usize,
    pub miss_count: usize,
    pub last_update_time_ns: i64,
    /// Latest time the sensor had a detection opportunity for this track.
    /// Out-of-coverage scans do not advance this value toward deletion.
    pub last_observable_time_ns: i64,
}

/// A track an initiator proposes from one observation.
#[derive(Debug, Clone)]
pub struct InitiatedTrack<S> {
    pub observation_id: ObservationId,
    pub state: S,
}

/// How one scan changed a track's lifecycle.
#[derive(Debug, Clone, Copy, PartialEq, Eq, Structural)]
pub enum TrackUpdate {
    Hit,
    Miss,
    Coast,
}

/// The update the hit-count policy selects. A hit takes precedence over coverage; otherwise a
/// track outside coverage, or inside it with zero detection probability, coasts, and any other
/// track misses.
pub fn hit_count_update(meets_hit_threshold: bool, observable: bool, zero_detection_probability: bool) -> (u: TrackUpdate)
    ensures
        u == if meets_hit_threshold {
            TrackUpdate::Hit
        } else if !observable || zero_detection_probability {
            TrackUpdate::Coast
        } else {
            TrackUpdate::Miss
        },
{
    if meets_hit_threshold {
        TrackUpdate::Hit
    } else if !observable {
        TrackUpdate::Coast
    } else if zero_detection_probability {
        TrackUpdate::Coast
    } else {
        TrackUpdate::Miss
    }
}

/// The track after the hit-count policy applies `update` at `time_ns`.
pub open spec fn hit_count_next<S>(track: ManagedTrack<S>, update: TrackUpdate, time_ns: i64, confirmation_hits: usize) -> ManagedTrack<S> {
    match update {
        TrackUpdate::Hit => ManagedTrack {
            hit_count: (track.hit_count + 1) as usize,
            miss_count: 0,
            last_update_time_ns: time_ns,
            last_observable_time_ns: time_ns,
            status: if track.hit_count + 1 >= confirmation_hits { TrackStatus::Confirmed } else { track.status },
            ..track
        },
        TrackUpdate::Miss => ManagedTrack {
            miss_count: (track.miss_count + 1) as usize,
            last_observable_time_ns: time_ns,
            ..track
        },
        TrackUpdate::Coast => track,
    }
}

/// Applies a hit-count update: a hit counts toward confirmation and refreshes both times, a miss
/// counts and refreshes only the observable time, and a coast leaves the track unchanged.
pub fn apply_hit_count_update<S>(track: &mut ManagedTrack<S>, update: TrackUpdate, time_ns: i64, confirmation_hits: usize)
    requires
        update == TrackUpdate::Hit ==> old(track).hit_count < usize::MAX,
        update == TrackUpdate::Miss ==> old(track).miss_count < usize::MAX,
    ensures
        *final(track) == hit_count_next(*old(track), update, time_ns, confirmation_hits),
{
    match update {
        TrackUpdate::Hit => {
            track.hit_count = track.hit_count + 1;
            track.miss_count = 0;
            track.last_update_time_ns = time_ns;
            track.last_observable_time_ns = time_ns;
            if track.hit_count >= confirmation_hits {
                track.status = TrackStatus::Confirmed;
            }
        },
        TrackUpdate::Miss => {
            track.miss_count = track.miss_count + 1;
            track.last_observable_time_ns = time_ns;
        },
        TrackUpdate::Coast => {},
    }
}

/// Whether the time between the latest detection opportunity and the latest update has reached
/// the limit (the difference saturates at the bounds of `i64`).
pub open spec fn spec_exceeds_time_without_update<S>(track: ManagedTrack<S>, max_time_without_update_ns: i64) -> bool {
    clamp_i64(track.last_observable_time_ns - track.last_update_time_ns) >= max_time_without_update_ns
}

/// The hit-count deletion rule.
pub fn exceeds_time_without_update<S>(track: &ManagedTrack<S>, max_time_without_update_ns: i64) -> (b: bool)
    ensures
        b == spec_exceeds_time_without_update(*track, max_time_without_update_ns),
{
    saturating_sub_i64(track.last_observable_time_ns, track.last_update_time_ns) >= max_time_without_update_ns
}

/// Confirmation is permanent: no hit-count update returns a confirmed track to tentative.
pub proof fn lemma_confirmation_is_permanent<S>(track: ManagedTrack<S>, update: TrackUpdate, time_ns: i64, confirmation_hits: usize)
    requires
        track.status == TrackStatus::Confirmed,
    ensures
        hit_count_next(track, update, time_ns, confirmation_hits).status == TrackStatus::Confirmed,
{
}

/// A coast (a scan without a detection opportunity) never moves a track toward deletion: the
/// track and therefore the deletion rule's verdict are unchanged.
pub proof fn lemma_coast_does_not_advance_deletion<S>(track: ManagedTrack<S>, time_ns: i64, confirmation_hits: usize, max_time_without_update_ns: i64)
    ensures
        hit_count_next(track, TrackUpdate::Coast, time_ns, confirmation_hits) == track,
        spec_exceeds_time_without_update(hit_count_next(track, TrackUpdate::Coast, time_ns, confirmation_hits), max_time_without_update_ns)
            == spec_exceeds_time_without_update(track, max_time_without_update_ns),
{
}

/// A hit resets the deletion clock: right after a hit the track is due for deletion only if the
/// limit is not positive.
pub proof fn lemma_hit_resets_deletion_clock<S>(track: ManagedTrack<S>, time_ns: i64, confirmation_hits: usize, max_time_without_update_ns: i64)
    requires
        track.hit_count < usize::MAX,
    ensures
        spec_exceeds_time_without_update(hit_count_next(track, TrackUpdate::Hit, time_ns, confirmation_hits), max_time_without_update_ns)
            == (max_time_without_update_ns <= 0),
{
}

} // verus!
