//! The bookkeeping of the track manager: batch validation, lifecycle events, and the table of
//! live tracks kept in identifier order with sequentially numbered identifiers.

use vstd::prelude::*;

use crate::diagnostics::{count_kind, counters_match, BatchDiagnostics, LifecycleEvent, LifecycleEventKind};
use crate::ids::{padded_decimal, ObservationId, TrackId};
use crate::lifecycle::{ManagedTrack, TrackStatus, TrackUpdate};
use crate::observation::{ObservationBatch, TimedObservation};
use crate::text::{
    lemma_seq_less_asymmetric, lemma_seq_less_irreflexive, lemma_seq_less_total,
    lemma_seq_less_transitive, order_text, seq_less, TextOrder,
};

verus! {

/// An error from the track manager, carrying its message.
#[derive(Debug, Clone, PartialEq, Eq)]
pub struct TrackManagerError(String);

impl View for TrackManagerError {
    type V = Seq<char>;

    closed spec fn view(&self) -> Seq<char> {
        self.0@
    }
}

impl TrackManagerError {
    pub fn new(message: &str) -> (e: Self)
        ensures
            e@ == message@,
    {
        TrackManagerError(message.to_owned())
    }

    pub fn message(&self) -> (m: &str)
        ensures
            m@ == self@,
    {
        self.0.as_str()
    }
}

/// Whether every observation in the batch has its own identifier.
pub open spec fn observation_ids_unique<D, C>(observations: Seq<TimedObservation<D, C>>) -> bool {
    forall|i: int, j: int|
        0 <= i < j < observations.len() ==> #[trigger] observations[i].id@ != #[trigger] observations[j].id@
}

/// Rejects a batch in which two observations share an identifier.
pub fn validate_batch<D, C>(batch: &ObservationBatch<D, C>) -> (r: Result<(), TrackManagerError>)
    ensures
        r is Ok <==> observation_ids_unique(batch.observations@),
        r matches Err(e) ==> e@ == "observation identifiers must be unique within a batch"@,
{
    let n = batch.observations.len();
    let mut j: usize = 0;
    while j < n
        invariant
            n == batch.observations.len(),
            0 <= j <= n,
            forall|a: int, b: int|
                0 <= a < b < j ==> #[trigger] batch.observations@[a].id@ != #[trigger] batch.observations@[b].id@,
        decreases n - j,
    {
        let mut i: usize = 0;
        while i < j
            invariant
                n == batch.observations.len(),
                0 <= i <= j < n,
                forall|a: int| 0 <= a < i ==> #[trigger] batch.observations@[a].id@ != batch.observations@[j as int].id@,
            decreases j - i,
        {
            if batch.observations[i].id.same(&batch.observations[j].id) {
                return Err(TrackManagerError::new("observation identifiers must be unique within a batch"));
            }
            i = i + 1;
        }
        j = j + 1;
    }
    Ok(())
}

/// The observation of the batch with the given identifier (the first, if several share it).
pub fn observation<'a, D, C>(batch: &'a ObservationBatch<D, C>, id: &ObservationId) -> (o: &'a TimedObservation<D, C>)
    requires
        exists|i: int| 0 <= i < batch.observations.len() && #[trigger] batch.observations@[i].id@ == id@,
    ensures
        exists|i: int|
            0 <= i < batch.observations.len() && batch.observations@[i] == *o && o.id@ == id@
                && forall|j: int| 0 <= j < i ==> #[trigger] batch.observations@[j].id@ != id@,
{
    let mut i: usize = 0;
    while i < batch.observations.len()
        invariant
            0 <= i <= batch.observations.len(),
            exists|k: int| 0 <= k < batch.observations.len() && #[trigger] batch.observations@[k].id@ == id@,
            forall|j: int| 0 <= j < i ==> #[trigger] batch.observations@[j].id@ != id@,
        decreases batch.observations.len() - i,
    {
        if batch.observations[i].id.same(id) {
            return &batch.observations[i];
        }
        i = i + 1;
    }
    proof {
        let k = choose|k: int| 0 <= k < batch.observations.len() && #[trigger] batch.observations@[k].id@ == id@;
        assert(batch.observations@[k].id@ != id@);
    }
    &batch.observations[0]
}

/// A lifecycle event for `track`, reporting its identifier and current status.
pub fn event<S>(track: &ManagedTrack<S>, kind: LifecycleEventKind, time_ns: i64, observation_id: Option<ObservationId>, state: S) -> (e: LifecycleEvent<S>)
    ensures
        e.time_ns == time_ns,
        e.track_id@ == track.id@,
        e.kind == kind,
        e.observation_id == observation_id,
        e.status == track.status,
        e.state == state,
{
    LifecycleEvent { time_ns, track_id: track.id.duplicate(), kind, observation_id, status: track.status, state }
}

/// The identifier the manager gives its `n`-th track: `track-` and at least three digits.
pub open spec fn track_label(n: nat) -> Seq<char> {
    "track-"@ + padded_decimal(n, 3)
}

/// Live tracks in increasing identifier order, and the number of the next track to create.
#[derive(Clone)]
pub struct TrackTable<S> {
    tracks: Vec<ManagedTrack<S>>,
    next_track_number: u64,
}

/// Whether the identifiers of `tracks` strictly increase.
pub open spec fn ids_increasing<S>(tracks: Seq<ManagedTrack<S>>) -> bool {
    forall|i: int, j: int| 0 <= i < j < tracks.len() ==> seq_less(#[trigger] tracks[i].id@, #[trigger] tracks[j].id@)
}

impl<S> TrackTable<S> {
    /// The tracks, in increasing identifier order.
    pub closed spec fn spec_tracks(&self) -> Seq<ManagedTrack<S>> {
        self.tracks@
    }

    pub closed spec fn spec_next_track_number(&self) -> u64 {
        self.next_track_number
    }

    pub closed spec fn wf(&self) -> bool {
        ids_increasing(self.tracks@)
    }

    /// An empty table whose first track will be number one.
    pub fn new() -> (t: Self)
        ensures
            t.wf(),
            t.spec_tracks().len() == 0,
            t.spec_next_track_number() == 1,
    {
        TrackTable { tracks: Vec::new(), next_track_number: 1 }
    }

    pub fn tracks(&self) -> (v: &Vec<ManagedTrack<S>>)
        ensures
            v@ == self.spec_tracks(),
    {
        &self.tracks
    }

    pub fn next_track_number(&self) -> (n: u64)
        ensures
            n == self.spec_next_track_number(),
    {
        self.next_track_number
    }

    pub fn len(&self) -> (n: usize)
        ensures
            n == self.spec_tracks().len(),
    {
        self.tracks.len()
    }

    /// The identifiers of the live tracks, in increasing order.
    pub fn track_ids(&self) -> (ids: Vec<TrackId>)
        ensures
            ids@.len() == self.spec_tracks().len(),
            forall|i: int| 0 <= i < ids@.len() ==> #[trigger] ids@[i]@ == self.spec_tracks()[i].id@,
    {
        let mut ids: Vec<TrackId> = Vec::new();
        let mut i: usize = 0;
        while i < self.tracks.len()
            invariant
                0 <= i <= self.tracks@.len(),
                ids@.len() == i,
                forall|k: int| 0 <= k < i ==> #[trigger] ids@[k]@ == self.tracks@[k].id@,
            decreases self.tracks.len() - i,
        {
            ids.push(self.tracks[i].id.duplicate());
            i = i + 1;
        }
        ids
    }

    /// The position of the track with the given identifier.
    pub fn position(&self, id: &TrackId) -> (p: Option<usize>)
        ensures
            match p {
                Some(i) => i < self.spec_tracks().len() && self.spec_tracks()[i as int].id@ == id@,
                None => forall|i: int| 0 <= i < self.spec_tracks().len() ==> #[trigger] self.spec_tracks()[i].id@ != id@,
            },
    {
        let mut i: usize = 0;
        while i < self.tracks.len()
            invariant
                0 <= i <= self.tracks@.len(),
                forall|k: int| 0 <= k < i ==> #[trigger] self.tracks@[k].id@ != id@,
            decreases self.tracks.len() - i,
        {
            if self.tracks[i].id.same(id) {
                return Some(i);
            }
            i = i + 1;
        }
        None
    }

    /// The track with the given identifier.
    pub fn get(&self, id: &TrackId) -> (t: Option<&ManagedTrack<S>>)
        ensures
            match t {
                Some(track) => exists|i: int| 0 <= i < self.spec_tracks().len() && self.spec_tracks()[i] == *track && track.id@ == id@,
                None => forall|i: int| 0 <= i < self.spec_tracks().len() ==> #[trigger] self.spec_tracks()[i].id@ != id@,
            },
    {
        match self.position(id) {
            Some(i) => Some(&self.tracks[i]),
            None => None,
        }
    }

    /// Inserts `track` under its identifier, replacing a track with the same identifier and
    /// otherwise keeping the identifiers in increasing order.
    pub fn insert(&mut self, track: ManagedTrack<S>)
        requires
            old(self).wf(),
        ensures
            final(self).wf(),
            final(self).spec_next_track_number() == old(self).spec_next_track_number(),
            (exists|i: int| 0 <= i < old(self).spec_tracks().len() && #[trigger] old(self).spec_tracks()[i].id@ == track.id@) ==>
                exists|i: int| 0 <= i < old(self).spec_tracks().len() && old(self).spec_tracks()[i].id@ == track.id@
                    && final(self).spec_tracks() == old(self).spec_tracks().update(i, track),
            (forall|i: int| 0 <= i < old(self).spec_tracks().len() ==> #[trigger] old(self).spec_tracks()[i].id@ != track.id@) ==>
                exists|p: int| 0 <= p <= old(self).spec_tracks().len()
                    && final(self).spec_tracks() == old(self).spec_tracks().insert(p, track),
    {
        let n = self.tracks.len();
        let mut p: usize = 0;
        let mut found_equal = false;
        while p < n
            invariant_except_break
                !found_equal,
            invariant
                n == self.tracks@.len(),
                0 <= p <= n,
                ids_increasing(self.tracks@),
                forall|k: int| 0 <= k < p ==> seq_less(#[trigger] self.tracks@[k].id@, track.id@),
            ensures
                0 <= p <= n,
                forall|k: int| 0 <= k < p ==> seq_less(#[trigger] self.tracks@[k].id@, track.id@),
                found_equal ==> p < n && self.tracks@[p as int].id@ == track.id@,
                !found_equal ==> p == n || seq_less(track.id@, self.tracks@[p as int].id@),
            decreases n - p,
        {
            match order_text(self.tracks[p].id.as_str(), track.id.as_str()) {
                TextOrder::Less => {
                    p = p + 1;
                },
                TextOrder::Equal => {
                    found_equal = true;
                    break;
                },
                TextOrder::Greater => {
                    break;
                },
            }
        }
        let ghost old_tracks = self.tracks@;
        if found_equal {
            proof {
                assert(old_tracks[p as int].id@ == track.id@);
            }
            self.tracks.set(p, track);
            proof {
                assert forall|i: int, j: int| 0 <= i < j < self.tracks@.len() implies seq_less(#[trigger] self.tracks@[i].id@, #[trigger] self.tracks@[j].id@) by {
                    assert(seq_less(old_tracks[i].id@, old_tracks[j].id@));
                }
            }
        } else {
            proof {
                    assert forall|i: int| 0 <= i < n implies #[trigger] old_tracks[i].id@ != track.id@ by {
                    if i < p {
                        lemma_seq_less_irreflexive(track.id@);
                    } else {
                        if i > p {
                            lemma_seq_less_transitive(track.id@, old_tracks[p as int].id@, old_tracks[i].id@);
                        }
                        lemma_seq_less_irreflexive(track.id@);
                    }
                }
            }
            self.tracks.insert(p, track);
            proof {
                let t = self.tracks@;
                assert(t == old_tracks.insert(p as int, track));
                assert forall|i: int, j: int| 0 <= i < j < t.len() implies seq_less(#[trigger] t[i].id@, #[trigger] t[j].id@) by {
                    if j < p {
                        assert(seq_less(old_tracks[i].id@, old_tracks[j].id@));
                    } else if j == p {
                        assert(t[i] == old_tracks[i]);
                    } else if i == p {
                        assert(t[j] == old_tracks[j - 1]);
                        if j - 1 > p {
                            lemma_seq_less_transitive(track.id@, old_tracks[p as int].id@, old_tracks[j - 1].id@);
                        }
                    } else if i < p {
                        assert(seq_less(old_tracks[i].id@, old_tracks[j - 1].id@));
                    } else {
                        assert(seq_less(old_tracks[i - 1].id@, old_tracks[j - 1].id@));
                    }
                }
            }
        }
    }

    /// Removes and returns the track with the given identifier.
    pub fn remove(&mut self, id: &TrackId) -> (removed: Option<ManagedTrack<S>>)
        requires
            old(self).wf(),
        ensures
            final(self).wf(),
            final(self).spec_next_track_number() == old(self).spec_next_track_number(),
            match removed {
                Some(track) => exists|i: int|
                    0 <= i < old(self).spec_tracks().len() && old(self).spec_tracks()[i] == track && track.id@ == id@
                        && final(self).spec_tracks() == old(self).spec_tracks().remove(i),
                None => final(self).spec_tracks() == old(self).spec_tracks()
                    && forall|i: int| 0 <= i < old(self).spec_tracks().len() ==> #[trigger] old(self).spec_tracks()[i].id@ != id@,
            },
    {
        match self.position(id) {
            Some(i) => {
                let ghost old_tracks = self.tracks@;
                let track = self.tracks.remove(i);
                proof {
                    let t = self.tracks@;
                    assert forall|a: int, b: int| 0 <= a < b < t.len() implies seq_less(#[trigger] t[a].id@, #[trigger] t[b].id@) by {
                        if b < i {
                        } else if a < i {
                            assert(t[b] == old_tracks[b + 1]);
                            assert(seq_less(old_tracks[a].id@, old_tracks[b + 1].id@));
                        } else {
                            assert(seq_less(old_tracks[a + 1].id@, old_tracks[b + 1].id@));
                        }
                    }
                }
                Some(track)
            },
            None => None,
        }
    }

    /// Takes the next sequential identifier, `track-` followed by the track number written with
    /// at least three digits. Fails, leaving the table unchanged, when the counter cannot advance.
    pub fn allocate_track_id(&mut self) -> (r: Result<TrackId, TrackManagerError>)
        ensures
            final(self).spec_tracks() == old(self).spec_tracks(),
            final(self).wf() == old(self).wf(),
            match r {
                Ok(id) => id@ == track_label(old(self).spec_next_track_number() as nat)
                    && old(self).spec_next_track_number() < u64::MAX
                    && final(self).spec_next_track_number() == old(self).spec_next_track_number() + 1,
                Err(e) => old(self).spec_next_track_number() == u64::MAX
                    && e@ == "track identifier counter overflowed"@
                    && final(self).spec_next_track_number() == old(self).spec_next_track_number(),
            },
    {
        let mut label = String::from_str("track-");
        crate::ids::push_padded_decimal(&mut label, self.next_track_number, 3);
        match self.next_track_number.checked_add(1) {
            Some(next) => {
                self.next_track_number = next;
                Ok(TrackId::from_string(label))
            },
            None => Err(TrackManagerError::new("track identifier counter overflowed")),
        }
    }
}

/// Scan-by-scan manager state: the application's model, association engine, posterior
/// reducer, initiator and lifecycle policy, and the live tracks with their numbering.
pub struct TrackManager<S, M, A, R, I, L> {
    pub model: M,
    pub association: A,
    pub reducer: R,
    pub initiator: I,
    pub lifecycle: L,
    pub tracks: TrackTable<S>,
}

impl<S, M, A, R, I, L> TrackManager<S, M, A, R, I, L> {
    /// A manager with no tracks, whose first track will be `track-001`.
    pub fn new(model: M, association: A, reducer: R, initiator: I, lifecycle: L) -> (m: Self)
        ensures
            m.model == model,
            m.association == association,
            m.reducer == reducer,
            m.initiator == initiator,
            m.lifecycle == lifecycle,
            m.tracks.wf(),
            m.tracks.spec_tracks().len() == 0,
            m.tracks.spec_next_track_number() == 1,
    {
        TrackManager { model, association, reducer, initiator, lifecycle, tracks: TrackTable::new() }
    }

    /// Ends a batch that was processed on copies of the batch state: a successful batch
    /// replaces the tracks, initiator and lifecycle policy with the staged ones and hands back
    /// its output; a failed batch changes nothing and hands back its error.
    pub fn commit<O, E>(&mut self, staged: Result<(StagedBatch<S, I, L>, O), E>) -> (r: Result<O, E>)
        ensures
            match staged {
                Ok((batch, output)) => {
                    &&& r == Ok::<O, E>(output)
                    &&& final(self).tracks == batch.tracks
                    &&& final(self).initiator == batch.initiator
                    &&& final(self).lifecycle == batch.lifecycle
                    &&& final(self).model == old(self).model
                    &&& final(self).association == old(self).association
                    &&& final(self).reducer == old(self).reducer
                },
                Err(error) => r == Err::<O, E>(error) && *final(self) == *old(self),
            },
    {
        match staged {
            Ok((batch, output)) => {
                self.tracks = batch.tracks;
                self.initiator = batch.initiator;
                self.lifecycle = batch.lifecycle;
                Ok(output)
            },
            Err(error) => Err(error),
        }
    }
}

/// The batch state a processed batch leaves behind, before it is committed.
pub struct StagedBatch<S, I, L> {
    pub tracks: TrackTable<S>,
    pub initiator: I,
    pub lifecycle: L,
}

/// The manager never gives two tracks the same identifier: different track numbers have
/// different labels.
pub proof fn lemma_track_labels_distinct(n: nat, m: nat)
    requires
        n != m,
    ensures
        track_label(n) != track_label(m),
{
    let prefix = "track-"@;
    if track_label(n) == track_label(m) {
        assert(padded_decimal(n, 3) =~= track_label(n).subrange(prefix.len() as int, track_label(n).len() as int));
        assert(padded_decimal(m, 3) =~= track_label(m).subrange(prefix.len() as int, track_label(m).len() as int));
        crate::ids::lemma_padded_decimal_injective(n, m, 3);
    }
}

/// `e` is the `kind` event of `track` at `time_ns`, for `observation_id`, reporting `state`.
pub open spec fn is_event<S>(
    e: LifecycleEvent<S>,
    track: ManagedTrack<S>,
    kind: LifecycleEventKind,
    time_ns: i64,
    observation_id: Option<ObservationId>,
    state: S,
) -> bool {
    &&& e.time_ns == time_ns
    &&& e.track_id@ == track.id@
    &&& e.kind == kind
    &&& e.observation_id == observation_id
    &&& e.status == track.status
    &&& e.state == state
}

/// `after` is `before` with one more event, the `kind` event of `track`.
pub open spec fn pushed_event<S>(
    before: Seq<LifecycleEvent<S>>,
    after: Seq<LifecycleEvent<S>>,
    track: ManagedTrack<S>,
    kind: LifecycleEventKind,
    time_ns: i64,
    observation_id: Option<ObservationId>,
    state: S,
) -> bool {
    &&& after.len() == before.len() + 1
    &&& after.drop_last() == before
    &&& is_event(after.last(), track, kind, time_ns, observation_id, state)
}

proof fn lemma_push_counts<S>(before: Seq<LifecycleEvent<S>>, after: Seq<LifecycleEvent<S>>)
    requires
        after.len() == before.len() + 1,
        after.drop_last() == before,
    ensures
        forall|k: LifecycleEventKind| #[trigger] count_kind(after, k)
            == count_kind(before, k) + if after.last().kind == k { 1nat } else { 0nat },
{
}

/// The time at which a track's update of this scan counts: the latest time of its associated
/// observations, or the scan's output time when it has none.
pub fn update_time(associated_observations: usize, output_time_ns: i64, reduction_time_ns: i64) -> (t: i64)
    ensures
        t == if associated_observations == 0 { output_time_ns } else { reduction_time_ns },
{
    if associated_observations == 0 { output_time_ns } else { reduction_time_ns }
}

/// Records the lifecycle event of one track's update in this scan. A hit that confirms a track
/// which was not confirmed before records a Confirmed event with the track's state; any other
/// hit records nothing. A miss or a coast records a Missed or Coasted event, reporting the
/// state predicted to the reduction time when the track had no association in a hard plan
/// (`hard_miss`), and the track's state otherwise. Each event counts in its counter, and
/// nothing else changes.
pub fn record_track_update<S>(
    diagnostics: &mut BatchDiagnostics,
    events: &mut Vec<LifecycleEvent<S>>,
    track: &ManagedTrack<S>,
    was_confirmed: bool,
    update: TrackUpdate,
    time_ns: i64,
    hard_miss: bool,
    predicted: S,
    current: S,
)
    requires
        old(diagnostics).confirmed_tracks < usize::MAX,
        old(diagnostics).missed_updates < usize::MAX,
        old(diagnostics).coasted_updates < usize::MAX,
    ensures
        match update {
            TrackUpdate::Hit => if !was_confirmed && track.status == TrackStatus::Confirmed {
                &&& pushed_event(old(events)@, final(events)@, *track, LifecycleEventKind::Confirmed, time_ns, None, current)
                &&& *final(diagnostics) == (BatchDiagnostics {
                    confirmed_tracks: (old(diagnostics).confirmed_tracks + 1) as usize,
                    ..*old(diagnostics)
                })
            } else {
                final(events)@ == old(events)@ && *final(diagnostics) == *old(diagnostics)
            },
            TrackUpdate::Miss => {
                &&& pushed_event(old(events)@, final(events)@, *track, LifecycleEventKind::Missed, time_ns, None,
                    if hard_miss { predicted } else { current })
                &&& *final(diagnostics) == (BatchDiagnostics {
                    missed_updates: (old(diagnostics).missed_updates + 1) as usize,
                    ..*old(diagnostics)
                })
            },
            TrackUpdate::Coast => {
                &&& pushed_event(old(events)@, final(events)@, *track, LifecycleEventKind::Coasted, time_ns, None,
                    if hard_miss { predicted } else { current })
                &&& *final(diagnostics) == (BatchDiagnostics {
                    coasted_updates: (old(diagnostics).coasted_updates + 1) as usize,
                    ..*old(diagnostics)
                })
            },
        },
        counters_match(*old(diagnostics), old(events)@) ==> counters_match(*final(diagnostics), final(events)@),
{
    let ghost before = events@;
    match update {
        TrackUpdate::Hit => {
            if !was_confirmed && track.status == TrackStatus::Confirmed {
                diagnostics.confirmed_tracks = diagnostics.confirmed_tracks + 1;
                events.push(event(track, LifecycleEventKind::Confirmed, time_ns, None, current));
                assert(events@.drop_last() =~= before);
                proof { lemma_push_counts(before, events@); }
            }
        },
        TrackUpdate::Miss => {
            diagnostics.missed_updates = diagnostics.missed_updates + 1;
            let state = if hard_miss { predicted } else { current };
            events.push(event(track, LifecycleEventKind::Missed, time_ns, None, state));
            assert(events@.drop_last() =~= before);
            proof { lemma_push_counts(before, events@); }
        },
        TrackUpdate::Coast => {
            diagnostics.coasted_updates = diagnostics.coasted_updates + 1;
            let state = if hard_miss { predicted } else { current };
            events.push(event(track, LifecycleEventKind::Coasted, time_ns, None, state));
            assert(events@.drop_last() =~= before);
            proof { lemma_push_counts(before, events@); }
        },
    }
}

/// Records the creation of `track` from `observation_id` at `time_ns`: one Created event,
/// counted.
pub fn record_created<S>(
    diagnostics: &mut BatchDiagnostics,
    events: &mut Vec<LifecycleEvent<S>>,
    track: &ManagedTrack<S>,
    time_ns: i64,
    observation_id: ObservationId,
    state: S,
)
    requires
        old(diagnostics).created_tracks < usize::MAX,
    ensures
        pushed_event(old(events)@, final(events)@, *track, LifecycleEventKind::Created, time_ns, Some(observation_id), state),
        *final(diagnostics) == (BatchDiagnostics {
            created_tracks: (old(diagnostics).created_tracks + 1) as usize,
            ..*old(diagnostics)
        }),
        counters_match(*old(diagnostics), old(events)@) ==> counters_match(*final(diagnostics), final(events)@),
{
    let ghost before = events@;
    diagnostics.created_tracks = diagnostics.created_tracks + 1;
    events.push(event(track, LifecycleEventKind::Created, time_ns, Some(observation_id), state));
    assert(events@.drop_last() =~= before);
    proof { lemma_push_counts(before, events@); }
}

/// Records the deletion of `track` at `time_ns`, reporting `state`: one Deleted event,
/// counted.
pub fn record_deleted<S>(
    diagnostics: &mut BatchDiagnostics,
    events: &mut Vec<LifecycleEvent<S>>,
    track: &ManagedTrack<S>,
    time_ns: i64,
    state: S,
)
    requires
        old(diagnostics).deleted_tracks < usize::MAX,
    ensures
        pushed_event(old(events)@, final(events)@, *track, LifecycleEventKind::Deleted, time_ns, None, state),
        *final(diagnostics) == (BatchDiagnostics {
            deleted_tracks: (old(diagnostics).deleted_tracks + 1) as usize,
            ..*old(diagnostics)
        }),
        counters_match(*old(diagnostics), old(events)@) ==> counters_match(*final(diagnostics), final(events)@),
{
    let ghost before = events@;
    diagnostics.deleted_tracks = diagnostics.deleted_tracks + 1;
    events.push(event(track, LifecycleEventKind::Deleted, time_ns, None, state));
    assert(events@.drop_last() =~= before);
    proof { lemma_push_counts(before, events@); }
}

/// Whether an observation with identifier `id` is among `available`.
pub open spec fn is_available(available: Seq<ObservationId>, id: Seq<char>) -> bool {
    exists|j: int| 0 <= j < available.len() && #[trigger] available[j]@ == id
}

/// Whether the `k`-th proposed observation may start a track: it is among the available
/// (unassigned) observations and was not proposed before.
pub open spec fn acceptable_proposal(available: Seq<ObservationId>, proposed: Seq<ObservationId>, k: int) -> bool {
    &&& is_available(available, proposed[k]@)
    &&& forall|j: int| 0 <= j < k ==> #[trigger] proposed[j]@ != proposed[k]@
}

/// The first proposal of an initiator that may not start a track, if any.
pub fn first_unacceptable_initiation(available: &Vec<ObservationId>, proposed: &Vec<ObservationId>) -> (r: Option<usize>)
    ensures
        match r {
            Some(k) => k < proposed@.len() && !acceptable_proposal(available@, proposed@, k as int)
                && forall|j: int| 0 <= j < k ==> #[trigger] acceptable_proposal(available@, proposed@, j),
            None => forall|k: int| 0 <= k < proposed@.len() ==> #[trigger] acceptable_proposal(available@, proposed@, k),
        },
{
    let mut k: usize = 0;
    while k < proposed.len()
        invariant
            0 <= k <= proposed@.len(),
            forall|j: int| 0 <= j < k ==> #[trigger] acceptable_proposal(available@, proposed@, j),
        decreases proposed@.len() - k,
    {
        let mut known = false;
        let mut j: usize = 0;
        while j < available.len()
            invariant
                0 <= j <= available@.len(),
                k < proposed@.len(),
                known == exists|a: int| 0 <= a < j && #[trigger] available@[a]@ == proposed@[k as int]@,
            decreases available@.len() - j,
        {
            if available[j].same(&proposed[k]) {
                known = true;
            }
            j = j + 1;
        }
        let mut repeated = false;
        let mut i: usize = 0;
        while i < k
            invariant
                0 <= i <= k < proposed@.len(),
                repeated == exists|a: int| 0 <= a < i && #[trigger] proposed@[a]@ == proposed@[k as int]@,
            decreases k - i,
        {
            if proposed[i].same(&proposed[k]) {
                repeated = true;
            }
            i = i + 1;
        }
        if !known || repeated {
            return Some(k);
        }
        assert(acceptable_proposal(available@, proposed@, k as int));
        k = k + 1;
    }
    None
}

/// Checks what an initiator proposed: every proposed observation must be available (known and
/// not assigned to a track) and proposed once.
pub fn check_initiated(available: &Vec<ObservationId>, proposed: &Vec<ObservationId>) -> (r: Result<(), TrackManagerError>)
    ensures
        r is Ok <==> {
            &&& forall|k: int| 0 <= k < proposed@.len() ==> #[trigger] is_available(available@, proposed@[k]@)
            &&& forall|a: int, b: int| 0 <= a < b < proposed@.len() ==> #[trigger] proposed@[a]@ != #[trigger] proposed@[b]@
        },
        r matches Err(e) ==> e@ == "initiator returned an assigned, unknown, or duplicate observation"@,
{
    match first_unacceptable_initiation(available, proposed) {
        Some(k) => {
            proof {
                let ks = k as int;
                if !is_available(available@, proposed@[ks]@) {
                } else {
                    let a = choose|a: int| 0 <= a < ks && #[trigger] proposed@[a]@ == proposed@[ks]@;
                    assert(proposed@[a]@ == proposed@[ks]@);
                }
            }
            Err(TrackManagerError::new("initiator returned an assigned, unknown, or duplicate observation"))
        },
        None => {
            assert forall|a: int, b: int| 0 <= a < b < proposed@.len() implies #[trigger] proposed@[a]@ != #[trigger] proposed@[b]@ by {
                assert(acceptable_proposal(available@, proposed@, b));
            }
            assert forall|k: int| 0 <= k < proposed@.len() implies #[trigger] is_available(available@, proposed@[k]@) by {
                assert(acceptable_proposal(available@, proposed@, k));
            }
            Ok(())
        },
    }
}

/// The identifiers of the confirmed tracks among `tracks`, in order.
pub open spec fn confirmed_ids<S>(tracks: Seq<ManagedTrack<S>>) -> Seq<Seq<char>>
    decreases tracks.len(),
{
    if tracks.len() == 0 {
        Seq::empty()
    } else {
        let rest = confirmed_ids(tracks.drop_last());
        if tracks.last().status == TrackStatus::Confirmed { rest.push(tracks.last().id@) } else { rest }
    }
}

/// The text of each identifier.
pub open spec fn track_id_views(ids: Seq<TrackId>) -> Seq<Seq<char>> {
    ids.map_values(|id: TrackId| id@)
}

/// The identifiers of the live confirmed tracks, in identifier order: the tracks a scan
/// reports.
pub fn confirmed_track_ids<S>(tracks: &TrackTable<S>) -> (ids: Vec<TrackId>)
    ensures
        track_id_views(ids@) == confirmed_ids(tracks.spec_tracks()),
{
    let all = tracks.tracks();
    let mut ids: Vec<TrackId> = Vec::new();
    let mut i: usize = 0;
    while i < all.len()
        invariant
            all@ == tracks.spec_tracks(),
            0 <= i <= all@.len(),
            track_id_views(ids@) == confirmed_ids(all@.take(i as int)),
        decreases all@.len() - i,
    {
        let ghost before = track_id_views(ids@);
        assert(all@.take(i + 1).drop_last() =~= all@.take(i as int));
        assert(all@.take(i + 1).last() == all@[i as int]);
        if all[i].status == TrackStatus::Confirmed {
            ids.push(all[i].id.duplicate());
            assert(track_id_views(ids@) =~= before.push(all@[i as int].id@));
        }
        i = i + 1;
    }
    assert(all@.take(all@.len() as int) =~= all@);
    ids
}

} // verus!
