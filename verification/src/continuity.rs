//! Frame-by-frame scoring of object tracks against ground truth: which truth objects were
//! matched, by which track, and how often a truth object changed track or lost and regained
//! its match.

use vstd::prelude::*;

use crate::arith::{abs_diff_i64, i64_as_u64, reinterpret_i64_as_u64};
use crate::order::{comes_before, key_less, key_same, lists, stable_order, SortKey};
use crate::text::{lemma_seq_less_irreflexive, seq_less};

verus! {

/// What is known of one truth object: the track that matched it last, whether any track ever
/// matched it, and whether the previous frame that saw it matched it.
pub type ContinuityView = (Option<Seq<char>>, bool, bool);

/// A truth object never seen before.
pub open spec fn fresh_continuity() -> ContinuityView {
    (None, false, false)
}

/// The continuity of one truth object.
#[derive(Debug, Clone)]
pub struct TruthContinuity {
    pub last_track_id: Option<String>,
    pub ever_matched: bool,
    pub matched_previous_frame: bool,
}

impl TruthContinuity {
    pub open spec fn view_of(&self) -> ContinuityView {
        (
            match self.last_track_id {
                Some(s) => Some(s@),
                None => None,
            },
            self.ever_matched,
            self.matched_previous_frame,
        )
    }
}

/// One truth object's key and continuity.
#[derive(Debug, Clone)]
pub struct ContinuityEntry {
    pub truth_key: String,
    pub state: TruthContinuity,
}

/// The continuity map held by a list of entries (a later entry for a key wins).
pub open spec fn entries_map(es: Seq<ContinuityEntry>) -> Map<Seq<char>, ContinuityView>
    decreases es.len(),
{
    if es.len() == 0 {
        Map::empty()
    } else {
        entries_map(es.drop_last()).insert(es.last().truth_key@, es.last().state.view_of())
    }
}

/// No two entries share a key.
pub open spec fn keys_unique(es: Seq<ContinuityEntry>) -> bool {
    forall|i: int, j: int| 0 <= i < j < es.len() ==> (#[trigger] es[i]).truth_key@ != (#[trigger] es[j]).truth_key@
}

proof fn lemma_entries_map_dom(es: Seq<ContinuityEntry>)
    ensures
        forall|k: Seq<char>| #[trigger] entries_map(es).contains_key(k)
            <==> exists|i: int| 0 <= i < es.len() && es[i].truth_key@ == k,
    decreases es.len(),
{
    if es.len() > 0 {
        lemma_entries_map_dom(es.drop_last());
        assert forall|k: Seq<char>| #[trigger] entries_map(es).contains_key(k)
            <==> exists|i: int| 0 <= i < es.len() && es[i].truth_key@ == k by {
            let rest = es.drop_last();
            if entries_map(es).contains_key(k) && k != es.last().truth_key@ {
                assert(entries_map(rest).contains_key(k));
                let i = choose|i: int| 0 <= i < rest.len() && rest[i].truth_key@ == k;
                assert(es[i].truth_key@ == k);
            }
            if exists|i: int| 0 <= i < es.len() && es[i].truth_key@ == k {
                let i = choose|i: int| 0 <= i < es.len() && es[i].truth_key@ == k;
                if i < es.len() - 1 {
                    assert(rest[i].truth_key@ == k);
                    assert(entries_map(rest).contains_key(k));
                }
            }
        }
    }
}

proof fn lemma_entries_map_at(es: Seq<ContinuityEntry>, i: int)
    requires
        keys_unique(es),
        0 <= i < es.len(),
    ensures
        entries_map(es).contains_key(es[i].truth_key@),
        entries_map(es)[es[i].truth_key@] == es[i].state.view_of(),
    decreases es.len(),
{
    if i < es.len() - 1 {
        let rest = es.drop_last();
        assert(rest[i] == es[i]);
        assert(keys_unique(rest)) by {
            assert forall|a: int, b: int| 0 <= a < b < rest.len() implies
                (#[trigger] rest[a]).truth_key@ != (#[trigger] rest[b]).truth_key@ by {
                assert(rest[a] == es[a] && rest[b] == es[b]);
            }
        }
        lemma_entries_map_at(rest, i);
        assert(es[i].truth_key@ != es.last().truth_key@);
    }
}

proof fn lemma_entries_map_update(es: Seq<ContinuityEntry>, i: int, e: ContinuityEntry)
    requires
        keys_unique(es),
        0 <= i < es.len(),
        e.truth_key@ == es[i].truth_key@,
    ensures
        keys_unique(es.update(i, e)),
        entries_map(es.update(i, e)) == entries_map(es).insert(e.truth_key@, e.state.view_of()),
    decreases es.len(),
{
    let es2 = es.update(i, e);
    assert(keys_unique(es2)) by {
        assert forall|a: int, b: int| 0 <= a < b < es2.len() implies
            (#[trigger] es2[a]).truth_key@ != (#[trigger] es2[b]).truth_key@ by {
            assert(es2[a].truth_key@ == es[a].truth_key@);
            assert(es2[b].truth_key@ == es[b].truth_key@);
        }
    }
    if i == es.len() - 1 {
        assert(es2.drop_last() == es.drop_last());
        assert(entries_map(es2) =~= entries_map(es).insert(e.truth_key@, e.state.view_of()));
    } else {
        let rest = es.drop_last();
        assert(keys_unique(rest)) by {
            assert forall|a: int, b: int| 0 <= a < b < rest.len() implies
                (#[trigger] rest[a]).truth_key@ != (#[trigger] rest[b]).truth_key@ by {
                assert(rest[a] == es[a] && rest[b] == es[b]);
            }
        }
        lemma_entries_map_update(rest, i, e);
        assert(es2.drop_last() == rest.update(i, e));
        assert(es2.last() == es.last());
        assert(e.truth_key@ != es.last().truth_key@);
        assert(entries_map(es2) =~= entries_map(es).insert(e.truth_key@, e.state.view_of()));
    }
}

/// The continuity of `key` in `m`, or that of a truth object never seen.
pub open spec fn continuity_of(m: Map<Seq<char>, ContinuityView>, key: Seq<char>) -> ContinuityView {
    if m.contains_key(key) { m[key] } else { fresh_continuity() }
}

/// Every truth object present in the frame gets an entry; those present but not matched lose
/// their "matched in the previous frame" mark.
pub open spec fn unmark_unmatched(
    m: Map<Seq<char>, ContinuityView>,
    present: Seq<Seq<char>>,
    matched: Seq<Seq<char>>,
    n: int,
) -> Map<Seq<char>, ContinuityView>
    decreases n,
{
    if n <= 0 {
        m
    } else {
        let before = unmark_unmatched(m, present, matched, n - 1);
        let key = present[n - 1];
        let c = continuity_of(before, key);
        if matched.contains(key) {
            before.insert(key, c)
        } else {
            before.insert(key, (c.0, c.1, false))
        }
    }
}

/// One match of a frame: a track and the truth object it was matched to.
#[derive(Debug, Clone)]
pub struct FrameMatch {
    pub track_id: String,
    pub truth_key: String,
}

/// The continuity after applying the first `n` matches of a frame in order, with the number
/// of identity switches (the truth object was matched in its previous frame by another track)
/// and fragments (it was matched before, but not in its previous frame) they caused.
pub open spec fn apply_matches(
    m: Map<Seq<char>, ContinuityView>,
    matches: Seq<FrameMatch>,
    n: int,
) -> (Map<Seq<char>, ContinuityView>, nat, nat)
    decreases n,
{
    if n <= 0 {
        (m, 0, 0)
    } else {
        let (before, switches, fragments) = apply_matches(m, matches, n - 1);
        let track = matches[n - 1].track_id@;
        let key = matches[n - 1].truth_key@;
        let c = continuity_of(before, key);
        let switched = c.2 && c.0 != Some(track);
        let fragmented = c.1 && !c.2;
        (
            before.insert(key, (Some(track), true, true)),
            switches + if switched { 1nat } else { 0nat },
            fragments + if fragmented { 1nat } else { 0nat },
        )
    }
}

/// The truth keys of a frame's matches.
pub open spec fn matched_keys(matches: Seq<FrameMatch>) -> Seq<Seq<char>> {
    matches.map_values(|f: FrameMatch| f.truth_key@)
}

/// Track-versus-truth counts over the frames of a run.
#[derive(Debug, Clone, Copy, PartialEq, Eq)]
pub struct TrackCounts {
    /// Tracks reported, over all frames.
    pub track_samples: usize,
    /// Track-truth matches.
    pub matched_samples: usize,
    /// Tracks that could not be scored: invalid ones, or all of a frame without truth.
    pub invalid_output_count: usize,
    /// Truth objects present but not matched.
    pub missed_object_samples: usize,
    /// Valid tracks not matched to any truth object.
    pub false_track_samples: usize,
    /// Truth objects present, over the frames that had any.
    pub truth_sample_count: usize,
    pub identity_switch_count: usize,
    pub track_fragment_count: usize,
}

impl TrackCounts {
    /// Every reported track was matched, counted false, or left unscored; every truth sample
    /// was matched or missed.
    pub open spec fn balanced(&self) -> bool {
        &&& self.invalid_output_count + self.false_track_samples + self.matched_samples == self.track_samples
        &&& self.matched_samples + self.missed_object_samples == self.truth_sample_count
    }

    /// Every counter has room for `n` more.
    pub open spec fn headroom(&self, n: int) -> bool {
        &&& self.track_samples + n <= usize::MAX
        &&& self.matched_samples + n <= usize::MAX
        &&& self.invalid_output_count + n <= usize::MAX
        &&& self.missed_object_samples + n <= usize::MAX
        &&& self.false_track_samples + n <= usize::MAX
        &&& self.truth_sample_count + n <= usize::MAX
        &&& self.identity_switch_count + n <= usize::MAX
        &&& self.track_fragment_count + n <= usize::MAX
    }
}

/// Running track-versus-truth scoring over the frames of a run.
pub struct TrackTally {
    entries: Vec<ContinuityEntry>,
    seen_tracks: Vec<String>,
    counts: TrackCounts,
}

/// The text of each identifier.
pub open spec fn texts(ids: Seq<String>) -> Seq<Seq<char>> {
    ids.map_values(|s: String| s@)
}

impl TrackTally {
    pub closed spec fn wf(&self) -> bool {
        &&& keys_unique(self.entries@)
        &&& texts(self.seen_tracks@).no_duplicates()
    }

    /// The continuity of every truth object seen so far.
    pub closed spec fn continuity(&self) -> Map<Seq<char>, ContinuityView> {
        entries_map(self.entries@)
    }

    /// The distinct track identifiers reported so far.
    pub closed spec fn seen_track_ids(&self) -> Set<Seq<char>> {
        texts(self.seen_tracks@).to_set()
    }

    /// The counts so far.
    pub closed spec fn tally(&self) -> TrackCounts {
        self.counts
    }

    /// The counts so far.
    pub fn counts(&self) -> (c: TrackCounts)
        ensures
            c == self.tally(),
    {
        self.counts
    }

    /// A tally of no frames.
    pub fn new() -> (t: Self)
        ensures
            t.wf(),
            t.continuity() == Map::<Seq<char>, ContinuityView>::empty(),
            t.seen_track_ids() == Set::<Seq<char>>::empty(),
            t.tally().balanced(),
            t.tally() == (TrackCounts {
                track_samples: 0,
                matched_samples: 0,
                invalid_output_count: 0,
                missed_object_samples: 0,
                false_track_samples: 0,
                truth_sample_count: 0,
                identity_switch_count: 0,
                track_fragment_count: 0,
            }),
    {
        let t = TrackTally {
            entries: Vec::new(),
            seen_tracks: Vec::new(),
            counts: TrackCounts {
                track_samples: 0,
                matched_samples: 0,
                invalid_output_count: 0,
                missed_object_samples: 0,
                false_track_samples: 0,
                truth_sample_count: 0,
                identity_switch_count: 0,
                track_fragment_count: 0,
            },
        };
        assert(texts(t.seen_tracks@).to_set() =~= Set::empty());
        t
    }

    /// The number of distinct track identifiers reported so far.
    pub fn track_count(&self) -> (n: usize)
        requires
            self.wf(),
        ensures
            n == self.seen_track_ids().len(),
    {
        proof { texts(self.seen_tracks@).unique_seq_to_set(); }
        self.seen_tracks.len()
    }

    fn note_track(&mut self, id: &String)
        requires
            old(self).wf(),
        ensures
            final(self).wf(),
            final(self).seen_track_ids() == old(self).seen_track_ids().insert(id@),
            final(self).continuity() == old(self).continuity(),
            final(self).entries == old(self).entries,
            final(self).counts == old(self).counts,
    {
        let ghost before = texts(self.seen_tracks@);
        let mut i: usize = 0;
        while i < self.seen_tracks.len()
            invariant
                0 <= i <= self.seen_tracks@.len(),
                before == texts(self.seen_tracks@),
                self.wf(),
                forall|j: int| 0 <= j < i ==> self.seen_tracks@[j]@ != id@,
            decreases self.seen_tracks@.len() - i,
        {
            if self.seen_tracks[i] == *id {
                proof {
                    assert(before[i as int] == id@);
                    assert(before.to_set() =~= before.to_set().insert(id@));
                }
                return;
            }
            i = i + 1;
        }
        self.seen_tracks.push(id.clone());
        proof {
            let after = texts(self.seen_tracks@);
            assert(after == before.push(id@));
            assert forall|a: int, b: int| 0 <= a < after.len() && 0 <= b < after.len() && a != b
                implies after[a] != after[b] by {
                if a < before.len() && b < before.len() {
                    assert(after[a] == before[a] && after[b] == before[b]);
                }
            }
            assert forall|x: Seq<char>| after.to_set().contains(x) <==> before.to_set().insert(id@).contains(x) by {
                if after.to_set().contains(x) {
                    let k = choose|k: int| 0 <= k < after.len() && after[k] == x;
                    if k < before.len() {
                        assert(before[k] == x);
                    }
                }
                if before.to_set().contains(x) {
                    let k = choose|k: int| 0 <= k < before.len() && before[k] == x;
                    assert(after[k] == x);
                }
                if x == id@ {
                    assert(after[before.len() as int] == x);
                }
            }
            assert(after.to_set() =~= before.to_set().insert(id@));
        }
    }

    fn lookup(&self, key: &String) -> (c: TruthContinuity)
        requires
            self.wf(),
        ensures
            c.view_of() == continuity_of(self.continuity(), key@),
    {
        proof { lemma_entries_map_dom(self.entries@); }
        let mut i: usize = 0;
        while i < self.entries.len()
            invariant
                0 <= i <= self.entries@.len(),
                self.wf(),
                forall|j: int| 0 <= j < i ==> self.entries@[j].truth_key@ != key@,
            decreases self.entries@.len() - i,
        {
            if self.entries[i].truth_key == *key {
                proof { lemma_entries_map_at(self.entries@, i as int); }
                let state = &self.entries[i].state;
                let last = match &state.last_track_id {
                    Some(s) => Some(s.clone()),
                    None => None,
                };
                return TruthContinuity {
                    last_track_id: last,
                    ever_matched: state.ever_matched,
                    matched_previous_frame: state.matched_previous_frame,
                };
            }
            i = i + 1;
        }
        TruthContinuity { last_track_id: None, ever_matched: false, matched_previous_frame: false }
    }

    fn store(&mut self, key: &String, c: TruthContinuity)
        requires
            old(self).wf(),
        ensures
            final(self).wf(),
            final(self).continuity() == old(self).continuity().insert(key@, c.view_of()),
            final(self).seen_tracks == old(self).seen_tracks,
            final(self).counts == old(self).counts,
    {
        let mut i: usize = 0;
        while i < self.entries.len()
            invariant
                0 <= i <= self.entries@.len(),
                self.wf(),
                self.seen_tracks == old(self).seen_tracks,
                self.counts == old(self).counts,
                self.entries == old(self).entries,
                forall|j: int| 0 <= j < i ==> self.entries@[j].truth_key@ != key@,
            decreases self.entries@.len() - i,
        {
            if self.entries[i].truth_key == *key {
                let entry = ContinuityEntry { truth_key: key.clone(), state: c };
                proof { lemma_entries_map_update(self.entries@, i as int, entry); }
                self.entries.set(i, entry);
                return;
            }
            i = i + 1;
        }
        let ghost before = self.entries@;
        self.entries.push(ContinuityEntry { truth_key: key.clone(), state: c });
        proof {
            assert(self.entries@.drop_last() == before);
            assert forall|a: int, b: int| 0 <= a < b < self.entries@.len() implies
                (#[trigger] self.entries@[a]).truth_key@ != (#[trigger] self.entries@[b]).truth_key@ by {
                if b < before.len() {
                    assert(self.entries@[a] == before[a] && self.entries@[b] == before[b]);
                }
            }
        }
    }
}

/// Whether some match of the frame is to the truth object `key`.
fn is_matched(matches: &Vec<FrameMatch>, key: &String) -> (b: bool)
    ensures
        b == matched_keys(matches@).contains(key@),
{
    let mut i: usize = 0;
    while i < matches.len()
        invariant
            0 <= i <= matches@.len(),
            forall|j: int| 0 <= j < i ==> matches@[j].truth_key@ != key@,
        decreases matches@.len() - i,
    {
        if matches[i].truth_key == *key {
            assert(matched_keys(matches@)[i as int] == key@);
            return true;
        }
        i = i + 1;
    }
    false
}

impl TrackTally {
    /// Scores one frame. `frame_track_ids` are the frame's tracks, of which
    /// `valid_track_count` could be scored; `truth_keys` are the truth objects present at the
    /// frame's time; `matches` pairs valid tracks with those objects, in track order. A frame
    /// without truth only counts its tracks as unscored.
    pub fn record_frame(
        &mut self,
        frame_track_ids: &Vec<String>,
        valid_track_count: usize,
        truth_keys: &Vec<String>,
        matches: &Vec<FrameMatch>,
    )
        requires
            old(self).wf(),
            valid_track_count <= frame_track_ids@.len(),
            truth_keys@.len() > 0 ==> matches@.len() <= valid_track_count,
            truth_keys@.len() > 0 ==> matches@.len() <= truth_keys@.len(),
            old(self).tally().headroom((frame_track_ids@.len() + truth_keys@.len() + matches@.len()) as int),
        ensures
            final(self).wf(),
            final(self).seen_track_ids() == old(self).seen_track_ids() + texts(frame_track_ids@).to_set(),
            final(self).tally().track_samples == old(self).tally().track_samples + frame_track_ids@.len(),
            old(self).tally().balanced() ==> final(self).tally().balanced(),
            truth_keys@.len() == 0 ==> {
                &&& final(self).continuity() == old(self).continuity()
                &&& final(self).tally() == (TrackCounts {
                    track_samples: final(self).tally().track_samples,
                    invalid_output_count: (old(self).tally().invalid_output_count + frame_track_ids@.len()) as usize,
                    ..old(self).tally()
                })
            },
            truth_keys@.len() > 0 ==> {
                let unmarked = unmark_unmatched(old(self).continuity(), texts(truth_keys@),
                    matched_keys(matches@), truth_keys@.len() as int);
                let (applied, switches, fragments) = apply_matches(unmarked, matches@, matches@.len() as int);
                &&& final(self).continuity() == applied
                &&& final(self).tally() == (TrackCounts {
                    track_samples: final(self).tally().track_samples,
                    matched_samples: (old(self).tally().matched_samples + matches@.len()) as usize,
                    invalid_output_count: (old(self).tally().invalid_output_count + frame_track_ids@.len()
                        - valid_track_count) as usize,
                    missed_object_samples: (old(self).tally().missed_object_samples + truth_keys@.len()
                        - matches@.len()) as usize,
                    false_track_samples: (old(self).tally().false_track_samples + valid_track_count
                        - matches@.len()) as usize,
                    truth_sample_count: (old(self).tally().truth_sample_count + truth_keys@.len()) as usize,
                    identity_switch_count: (old(self).tally().identity_switch_count + switches) as usize,
                    track_fragment_count: (old(self).tally().track_fragment_count + fragments) as usize,
                })
            },
    {
        let ghost start = *self;
        let mut i: usize = 0;
        while i < frame_track_ids.len()
            invariant
                0 <= i <= frame_track_ids@.len(),
                self.wf(),
                self.entries == start.entries,
                self.counts == start.counts,
                self.seen_track_ids() == start.seen_track_ids() + texts(frame_track_ids@.take(i as int)).to_set(),
            decreases frame_track_ids@.len() - i,
        {
            self.note_track(&frame_track_ids[i]);
            proof {
                let prefix = texts(frame_track_ids@.take(i + 1));
                assert(prefix == texts(frame_track_ids@.take(i as int)).push(frame_track_ids@[i as int]@));
                assert(prefix.to_set() =~= texts(frame_track_ids@.take(i as int)).to_set().insert(frame_track_ids@[i as int]@)) by {
                    let before = texts(frame_track_ids@.take(i as int));
                    assert forall|x: Seq<char>| prefix.to_set().contains(x) <==> before.to_set().insert(frame_track_ids@[i as int]@).contains(x) by {
                        if prefix.to_set().contains(x) {
                            let k = choose|k: int| 0 <= k < prefix.len() && prefix[k] == x;
                            if k < before.len() { assert(before[k] == x); }
                        }
                        if before.to_set().contains(x) {
                            let k = choose|k: int| 0 <= k < before.len() && before[k] == x;
                            assert(prefix[k] == x);
                        }
                        if x == frame_track_ids@[i as int]@ {
                            assert(prefix[i as int] == x);
                        }
                    }
                }
                assert(start.seen_track_ids() + prefix.to_set() =~= self.seen_track_ids());
            }
            i = i + 1;
        }
        assert(frame_track_ids@.take(frame_track_ids@.len() as int) == frame_track_ids@);
        self.counts.track_samples = self.counts.track_samples + frame_track_ids.len();
        if truth_keys.len() == 0 {
            self.counts.invalid_output_count = self.counts.invalid_output_count + frame_track_ids.len();
            return;
        }
        self.counts.invalid_output_count = self.counts.invalid_output_count + (frame_track_ids.len() - valid_track_count);
        self.counts.false_track_samples = self.counts.false_track_samples + (valid_track_count - matches.len());
        self.counts.missed_object_samples = self.counts.missed_object_samples + (truth_keys.len() - matches.len());
        self.counts.truth_sample_count = self.counts.truth_sample_count + truth_keys.len();
        self.counts.matched_samples = self.counts.matched_samples + matches.len();
        let ghost present = texts(truth_keys@);
        let ghost matched = matched_keys(matches@);
        let ghost counts_mid = self.counts;
        let ghost seen_after = self.seen_tracks;
        let mut k: usize = 0;
        while k < truth_keys.len()
            invariant
                0 <= k <= truth_keys@.len(),
                self.wf(),
                present == texts(truth_keys@),
                matched == matched_keys(matches@),
                self.counts == counts_mid,
                self.seen_tracks == seen_after,
                self.continuity() == unmark_unmatched(start.continuity(), present, matched, k as int),
            decreases truth_keys@.len() - k,
        {
            let key = &truth_keys[k];
            let found = is_matched(matches, key);
            let c = self.lookup(key);
            let c2 = if found {
                c
            } else {
                TruthContinuity {
                    last_track_id: c.last_track_id,
                    ever_matched: c.ever_matched,
                    matched_previous_frame: false,
                }
            };
            self.store(key, c2);
            proof { assert(present[k as int] == key@); }
            k = k + 1;
        }
        let ghost unmarked = self.continuity();
        let mut switches: usize = 0;
        let mut fragments: usize = 0;
        let mut j: usize = 0;
        while j < matches.len()
            invariant
                0 <= j <= matches@.len(),
                self.wf(),
                self.counts == counts_mid,
                self.seen_tracks == seen_after,
                counts_mid.headroom(matches@.len() as int),
                ({
                    let (applied, sw, fr) = apply_matches(unmarked, matches@, j as int);
                    &&& self.continuity() == applied
                    &&& switches == sw
                    &&& fragments == fr
                }),
                switches <= j,
                fragments <= j,
            decreases matches@.len() - j,
        {
            let m = &matches[j];
            let c = self.lookup(&m.truth_key);
            let same_track = match &c.last_track_id {
                Some(t) => *t == m.track_id,
                None => false,
            };
            if c.matched_previous_frame && !same_track {
                switches = switches + 1;
            }
            if c.ever_matched && !c.matched_previous_frame {
                fragments = fragments + 1;
            }
            self.store(&m.truth_key, TruthContinuity {
                last_track_id: Some(m.track_id.clone()),
                ever_matched: true,
                matched_previous_frame: true,
            });
            j = j + 1;
        }
        self.counts.identity_switch_count = self.counts.identity_switch_count + switches;
        self.counts.track_fragment_count = self.counts.track_fragment_count + fragments;
    }
}

/// The distance in time between `a` and `b`.
pub open spec fn time_distance(a: i64, b: i64) -> int {
    if a >= b { a as int - b as int } else { b as int - a as int }
}

/// `i` is the first of `times` closest to `t`.
pub open spec fn first_closest(times: Seq<i64>, t: i64, i: int) -> bool {
    &&& 0 <= i < times.len()
    &&& forall|j: int| 0 <= j < times.len() ==> time_distance(times[i], t) <= time_distance(#[trigger] times[j], t)
    &&& forall|j: int| 0 <= j < i ==> time_distance(#[trigger] times[j], t) > time_distance(times[i], t)
}

/// The first sample closest in time to `time_ns`, if it lies within `max_gap_ns` of it. The
/// gap is compared as an unsigned number, so a negative gap admits any distance.
pub fn nearest_by_time(times: &Vec<i64>, time_ns: i64, max_gap_ns: i64) -> (r: Option<usize>)
    ensures
        times@.len() == 0 ==> r is None,
        times@.len() > 0 ==> exists|i: int| first_closest(times@, time_ns, i) && (if time_distance(times@[i], time_ns) <= i64_as_u64(max_gap_ns) {
            r == Some(i as usize)
        } else {
            r is None
        }),
{
    if times.len() == 0 {
        return None;
    }
    let mut best: usize = 0;
    let mut best_distance = abs_diff_i64(times[0], time_ns);
    let mut i: usize = 1;
    while i < times.len()
        invariant
            1 <= i <= times@.len(),
            best < i,
            best_distance == time_distance(times@[best as int], time_ns),
            forall|j: int| 0 <= j < i ==> best_distance <= time_distance(#[trigger] times@[j], time_ns),
            forall|j: int| 0 <= j < best ==> time_distance(#[trigger] times@[j], time_ns) > best_distance,
        decreases times@.len() - i,
    {
        let d = abs_diff_i64(times[i], time_ns);
        if d < best_distance {
            best = i;
            best_distance = d;
        }
        i = i + 1;
    }
    assert(first_closest(times@, time_ns, best as int));
    if best_distance <= reinterpret_i64_as_u64(max_gap_ns) {
        Some(best)
    } else {
        None
    }
}

/// Which stored poses a pose at some time is taken from.
#[derive(Debug, Clone, Copy, PartialEq, Eq)]
pub enum PoseChoice {
    /// There is no stored pose.
    NoPose,
    /// The stored pose at this position is used as it is.
    Stored(usize),
    /// The pose is interpolated between these two positions, in time order.
    Between(usize, usize),
}

/// The first position whose time is not before `t`, or the length when there is none (the
/// partition point of time-sorted samples).
pub open spec fn first_not_before(times: Seq<i64>, t: i64) -> int
    decreases times.len(),
{
    if times.len() == 0 {
        0
    } else if times[0] >= t {
        0
    } else {
        1 + first_not_before(times.drop_first(), t)
    }
}

/// The choice made for time `t` among samples at `times`: before the first sample, its pose;
/// after the last, the last pose; otherwise the samples around `t`, or the earlier of the two
/// when they share a time.
pub open spec fn pose_choice(times: Seq<i64>, t: i64) -> PoseChoice {
    let k = first_not_before(times, t);
    if times.len() == 0 {
        PoseChoice::NoPose
    } else if k == 0 {
        PoseChoice::Stored(0)
    } else if k == times.len() {
        PoseChoice::Stored((k - 1) as usize)
    } else if times[k] == times[k - 1] {
        PoseChoice::Stored((k - 1) as usize)
    } else {
        PoseChoice::Between((k - 1) as usize, k as usize)
    }
}

proof fn lemma_first_not_before(times: Seq<i64>, t: i64, k: int)
    requires
        0 <= k <= times.len(),
        forall|j: int| 0 <= j < k ==> #[trigger] times[j] < t,
        k < times.len() ==> times[k] >= t,
    ensures
        first_not_before(times, t) == k,
    decreases times.len(),
{
    if times.len() > 0 && k > 0 {
        lemma_first_not_before(times.drop_first(), t, k - 1);
    }
}

/// Chooses the stored poses from which the pose at `t` is taken.
pub fn choose_pose(times: &Vec<i64>, t: i64) -> (c: PoseChoice)
    ensures
        c == pose_choice(times@, t),
{
    let n = times.len();
    let mut k: usize = 0;
    while k < n && times[k] < t
        invariant
            n == times@.len(),
            0 <= k <= n,
            forall|j: int| 0 <= j < k ==> #[trigger] times@[j] < t,
        decreases n - k,
    {
        k = k + 1;
    }
    proof { lemma_first_not_before(times@, t, k as int); }
    if n == 0 {
        PoseChoice::NoPose
    } else if k == 0 {
        PoseChoice::Stored(0)
    } else if k == n {
        PoseChoice::Stored(k - 1)
    } else if times[k] == times[k - 1] {
        PoseChoice::Stored(k - 1)
    } else {
        PoseChoice::Between(k - 1, k)
    }
}

/// The size of the square state covariance an ego estimate carries: four for 16 values, six
/// for 36; any other count is refused.
pub fn pose_covariance_dimension(values: usize) -> (r: Result<usize, String>)
    ensures
        values == 16 ==> r == Ok::<usize, String>(4),
        values == 36 ==> r == Ok::<usize, String>(6),
        values != 16 && values != 36 ==> (r matches Err(e) && e@ == "planar ego covariance must contain 16 or 36 values"@),
{
    if values == 16 {
        Ok(4)
    } else if values == 36 {
        Ok(6)
    } else {
        proof { reveal_strlit("planar ego covariance must contain 16 or 36 values"); }
        Err(String::from_str("planar ego covariance must contain 16 or 36 values"))
    }
}

/// One truth sample of an object: its key, its time, and whether it has both a position and
/// a velocity.
#[derive(Debug, Clone)]
pub struct TruthSample {
    pub track_key: String,
    pub time_ns: i64,
    pub complete: bool,
}

/// The truth object `track_key` at a time: its sample at position `index`.
#[derive(Debug, Clone)]
pub struct TruthAtTime {
    pub track_key: String,
    pub index: usize,
}

/// Sample `i` is the first of the samples of `key` closest in time to `t`.
pub open spec fn keyed_closest(ss: Seq<TruthSample>, key: Seq<char>, t: i64, i: int) -> bool {
    &&& 0 <= i < ss.len()
    &&& ss[i].track_key@ == key
    &&& forall|j: int| 0 <= j < ss.len() && (#[trigger] ss[j]).track_key@ == key
        ==> time_distance(ss[i].time_ns, t) <= time_distance(ss[j].time_ns, t)
    &&& forall|j: int| 0 <= j < i && (#[trigger] ss[j]).track_key@ == key
        ==> time_distance(ss[j].time_ns, t) > time_distance(ss[i].time_ns, t)
}

/// Sample `i` stands for object `key` at `t`: it is the object's closest sample, within the
/// gap, and complete.
pub open spec fn usable_truth(ss: Seq<TruthSample>, key: Seq<char>, t: i64, max_gap_ns: i64, i: int) -> bool {
    &&& keyed_closest(ss, key, t, i)
    &&& time_distance(ss[i].time_ns, t) <= i64_as_u64(max_gap_ns)
    &&& ss[i].complete
}

proof fn lemma_keyed_closest_unique(ss: Seq<TruthSample>, key: Seq<char>, t: i64, i: int, j: int)
    requires
        keyed_closest(ss, key, t, i),
        keyed_closest(ss, key, t, j),
    ensures
        i == j,
{
    if i < j {
        assert(time_distance(ss[i].time_ns, t) > time_distance(ss[j].time_ns, t));
    } else if j < i {
        assert(time_distance(ss[j].time_ns, t) > time_distance(ss[i].time_ns, t));
    }
}

fn closest_of_key(samples: &Vec<TruthSample>, key: &String, time_ns: i64) -> (i: usize)
    requires
        exists|x: int| 0 <= x < samples@.len() && samples@[x].track_key@ == key@,
    ensures
        keyed_closest(samples@, key@, time_ns, i as int),
{
    let n = samples.len();
    let mut best: Option<usize> = None;
    let mut best_distance: u64 = 0;
    let mut i: usize = 0;
    while i < n
        invariant
            n == samples@.len(),
            0 <= i <= n,
            best matches Some(b) ==> {
                &&& b < i
                &&& samples@[b as int].track_key@ == key@
                &&& best_distance == time_distance(samples@[b as int].time_ns, time_ns)
                &&& forall|j: int| 0 <= j < i && (#[trigger] samples@[j]).track_key@ == key@
                    ==> best_distance <= time_distance(samples@[j].time_ns, time_ns)
                &&& forall|j: int| 0 <= j < b && (#[trigger] samples@[j]).track_key@ == key@
                    ==> time_distance(samples@[j].time_ns, time_ns) > best_distance
            },
            best is None ==> forall|j: int| 0 <= j < i ==> (#[trigger] samples@[j]).track_key@ != key@,
        decreases n - i,
    {
        if samples[i].track_key == *key {
            let d = abs_diff_i64(samples[i].time_ns, time_ns);
            match best {
                None => {
                    best = Some(i);
                    best_distance = d;
                },
                Some(_) => {
                    if d < best_distance {
                        best = Some(i);
                        best_distance = d;
                    }
                },
            }
        }
        i = i + 1;
    }
    match best {
        Some(b) => b,
        None => {
            proof {
                let x = choose|x: int| 0 <= x < samples@.len() && samples@[x].track_key@ == key@;
                assert(samples@[x].track_key@ != key@);
            }
            0
        },
    }
}

/// The truth objects present at `time_ns`, in key order: each object's closest sample, when it
/// lies within `max_gap_ns` and has both a position and a velocity.
pub fn object_truth_at_time(samples: &Vec<TruthSample>, time_ns: i64, max_gap_ns: i64) -> (r: Vec<TruthAtTime>)
    ensures
        forall|a: int, b: int| 0 <= a < b < r@.len() ==> seq_less(#[trigger] r@[a].track_key@, #[trigger] r@[b].track_key@),
        forall|a: int| 0 <= a < r@.len() ==> usable_truth(samples@, (#[trigger] r@[a]).track_key@, time_ns, max_gap_ns, r@[a].index as int),
        forall|x: int| 0 <= x < samples@.len() ==>
            ((exists|a: int| 0 <= a < r@.len() && #[trigger] r@[a].track_key@ == (#[trigger] samples@[x]).track_key@)
                <==> (exists|i: int| usable_truth(samples@, samples@[x].track_key@, time_ns, max_gap_ns, i))),
{
    let ghost ss = samples@;
    let n = samples.len();
    // The distinct keys, in order of first appearance.
    let mut keys: Vec<SortKey> = Vec::new();
    let mut i: usize = 0;
    while i < n
        invariant
            ss == samples@,
            n == ss.len(),
            0 <= i <= n,
            forall|a: int, b: int| 0 <= a < b < keys@.len() ==> (#[trigger] keys@[a]).label@ != (#[trigger] keys@[b]).label@,
            forall|a: int| 0 <= a < keys@.len() ==> {
                &&& (#[trigger] keys@[a]).first == 0
                &&& keys@[a].second == 0
                &&& keys@[a].third == 0
                &&& exists|x: int| 0 <= x < n && ss[x].track_key@ == keys@[a].label@
            },
            forall|x: int| 0 <= x < i ==> exists|a: int| 0 <= a < keys@.len() && #[trigger] keys@[a].label@ == (#[trigger] ss[x]).track_key@,
        decreases n - i,
    {
        let key = &samples[i].track_key;
        let mut seen = false;
        let mut k: usize = 0;
        while k < keys.len()
            invariant
                0 <= k <= keys@.len(),
                seen ==> exists|a: int| 0 <= a < keys@.len() && keys@[a].label@ == key@,
                !seen ==> forall|a: int| 0 <= a < k ==> (#[trigger] keys@[a]).label@ != key@,
            decreases keys@.len() - k,
        {
            if keys[k].label == *key {
                seen = true;
            }
            k = k + 1;
        }
        if !seen {
            let ghost before = keys@;
            keys.push(SortKey { first: 0, second: 0, third: 0, label: key.clone() });
            proof {
                assert forall|a: int, b: int| 0 <= a < b < keys@.len() implies
                    (#[trigger] keys@[a]).label@ != (#[trigger] keys@[b]).label@ by {
                    if b < before.len() { assert(keys@[a] == before[a] && keys@[b] == before[b]); }
                    else { assert(keys@[a] == before[a]); }
                }
                assert forall|a: int| 0 <= a < keys@.len() implies exists|x: int| 0 <= x < n && ss[x].track_key@ == (#[trigger] keys@[a]).label@ by {
                    if a < before.len() { assert(keys@[a] == before[a]); } else { assert(ss[i as int].track_key@ == keys@[a].label@); }
                }
                assert forall|x: int| 0 <= x < i + 1 implies exists|a: int| 0 <= a < keys@.len() && #[trigger] keys@[a].label@ == (#[trigger] ss[x]).track_key@ by {
                    if x < i {
                        let a = choose|a: int| 0 <= a < before.len() && before[a].label@ == ss[x].track_key@;
                        assert(keys@[a] == before[a]);
                    } else {
                        assert(keys@[before.len() as int].label@ == ss[x].track_key@);
                    }
                }
            }
        } else {
            proof {
                assert forall|x: int| 0 <= x < i + 1 implies exists|a: int| 0 <= a < keys@.len() && #[trigger] keys@[a].label@ == (#[trigger] ss[x]).track_key@ by {
                    if x == i {
                        let a = choose|a: int| 0 <= a < keys@.len() && keys@[a].label@ == key@;
                        assert(keys@[a].label@ == ss[x].track_key@);
                    }
                }
            }
        }
        i = i + 1;
    }
    let order = stable_order(&keys);
    let mut out: Vec<TruthAtTime> = Vec::new();
    let mut k: usize = 0;
    while k < order.len()
        invariant
            ss == samples@,
            0 <= k <= order@.len(),
            order@.len() == keys@.len(),
            forall|a: int| 0 <= a < order@.len() ==> #[trigger] order@[a] < keys@.len(),
            forall|a: int, b: int| 0 <= a < b < keys@.len() ==> (#[trigger] keys@[a]).label@ != (#[trigger] keys@[b]).label@,
            forall|a: int| 0 <= a < keys@.len() ==> {
                &&& (#[trigger] keys@[a]).first == 0
                &&& keys@[a].second == 0
                &&& keys@[a].third == 0
                &&& exists|x: int| 0 <= x < ss.len() && ss[x].track_key@ == keys@[a].label@
            },
            forall|a: int, b: int| 0 <= a < b < order@.len() ==> comes_before(keys@, #[trigger] order@[a] as int, #[trigger] order@[b] as int),
            forall|a: int| 0 <= a < out@.len() ==> exists|c: int| 0 <= c < k && (#[trigger] out@[a]).track_key@ == keys@[order@[c] as int].label@,
            forall|a: int, c: int| 0 <= a < out@.len() && k <= c < order@.len() ==> seq_less((#[trigger] out@[a]).track_key@, keys@[#[trigger] order@[c] as int].label@),
            forall|a: int, b: int| 0 <= a < b < out@.len() ==> seq_less(#[trigger] out@[a].track_key@, #[trigger] out@[b].track_key@),
            forall|a: int| 0 <= a < out@.len() ==> usable_truth(ss, (#[trigger] out@[a]).track_key@, time_ns, max_gap_ns, out@[a].index as int),
            forall|c: int| 0 <= c < k ==> ((exists|a: int| 0 <= a < out@.len() && #[trigger] out@[a].track_key@ == keys@[order@[c] as int].label@)
                <==> (exists|j: int| usable_truth(ss, keys@[#[trigger] order@[c] as int].label@, time_ns, max_gap_ns, j))),
        decreases order@.len() - k,
    {
        let key = &keys[order[k]].label;
        let best = closest_of_key(samples, key, time_ns);
        let d = abs_diff_i64(samples[best].time_ns, time_ns);
        let usable = d <= reinterpret_i64_as_u64(max_gap_ns) && samples[best].complete;
        proof {
            assert forall|c: int| k < c < order@.len() implies seq_less(key@, keys@[#[trigger] order@[c] as int].label@) by {
                assert(comes_before(keys@, order@[k as int] as int, order@[c] as int));
                if key_same(keys@[order@[k as int] as int], keys@[order@[c] as int]) {
                    assert(order@[k as int] != order@[c]) by {
                        lemma_seq_less_irreflexive(key@);
                    }
                }
            }
            assert forall|j: int| usable_truth(ss, key@, time_ns, max_gap_ns, j) implies j == best as int by {
                lemma_keyed_closest_unique(ss, key@, time_ns, j, best as int);
            }
        }
        let ghost before_out = out@;
        if usable {
            let ghost before = out@;
            out.push(TruthAtTime { track_key: key.clone(), index: best });
            proof {
                assert forall|a: int, c: int| 0 <= a < out@.len() && k + 1 <= c < order@.len() implies
                    seq_less((#[trigger] out@[a]).track_key@, keys@[#[trigger] order@[c] as int].label@) by {
                    if a < before.len() {
                        assert(out@[a] == before[a]);
                    }
                }
                assert forall|a: int, b: int| 0 <= a < b < out@.len() implies seq_less(#[trigger] out@[a].track_key@, #[trigger] out@[b].track_key@) by {
                    if b < before.len() { assert(out@[a] == before[a] && out@[b] == before[b]); }
                    else { assert(out@[a] == before[a]); }
                }
            }
        }
        proof {
            assert forall|c: int| 0 <= c < k + 1 implies
                ((exists|a: int| 0 <= a < out@.len() && #[trigger] out@[a].track_key@ == keys@[order@[c] as int].label@)
                    <==> (exists|j: int| usable_truth(ss, keys@[#[trigger] order@[c] as int].label@, time_ns, max_gap_ns, j))) by {
                assert forall|a: int| 0 <= a < before_out.len() implies (#[trigger] before_out[a]).track_key@ != key@ by {
                    assert(seq_less(before_out[a].track_key@, keys@[order@[k as int] as int].label@));
                    lemma_seq_less_irreflexive(key@);
                }
                if c == k as int {
                    if usable {
                        assert(out@[out@.len() - 1].track_key@ == key@);
                        assert(usable_truth(ss, key@, time_ns, max_gap_ns, best as int));
                    } else {
                        assert(out@ == before_out);
                    }
                } else {
                    crate::order::lemma_comes_before_irreflexive(keys@, order@[c] as int);
                    assert(comes_before(keys@, order@[c] as int, order@[k as int] as int));
                    assert(order@[c] != order@[k as int]);
                    assert(keys@[order@[c] as int].label@ != key@);
                    if usable {
                        assert forall|a: int| 0 <= a < before_out.len() implies out@[a] == before_out[a] by {}
                        assert(out@[out@.len() - 1].track_key@ != keys@[order@[c] as int].label@);
                        if exists|a: int| 0 <= a < out@.len() && #[trigger] out@[a].track_key@ == keys@[order@[c] as int].label@ {
                            let a = choose|a: int| 0 <= a < out@.len() && #[trigger] out@[a].track_key@ == keys@[order@[c] as int].label@;
                            assert(a < before_out.len());
                            assert(before_out[a].track_key@ == keys@[order@[c] as int].label@);
                        }
                        if exists|a: int| 0 <= a < before_out.len() && #[trigger] before_out[a].track_key@ == keys@[order@[c] as int].label@ {
                            let a = choose|a: int| 0 <= a < before_out.len() && #[trigger] before_out[a].track_key@ == keys@[order@[c] as int].label@;
                            assert(out@[a] == before_out[a]);
                        }
                    } else {
                        assert(out@ == before_out);
                    }
                }
            }
        }
        k = k + 1;
    }
    proof {
        assert forall|x: int| 0 <= x < ss.len() implies
            ((exists|a: int| 0 <= a < out@.len() && #[trigger] out@[a].track_key@ == (#[trigger] ss[x]).track_key@)
                <==> (exists|i: int| usable_truth(ss, ss[x].track_key@, time_ns, max_gap_ns, i))) by {
            let a0 = choose|a: int| 0 <= a < keys@.len() && keys@[a].label@ == ss[x].track_key@;
            assert(lists(order@, a0));
            let c0 = choose|c: int| 0 <= c < order@.len() && order@[c] == a0;
            assert(keys@[order@[c0] as int].label@ == ss[x].track_key@);
        }
    }
    out
}

} // verus!
