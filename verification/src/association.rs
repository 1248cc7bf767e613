//! Association plans: hard assignments, their validation, and cost-matrix shape checks.

use vstd::prelude::*;

use crate::hypothesis::GateDecision;
use crate::ids::{decimal_digits, ObservationId, TrackId};
use crate::manager::TrackManagerError;

verus! {

/// One selected track/observation pair of a hard association.
#[derive(Debug, Clone, PartialEq, Eq)]
pub struct Assignment {
    pub track_id: TrackId,
    pub observation_id: ObservationId,
}

/// Why a cost matrix cannot be assigned.
#[derive(Debug, Clone, PartialEq, Eq, Structural)]
pub enum MinimumCostAssignmentError {
    TooFewColumns { rows: usize, columns: usize },
    RaggedRows,
    NonFiniteCost,
}

/// Why the nearest-neighbor association failed.
#[derive(Debug, Clone, PartialEq, Eq, Structural)]
pub enum AssociationError {
    InvalidMissedAssignmentCost,
    IncompleteHypothesisMatrix,
    InvalidCostMatrix(MinimumCostAssignmentError),
}

impl MinimumCostAssignmentError {
    /// The human-readable description.
    pub fn message(&self) -> (m: String)
        ensures
            m@ == match self {
                MinimumCostAssignmentError::TooFewColumns { rows, columns } =>
                    "cost matrix has "@ + decimal_digits(*rows as nat) + " rows but only "@
                        + decimal_digits(*columns as nat) + " columns"@,
                MinimumCostAssignmentError::RaggedRows => "cost matrix rows have different lengths"@,
                MinimumCostAssignmentError::NonFiniteCost => "cost matrix contains a non-finite value"@,
            },
    {
        match self {
            MinimumCostAssignmentError::TooFewColumns { rows, columns } => {
                let mut m = String::from_str("cost matrix has ");
                crate::ids::push_padded_decimal(&mut m, *rows as u64, 0);
                m.append(" rows but only ");
                crate::ids::push_padded_decimal(&mut m, *columns as u64, 0);
                m.append(" columns");
                m
            },
            MinimumCostAssignmentError::RaggedRows => String::from_str("cost matrix rows have different lengths"),
            MinimumCostAssignmentError::NonFiniteCost => String::from_str("cost matrix contains a non-finite value"),
        }
    }
}

impl AssociationError {
    /// The human-readable description.
    pub fn message(&self) -> (m: String)
        ensures
            m@ == match self {
                AssociationError::InvalidMissedAssignmentCost => "missed-assignment cost must be finite and positive"@,
                AssociationError::IncompleteHypothesisMatrix => "hypothesis matrix is incomplete"@,
                AssociationError::InvalidCostMatrix(error) => "invalid cost matrix: "@ + error.message_view(),
            },
    {
        match self {
            AssociationError::InvalidMissedAssignmentCost => String::from_str("missed-assignment cost must be finite and positive"),
            AssociationError::IncompleteHypothesisMatrix => String::from_str("hypothesis matrix is incomplete"),
            AssociationError::InvalidCostMatrix(error) => {
                let mut m = String::from_str("invalid cost matrix: ");
                let inner = error.message();
                m.append(inner.as_str());
                m
            },
        }
    }
}

impl MinimumCostAssignmentError {
    pub open spec fn message_view(&self) -> Seq<char> {
        match self {
            MinimumCostAssignmentError::TooFewColumns { rows, columns } =>
                "cost matrix has "@ + decimal_digits(*rows as nat) + " rows but only "@
                    + decimal_digits(*columns as nat) + " columns"@,
            MinimumCostAssignmentError::RaggedRows => "cost matrix rows have different lengths"@,
            MinimumCostAssignmentError::NonFiniteCost => "cost matrix contains a non-finite value"@,
        }
    }
}

/// Checks the shape of a cost matrix, given the length of each row: there must be at least as
/// many columns (the first row's length) as rows, and every row must have the same length.
/// An empty matrix is accepted.
pub fn validate_cost_matrix_shape(row_lengths: &Vec<usize>) -> (r: Result<(), MinimumCostAssignmentError>)
    ensures
        row_lengths.len() == 0 ==> r is Ok,
        row_lengths.len() > 0 ==> r == if row_lengths[0] < row_lengths.len() {
            Err(MinimumCostAssignmentError::TooFewColumns { rows: row_lengths.len(), columns: row_lengths[0] })
        } else if exists|i: int| 0 <= i < row_lengths@.len() && #[trigger] row_lengths@[i] != row_lengths@[0] {
            Err(MinimumCostAssignmentError::RaggedRows)
        } else {
            Ok(())
        },
{
    let rows = row_lengths.len();
    if rows == 0 {
        return Ok(());
    }
    let columns = row_lengths[0];
    if columns < rows {
        return Err(MinimumCostAssignmentError::TooFewColumns { rows, columns });
    }
    let mut i: usize = 0;
    while i < rows
        invariant
            rows == row_lengths.len(),
            columns == row_lengths[0],
            rows <= columns,
            0 <= i <= rows,
            forall|k: int| 0 <= k < i ==> #[trigger] row_lengths[k] == columns,
        decreases rows - i,
    {
        if row_lengths[i] != columns {
            assert(row_lengths@[i as int] != row_lengths@[0]);
            assert(!(row_lengths@[0] < row_lengths@.len()));
            assert(exists|i: int| 0 <= i < row_lengths@.len() && #[trigger] row_lengths@[i] != row_lengths@[0]);
            return Err(MinimumCostAssignmentError::RaggedRows);
        }
        i = i + 1;
    }
    Ok(())
}

/// The gating decision of one hypothesis, keyed by its track and observation.
#[derive(Debug, Clone)]
pub struct HypothesisKey {
    pub track_id: TrackId,
    pub observation_id: ObservationId,
    pub gate: GateDecision,
}

/// The last assignment that selects an observation for track `t` (later entries replace
/// earlier ones when assignments are collected by track).
pub open spec fn assignment_for(assignments: Seq<Assignment>, t: Seq<char>) -> Option<int>
    decreases assignments.len(),
{
    if assignments.len() == 0 {
        None
    } else if assignments.last().track_id@ == t {
        Some(assignments.len() - 1)
    } else {
        assignment_for(assignments.drop_last(), t)
    }
}

/// The last hypothesis for the pair (`t`, `o`).
pub open spec fn hypothesis_for(hypotheses: Seq<HypothesisKey>, t: Seq<char>, o: Seq<char>) -> Option<int>
    decreases hypotheses.len(),
{
    if hypotheses.len() == 0 {
        None
    } else if hypotheses.last().track_id@ == t && hypotheses.last().observation_id@ == o {
        Some(hypotheses.len() - 1)
    } else {
        hypothesis_for(hypotheses.drop_last(), t, o)
    }
}

pub proof fn lemma_assignment_for_in_range(assignments: Seq<Assignment>, t: Seq<char>)
    ensures
        assignment_for(assignments, t) matches Some(i) ==> 0 <= i < assignments.len() && assignments[i].track_id@ == t,
    decreases assignments.len(),
{
    if assignments.len() > 0 && assignments.last().track_id@ != t {
        lemma_assignment_for_in_range(assignments.drop_last(), t);
    }
}

pub proof fn lemma_hypothesis_for_in_range(hypotheses: Seq<HypothesisKey>, t: Seq<char>, o: Seq<char>)
    ensures
        hypothesis_for(hypotheses, t, o) matches Some(i) ==> 0 <= i < hypotheses.len()
            && hypotheses[i].track_id@ == t && hypotheses[i].observation_id@ == o,
    decreases hypotheses.len(),
{
    if hypotheses.len() > 0 && !(hypotheses.last().track_id@ == t && hypotheses.last().observation_id@ == o) {
        lemma_hypothesis_for_in_range(hypotheses.drop_last(), t, o);
    }
}

/// Whether a hard plan selects each track and each observation at most once.
pub open spec fn one_to_one(assignments: Seq<Assignment>) -> bool {
    &&& forall|i: int, j: int|
        0 <= i < j < assignments.len() ==> #[trigger] assignments[i].track_id@ != #[trigger] assignments[j].track_id@
    &&& forall|i: int, j: int|
        0 <= i < j < assignments.len() ==> #[trigger] assignments[i].observation_id@ != #[trigger] assignments[j].observation_id@
}

/// A reason a hard plan is rejected for one live track.
#[derive(Debug, Clone, Copy, PartialEq, Eq, Structural)]
pub enum PlanViolation {
    DuplicateTrack,
    UnknownObservation,
    MissingHypothesis,
    UnselectableHypothesis,
}

/// The first problem the plan has with the `k`-th live track, if any.
pub open spec fn violation_at(
    assignments: Seq<Assignment>,
    track_ids: Seq<TrackId>,
    observation_ids: Seq<ObservationId>,
    hypotheses: Seq<HypothesisKey>,
    k: int,
) -> Option<PlanViolation> {
    let t = track_ids[k]@;
    if exists|j: int| 0 <= j < k && #[trigger] track_ids[j]@ == t {
        Some(PlanViolation::DuplicateTrack)
    } else {
        match assignment_for(assignments, t) {
            None => None,
            Some(a) => {
                let o = assignments[a].observation_id@;
                if !(exists|j: int| 0 <= j < observation_ids.len() && #[trigger] observation_ids[j]@ == o) {
                    Some(PlanViolation::UnknownObservation)
                } else {
                    match hypothesis_for(hypotheses, t, o) {
                        None => Some(PlanViolation::MissingHypothesis),
                        Some(h) => if hypotheses[h].gate != GateDecision::Inside {
                            Some(PlanViolation::UnselectableHypothesis)
                        } else {
                            None
                        },
                    }
                }
            },
        }
    }
}

pub open spec fn violation_message(v: PlanViolation) -> Seq<char> {
    match v {
        PlanViolation::DuplicateTrack => "association plan contains an unknown or duplicate track"@,
        PlanViolation::UnknownObservation => "association plan contains an invalid observation probability"@,
        PlanViolation::MissingHypothesis => "association plan references a missing hypothesis"@,
        PlanViolation::UnselectableHypothesis => "association plan selected an invalid or gated-out hypothesis"@,
    }
}

fn violation_error(v: PlanViolation) -> (e: TrackManagerError)
    ensures
        e@ == violation_message(v),
{
    match v {
        PlanViolation::DuplicateTrack => TrackManagerError::new("association plan contains an unknown or duplicate track"),
        PlanViolation::UnknownObservation => TrackManagerError::new("association plan contains an invalid observation probability"),
        PlanViolation::MissingHypothesis => TrackManagerError::new("association plan references a missing hypothesis"),
        PlanViolation::UnselectableHypothesis => TrackManagerError::new("association plan selected an invalid or gated-out hypothesis"),
    }
}

/// The index of the assignment that selects an observation for `track_id`, as a hard plan is
/// read track by track.
pub fn hard_assignment_for(assignments: &Vec<Assignment>, track_id: &TrackId) -> (r: Option<usize>)
    ensures
        match r {
            Some(i) => assignment_for(assignments@, track_id@) == Some(i as int),
            None => assignment_for(assignments@, track_id@) is None,
        },
{
    let mut i = assignments.len();
    assert(assignments@.take(i as int) =~= assignments@);
    while i > 0
        invariant
            0 <= i <= assignments.len(),
            assignment_for(assignments@, track_id@) == assignment_for(assignments@.take(i as int), track_id@),
        decreases i,
    {
        proof {
            assert(assignments@.take(i as int).drop_last() =~= assignments@.take(i - 1));
            assert(assignments@.take(i as int).last() == assignments@[i - 1]);
        }
        if assignments[i - 1].track_id.same(track_id) {
            return Some(i - 1);
        }
        i = i - 1;
    }
    None
}

fn hypothesis_index(hypotheses: &Vec<HypothesisKey>, track_id: &TrackId, observation_id: &ObservationId) -> (r: Option<usize>)
    ensures
        match r {
            Some(i) => hypothesis_for(hypotheses@, track_id@, observation_id@) == Some(i as int),
            None => hypothesis_for(hypotheses@, track_id@, observation_id@) is None,
        },
{
    let mut i = hypotheses.len();
    assert(hypotheses@.take(i as int) =~= hypotheses@);
    while i > 0
        invariant
            0 <= i <= hypotheses.len(),
            hypothesis_for(hypotheses@, track_id@, observation_id@)
                == hypothesis_for(hypotheses@.take(i as int), track_id@, observation_id@),
        decreases i,
    {
        proof {
            assert(hypotheses@.take(i as int).drop_last() =~= hypotheses@.take(i - 1));
            assert(hypotheses@.take(i as int).last() == hypotheses@[i - 1]);
        }
        if hypotheses[i - 1].track_id.same(track_id) && hypotheses[i - 1].observation_id.same(observation_id) {
            return Some(i - 1);
        }
        i = i - 1;
    }
    None
}

/// Whether a hard plan selects the observation.
pub fn is_assigned(assignments: &Vec<Assignment>, observation_id: &ObservationId) -> (b: bool)
    ensures
        b == exists|i: int| 0 <= i < assignments.len() && #[trigger] assignments[i].observation_id@ == observation_id@,
{
    let mut i: usize = 0;
    while i < assignments.len()
        invariant
            0 <= i <= assignments.len(),
            forall|k: int| 0 <= k < i ==> #[trigger] assignments[k].observation_id@ != observation_id@,
        decreases assignments.len() - i,
    {
        if assignments[i].observation_id.same(observation_id) {
            return true;
        }
        i = i + 1;
    }
    false
}

fn is_one_to_one(assignments: &Vec<Assignment>) -> (b: bool)
    ensures
        b == one_to_one(assignments@),
{
    let n = assignments.len();
    let mut j: usize = 0;
    while j < n
        invariant
            n == assignments.len(),
            0 <= j <= n,
            forall|a: int, b: int| 0 <= a < b < j ==> #[trigger] assignments@[a].track_id@ != #[trigger] assignments@[b].track_id@,
            forall|a: int, b: int| 0 <= a < b < j ==> #[trigger] assignments@[a].observation_id@ != #[trigger] assignments@[b].observation_id@,
        decreases n - j,
    {
        let mut i: usize = 0;
        while i < j
            invariant
                n == assignments.len(),
                0 <= i <= j < n,
                forall|a: int, b: int| 0 <= a < b < j ==> #[trigger] assignments@[a].track_id@ != #[trigger] assignments@[b].track_id@,
                forall|a: int, b: int| 0 <= a < b < j ==> #[trigger] assignments@[a].observation_id@ != #[trigger] assignments@[b].observation_id@,
                forall|a: int| 0 <= a < i ==> #[trigger] assignments@[a].track_id@ != assignments@[j as int].track_id@,
                forall|a: int| 0 <= a < i ==> #[trigger] assignments@[a].observation_id@ != assignments@[j as int].observation_id@,
            decreases j - i,
        {
            let same_track = assignments[i].track_id.same(&assignments[j].track_id);
            let same_observation = assignments[i].observation_id.same(&assignments[j].observation_id);
            if same_track || same_observation {
                return false;
            }
            i = i + 1;
        }
        j = j + 1;
    }
    true
}

fn contains_observation(ids: &Vec<ObservationId>, id: &ObservationId) -> (b: bool)
    ensures
        b == exists|j: int| 0 <= j < ids.len() && #[trigger] ids[j]@ == id@,
{
    let mut i: usize = 0;
    while i < ids.len()
        invariant
            0 <= i <= ids.len(),
            forall|k: int| 0 <= k < i ==> #[trigger] ids[k]@ != id@,
        decreases ids.len() - i,
    {
        if ids[i].same(id) {
            return true;
        }
        i = i + 1;
    }
    false
}

fn appears_before(ids: &Vec<TrackId>, k: usize) -> (b: bool)
    requires
        k < ids.len(),
    ensures
        b == exists|j: int| 0 <= j < k && #[trigger] ids[j]@ == ids[k as int]@,
{
    let mut j: usize = 0;
    while j < k
        invariant
            k < ids.len(),
            0 <= j <= k,
            forall|a: int| 0 <= a < j ==> #[trigger] ids[a]@ != ids[k as int]@,
        decreases k - j,
    {
        if ids[j].same(&ids[k]) {
            return true;
        }
        j = j + 1;
    }
    false
}

fn check_track(
    assignments: &Vec<Assignment>,
    track_ids: &Vec<TrackId>,
    observation_ids: &Vec<ObservationId>,
    hypotheses: &Vec<HypothesisKey>,
    k: usize,
) -> (r: Option<PlanViolation>)
    requires
        k < track_ids.len(),
    ensures
        r == violation_at(assignments@, track_ids@, observation_ids@, hypotheses@, k as int),
{
    if appears_before(track_ids, k) {
        return Some(PlanViolation::DuplicateTrack);
    }
    proof {
        lemma_assignment_for_in_range(assignments@, track_ids[k as int]@);
        lemma_hypothesis_for_in_range(hypotheses@, track_ids[k as int]@, track_ids[k as int]@);
    }
    match hard_assignment_for(assignments, &track_ids[k]) {
        None => None,
        Some(a) => {
            proof {
                lemma_hypothesis_for_in_range(hypotheses@, track_ids[k as int]@, assignments[a as int].observation_id@);
            }
            let o = &assignments[a].observation_id;
            assert(assignment_for(assignments@, track_ids@[k as int]@) == Some(a as int));
            if !contains_observation(observation_ids, o) {
                assert(!(exists|j: int| 0 <= j < observation_ids@.len() && #[trigger] observation_ids@[j]@ == assignments@[a as int].observation_id@));
                return Some(PlanViolation::UnknownObservation);
            }
            match hypothesis_index(hypotheses, &track_ids[k], o) {
                None => Some(PlanViolation::MissingHypothesis),
                Some(h) => {
                    if hypotheses[h].gate != GateDecision::Inside {
                        Some(PlanViolation::UnselectableHypothesis)
                    } else {
                        None
                    }
                },
            }
        },
    }
}

/// Validates a hard association plan against the live tracks, the batch's observations, and the
/// hypotheses: the plan must be one-to-one, and, reading the live tracks in order, each track
/// may appear once and its selected observation must be known and have a hypothesis that is
/// inside the gating region. The first problem found is reported.
pub fn validate_hard_plan(
    assignments: &Vec<Assignment>,
    track_ids: &Vec<TrackId>,
    observation_ids: &Vec<ObservationId>,
    hypotheses: &Vec<HypothesisKey>,
) -> (r: Result<(), TrackManagerError>)
    ensures
        r is Ok <==> one_to_one(assignments@) && forall|k: int|
            0 <= k < track_ids.len() ==> #[trigger] violation_at(assignments@, track_ids@, observation_ids@, hypotheses@, k) is None,
        r matches Err(e) ==> if !one_to_one(assignments@) {
            e@ == "hard association must be one-to-one"@
        } else {
            exists|k: int| 0 <= k < track_ids.len() && {
                &&& (forall|j: int| 0 <= j < k ==> #[trigger] violation_at(assignments@, track_ids@, observation_ids@, hypotheses@, j) is None)
                &&& #[trigger] violation_at(assignments@, track_ids@, observation_ids@, hypotheses@, k) matches Some(v)
                &&& e@ == violation_message(v)
            }
        },
{
    if !is_one_to_one(assignments) {
        return Err(TrackManagerError::new("hard association must be one-to-one"));
    }
    let mut k: usize = 0;
    while k < track_ids.len()
        invariant
            0 <= k <= track_ids.len(),
            one_to_one(assignments@),
            forall|j: int| 0 <= j < k ==> #[trigger] violation_at(assignments@, track_ids@, observation_ids@, hypotheses@, j) is None,
        decreases track_ids.len() - k,
    {
        match check_track(assignments, track_ids, observation_ids, hypotheses, k) {
            Some(v) => {
                let e = violation_error(v);
                assert(violation_at(assignments@, track_ids@, observation_ids@, hypotheses@, k as int) == Some(v));
                return Err(e);
            },
            None => {},
        }
        k = k + 1;
    }
    Ok(())
}

} // verus!
