use fusion_in_motion::arith::{abs_diff_i64, reinterpret_i64_as_u64, saturating_sub_i64};
use fusion_in_motion::association::{
    hard_assignment_for, is_assigned, validate_cost_matrix_shape, validate_hard_plan, Assignment,
    AssociationError, HypothesisKey, MinimumCostAssignmentError,
};
use fusion_in_motion::hypothesis::{GateDecision, HypothesisOutcome, SinglePosteriorError};
use fusion_in_motion::ids::{ObservationId, TrackId};
use fusion_in_motion::order::{stable_order, SortKey};
use fusion_in_motion::text::{order_text, TextOrder};
use fusion_in_motion::tracker::TrackIdentity;

fn assignment(track: &str, observation: &str) -> Assignment {
    Assignment { track_id: TrackId::new(track), observation_id: ObservationId::new(observation) }
}

fn key(track: &str, observation: &str, gate: GateDecision) -> HypothesisKey {
    HypothesisKey { track_id: TrackId::new(track), observation_id: ObservationId::new(observation), gate }
}

fn tracks(names: &[&str]) -> Vec<TrackId> {
    names.iter().map(|name| TrackId::new(name)).collect()
}

fn observations(names: &[&str]) -> Vec<ObservationId> {
    names.iter().map(|name| ObservationId::new(name)).collect()
}

fn full_hypotheses() -> Vec<HypothesisKey> {
    vec![
        key("a", "x", GateDecision::Inside),
        key("a", "y", GateDecision::Inside),
        key("b", "x", GateDecision::Inside),
        key("b", "y", GateDecision::Outside),
    ]
}

fn plan_error(plan: &[Assignment], live: &[&str], seen: &[&str], hypotheses: &[HypothesisKey]) -> String {
    validate_hard_plan(&plan.to_vec(), &tracks(live), &observations(seen), &hypotheses.to_vec())
        .unwrap_err()
        .message()
        .to_owned()
}

#[test]
fn valid_hard_plans_are_accepted() {
    let plan = vec![assignment("a", "y"), assignment("b", "x")];
    assert!(validate_hard_plan(&plan, &tracks(&["a", "b"]), &observations(&["x", "y"]), &full_hypotheses()).is_ok());
    // A track may go unassigned, and an empty plan misses every track.
    assert!(validate_hard_plan(&vec![assignment("a", "x")], &tracks(&["a", "b"]), &observations(&["x", "y"]), &full_hypotheses()).is_ok());
    assert!(validate_hard_plan(&Vec::new(), &tracks(&["a", "b"]), &observations(&["x", "y"]), &full_hypotheses()).is_ok());
}

#[test]
fn each_hard_plan_violation_is_reported() {
    let hypotheses = full_hypotheses();
    assert_eq!(
        plan_error(&[assignment("a", "x"), assignment("b", "x")], &["a", "b"], &["x", "y"], &hypotheses),
        "hard association must be one-to-one"
    );
    assert_eq!(
        plan_error(&[assignment("a", "x"), assignment("a", "y")], &["a", "b"], &["x", "y"], &hypotheses),
        "hard association must be one-to-one"
    );
    assert_eq!(
        plan_error(&[assignment("a", "x")], &["a", "a"], &["x", "y"], &hypotheses),
        "association plan contains an unknown or duplicate track"
    );
    assert_eq!(
        plan_error(&[assignment("a", "z")], &["a", "b"], &["x", "y"], &hypotheses),
        "association plan contains an invalid observation probability"
    );
    assert_eq!(
        plan_error(&[assignment("a", "x")], &["a", "b"], &["x", "y"], &[key("b", "x", GateDecision::Inside)]),
        "association plan references a missing hypothesis"
    );
    assert_eq!(
        plan_error(&[assignment("b", "y")], &["a", "b"], &["x", "y"], &hypotheses),
        "association plan selected an invalid or gated-out hypothesis"
    );
}

#[test]
fn the_last_hypothesis_for_a_pair_decides_its_gate() {
    let hypotheses = vec![key("a", "x", GateDecision::Inside), key("a", "x", GateDecision::Invalid)];
    assert_eq!(
        plan_error(&[assignment("a", "x")], &["a"], &["x"], &hypotheses),
        "association plan selected an invalid or gated-out hypothesis"
    );
}

#[test]
fn hard_plans_are_read_track_by_track() {
    let plan = vec![assignment("a", "x"), assignment("b", "y"), assignment("a", "z")];
    assert_eq!(hard_assignment_for(&plan, &TrackId::new("a")), Some(2));
    assert_eq!(hard_assignment_for(&plan, &TrackId::new("b")), Some(1));
    assert_eq!(hard_assignment_for(&plan, &TrackId::new("c")), None);
    assert!(is_assigned(&plan, &ObservationId::new("y")));
    assert!(!is_assigned(&plan, &ObservationId::new("w")));
}

#[test]
fn cost_matrix_shapes_are_checked() {
    assert_eq!(validate_cost_matrix_shape(&vec![]), Ok(()));
    assert_eq!(validate_cost_matrix_shape(&vec![3, 3]), Ok(()));
    assert_eq!(
        validate_cost_matrix_shape(&vec![0, 0]),
        Err(MinimumCostAssignmentError::TooFewColumns { rows: 2, columns: 0 })
    );
    assert_eq!(validate_cost_matrix_shape(&vec![2, 1]), Err(MinimumCostAssignmentError::RaggedRows));
}

#[test]
fn association_errors_describe_themselves() {
    assert_eq!(
        MinimumCostAssignmentError::TooFewColumns { rows: 2, columns: 0 }.message(),
        "cost matrix has 2 rows but only 0 columns"
    );
    assert_eq!(MinimumCostAssignmentError::RaggedRows.message(), "cost matrix rows have different lengths");
    assert_eq!(MinimumCostAssignmentError::NonFiniteCost.message(), "cost matrix contains a non-finite value");
    assert_eq!(
        AssociationError::InvalidMissedAssignmentCost.message(),
        "missed-assignment cost must be finite and positive"
    );
    assert_eq!(AssociationError::IncompleteHypothesisMatrix.message(), "hypothesis matrix is incomplete");
    assert_eq!(
        AssociationError::InvalidCostMatrix(MinimumCostAssignmentError::RaggedRows).message(),
        "invalid cost matrix: cost matrix rows have different lengths"
    );
    assert_eq!(
        SinglePosteriorError.message(),
        "hard assignment requires exactly one weight-one posterior"
    );
}

#[test]
fn hypothesis_outcomes_expose_gate_and_posterior() {
    let inside = HypothesisOutcome::Inside { posterior: 7 };
    assert_eq!(inside.gate_decision(), GateDecision::Inside);
    assert_eq!(inside.posterior(), Some(&7));
    let outside: HypothesisOutcome<i32> = HypothesisOutcome::Outside;
    assert_eq!(outside.gate_decision(), GateDecision::Outside);
    assert_eq!(outside.posterior(), None);
    let invalid: HypothesisOutcome<i32> = HypothesisOutcome::Invalid;
    assert_eq!(invalid.gate_decision(), GateDecision::Invalid);
    assert_eq!(invalid.posterior(), None);

    let labeled = TrackIdentity::Labeled(TrackId::new("track-004"));
    assert_eq!(labeled.track_id().map(|id| id.as_str()), Some("track-004"));
    assert!(TrackIdentity::Unlabeled.track_id().is_none());
}

#[test]
fn text_is_ordered_by_code_point() {
    assert_eq!(order_text("abc", "abd"), TextOrder::Less);
    assert_eq!(order_text("ab", "abc"), TextOrder::Less);
    assert_eq!(order_text("b", "abc"), TextOrder::Greater);
    assert_eq!(order_text("Z", "a"), TextOrder::Less);
    assert_eq!(order_text("", ""), TextOrder::Equal);
    assert_eq!(order_text("same", "same"), TextOrder::Equal);
}

#[test]
fn stable_order_sorts_by_key_and_keeps_ties_in_place() {
    let keys = vec![
        SortKey { first: 5, second: 0, third: 0, label: "b".to_owned() },
        SortKey { first: 1, second: 2, third: 0, label: "a".to_owned() },
        SortKey { first: 5, second: 0, third: 0, label: "a".to_owned() },
        SortKey { first: 1, second: 2, third: 0, label: "a".to_owned() },
        SortKey { first: 1, second: 1, third: 9, label: "z".to_owned() },
    ];
    assert_eq!(stable_order(&keys), vec![4, 1, 3, 2, 0]);
    assert!(stable_order(&Vec::new()).is_empty());
}

#[test]
fn integer_helpers_saturate_and_reinterpret() {
    assert_eq!(saturating_sub_i64(5, 7), -2);
    assert_eq!(saturating_sub_i64(i64::MIN, 1), i64::MIN);
    assert_eq!(saturating_sub_i64(i64::MAX, -1), i64::MAX);
    assert_eq!(abs_diff_i64(-3, 4), 7);
    assert_eq!(abs_diff_i64(i64::MAX, i64::MIN), u64::MAX);
    assert_eq!(reinterpret_i64_as_u64(-1), u64::MAX);
    assert_eq!(reinterpret_i64_as_u64(42), 42);
}
