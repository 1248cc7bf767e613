//! Gate decisions and the outcome of testing one observation against one predicted track.

use vstd::prelude::*;

verus! {

#[derive(Debug, Clone, Copy, PartialEq, Eq, Structural)]
pub enum GateDecision {
    Inside,
    Outside,
    Invalid,
}

/// The result of hypothesizing that one observation belongs to one track.
#[derive(Debug, Clone)]
pub enum HypothesisOutcome<S> {
    Inside { posterior: S },
    Outside,
    Invalid,
}

impl<S> HypothesisOutcome<S> {
    pub fn gate_decision(&self) -> (g: GateDecision)
        ensures
            g == match self {
                HypothesisOutcome::Inside { .. } => GateDecision::Inside,
                HypothesisOutcome::Outside => GateDecision::Outside,
                HypothesisOutcome::Invalid => GateDecision::Invalid,
            },
    {
        match self {
            HypothesisOutcome::Inside { .. } => GateDecision::Inside,
            HypothesisOutcome::Outside => GateDecision::Outside,
            HypothesisOutcome::Invalid => GateDecision::Invalid,
        }
    }

    /// The posterior state, present exactly when the observation passed gating.
    pub fn posterior(&self) -> (p: Option<&S>)
        ensures
            match self {
                HypothesisOutcome::Inside { posterior } => p == Some(posterior),
                _ => p is None,
            },
    {
        match self {
            HypothesisOutcome::Inside { posterior } => Some(posterior),
            HypothesisOutcome::Outside | HypothesisOutcome::Invalid => None,
        }
    }
}

/// The hard-assignment reducer: it accepts exactly one posterior of weight one.
#[derive(Debug, Clone, Copy, Default)]
pub struct SinglePosteriorReducer;

/// The hard-assignment reducer received anything but one weight-one posterior.
#[derive(Debug, Clone, PartialEq, Eq)]
pub struct SinglePosteriorError;

impl SinglePosteriorError {
    pub fn message(&self) -> (m: &'static str)
        ensures
            m@ == "hard assignment requires exactly one weight-one posterior"@,
    {
        "hard assignment requires exactly one weight-one posterior"
    }
}

} // verus!
