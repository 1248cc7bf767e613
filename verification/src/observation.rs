//! Timed observations and the batches a tracker processes.

use vstd::prelude::*;

use crate::ids::{BatchId, ObservationId};

verus! {

/// One observation with the time it was measured and application-defined payload and context.
#[derive(Debug, Clone)]
pub struct TimedObservation<D, C> {
    pub id: ObservationId,
    pub measurement_time_ns: i64,
    pub payload: D,
    pub context: C,
}

/// One scan of observations.
#[derive(Debug, Clone)]
pub struct ObservationBatch<D, C> {
    pub id: BatchId,
    /// Event time used for an empty batch and for the output snapshot.
    pub measurement_time_ns: i64,
    pub arrival_time_ns: i64,
    pub observations: Vec<TimedObservation<D, C>>,
}

impl<D, C> ObservationBatch<D, C> {
    /// The time of the output snapshot: the latest observation time, or the batch time when
    /// the batch is empty.
    pub fn output_time_ns(&self) -> (t: i64)
        ensures
            self.observations.len() == 0 ==> t == self.measurement_time_ns,
            self.observations.len() > 0 ==> {
                &&& forall|i: int|
                    0 <= i < self.observations.len() ==> #[trigger] self.observations[i].measurement_time_ns <= t
                &&& exists|i: int|
                    0 <= i < self.observations.len() && #[trigger] self.observations[i].measurement_time_ns == t
            },
    {
        if self.observations.len() == 0 {
            return self.measurement_time_ns;
        }
        let mut best = self.observations[0].measurement_time_ns;
        let mut best_index: usize = 0;
        let mut i: usize = 1;
        while i < self.observations.len()
            invariant
                1 <= i <= self.observations.len(),
                best_index < i,
                self.observations[best_index as int].measurement_time_ns == best,
                forall|j: int| 0 <= j < i ==> #[trigger] self.observations[j].measurement_time_ns <= best,
            decreases self.observations.len() - i,
        {
            if self.observations[i].measurement_time_ns > best {
                best = self.observations[i].measurement_time_ns;
                best_index = i;
            }
            i = i + 1;
        }
        assert(self.observations[best_index as int].measurement_time_ns == best);
        best
    }
}

} // verus!
