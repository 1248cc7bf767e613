//! When the simulated sensors sample, and the order in which their measurements are
//! delivered.

use vstd::prelude::*;

use crate::bundle::MeasurementKind;
use crate::ids::{padded_decimal, push_padded_decimal};
use crate::order::{comes_before, is_stable_order, stable_order, SortKey};

verus! {

/// The delivery priority of a sensor among measurements arriving together: IMU first, then
/// GPS, camera and lidar.
pub open spec fn priority_for(kind: MeasurementKind) -> int {
    match kind {
        MeasurementKind::Imu => 10,
        MeasurementKind::Gps => 15,
        MeasurementKind::Camera => 20,
        MeasurementKind::Lidar => 30,
    }
}

/// The delivery priority of a sensor's measurements.
pub fn delivery_priority(kind: MeasurementKind) -> (p: u8)
    ensures
        p as int == priority_for(kind),
{
    match kind {
        MeasurementKind::Imu => 10,
        MeasurementKind::Gps => 15,
        MeasurementKind::Camera => 20,
        MeasurementKind::Lidar => 30,
    }
}

/// The stable identifier of a sensor's `sequence`-th event: `<prefix>:` and the sequence
/// number with ten digits.
pub fn event_id(prefix: &str, sequence: u64) -> (id: String)
    ensures
        id@ == prefix@ + ":"@ + padded_decimal(sequence as nat, 10),
{
    let mut id = String::from_str(prefix);
    id.append(":");
    proof { reveal_strlit(":"); }
    push_padded_decimal(&mut id, sequence, 10);
    id
}

/// The sample times of a sensor sampling every `step_ns` up to `end_ns`: `step_ns`,
/// `2 * step_ns`, ... while not past `end_ns`.
pub fn sample_times(step_ns: i64, end_ns: i64) -> (times: Vec<i64>)
    requires
        step_ns > 0,
        end_ns <= i64::MAX - step_ns,
    ensures
        forall|k: int| 0 <= k < times@.len() ==> #[trigger] times@[k] == (k + 1) * step_ns && times@[k] <= end_ns,
        (times@.len() + 1) * step_ns > end_ns,
{
    let mut times: Vec<i64> = Vec::new();
    let mut time_ns: i64 = step_ns;
    assert((times@.len() + 1) * step_ns == step_ns) by (nonlinear_arith)
        requires times@.len() == 0;
    while time_ns <= end_ns
        invariant
            step_ns > 0,
            end_ns <= i64::MAX - step_ns,
            time_ns == (times@.len() + 1) * step_ns,
            time_ns > 0,
            forall|k: int| 0 <= k < times@.len() ==> #[trigger] times@[k] == (k + 1) * step_ns && times@[k] <= end_ns,
        decreases end_ns - time_ns + step_ns,
    {
        times.push(time_ns);
        proof {
            assert((times@.len() + 1) * step_ns == (times@.len() as int) * step_ns + step_ns) by (nonlinear_arith);
        }
        time_ns = time_ns + step_ns;
    }
    times
}

/// The ordering key of a pending measurement: when it arrives, its sensor's priority, and
/// its stable event identifier.
#[derive(Debug, Clone)]
pub struct PendingKey {
    pub arrival_ns: i64,
    pub priority: u8,
    pub stable_event_id: String,
}

/// Pending measurement `i` is delivered before `j`: earlier arrival, then lower priority,
/// then smaller identifier, then generation order.
pub open spec fn delivered_before(ps: Seq<PendingKey>, i: int, j: int) -> bool {
    let (a, b) = (ps[i], ps[j]);
    if a.arrival_ns != b.arrival_ns {
        a.arrival_ns < b.arrival_ns
    } else if a.priority != b.priority {
        a.priority < b.priority
    } else if a.stable_event_id@ != b.stable_event_id@ {
        crate::text::seq_less(a.stable_event_id@, b.stable_event_id@)
    } else {
        i < j
    }
}

/// The order in which pending measurements are delivered, as positions in `pending`: each
/// position once, each before the next.
pub fn delivery_order(pending: &Vec<PendingKey>) -> (order: Vec<usize>)
    ensures
        order@.len() == pending@.len(),
        forall|x: int| 0 <= x < pending@.len() ==> #[trigger] crate::order::lists(order@, x),
        forall|k: int| 0 <= k < order@.len() ==> #[trigger] order@[k] < pending@.len(),
        forall|k: int, l: int| 0 <= k < l < order@.len()
            ==> delivered_before(pending@, #[trigger] order@[k] as int, #[trigger] order@[l] as int),
{
    let mut keys: Vec<SortKey> = Vec::new();
    let mut i: usize = 0;
    while i < pending.len()
        invariant
            0 <= i <= pending@.len(),
            keys@.len() == i,
            forall|x: int| 0 <= x < i ==> {
                &&& (#[trigger] keys@[x]).first == pending@[x].arrival_ns
                &&& keys@[x].second == pending@[x].priority
                &&& keys@[x].third == 0
                &&& keys@[x].label@ == pending@[x].stable_event_id@
            },
        decreases pending@.len() - i,
    {
        let p = &pending[i];
        keys.push(SortKey {
            first: p.arrival_ns,
            second: p.priority as i64,
            third: 0,
            label: p.stable_event_id.clone(),
        });
        i = i + 1;
    }
    let order = stable_order(&keys);
    proof {
        assert forall|k: int, l: int| 0 <= k < l < order@.len() implies
            delivered_before(pending@, #[trigger] order@[k] as int, #[trigger] order@[l] as int) by {
            assert(comes_before(keys@, order@[k] as int, order@[l] as int));
            crate::text::lemma_seq_less_irreflexive(keys@[order@[k] as int].label@);
        }
    }
    order
}

/// Different events of one sensor have different identifiers.
pub proof fn lemma_event_ids_distinct(prefix: Seq<char>, i: nat, j: nat)
    requires
        i != j,
    ensures
        prefix + ":"@ + padded_decimal(i, 10) != prefix + ":"@ + padded_decimal(j, 10),
{
    let head = prefix + ":"@;
    let (a, b) = (head + padded_decimal(i, 10), head + padded_decimal(j, 10));
    if a == b {
        assert(padded_decimal(i, 10) =~= a.subrange(head.len() as int, a.len() as int));
        assert(padded_decimal(j, 10) =~= b.subrange(head.len() as int, b.len() as int));
        crate::ids::lemma_padded_decimal_injective(i, j, 10);
    }
}

} // verus!
