//! Perception input for the object tracker: camera frames and lidar scans flattened into
//! detection batches, checked for arrival order, and prepared for measurement-time or
//! arrival-time processing.

use vstd::prelude::*;

use crate::diagnostics::BatchDiagnostics;
use crate::ego_timing::MeasurementTime;
use crate::ids::decimal_digits;
use crate::ids::push_padded_decimal;
use crate::arith::{clamp_i64, saturating_sub_i64};
use crate::order::{comes_before, key_less, key_same, lists, stable_order, SortKey};
use crate::text::{lemma_seq_less_irreflexive, seq_less};

verus! {

/// A camera frame or lidar scan, as far as its timing is concerned.
#[derive(Debug, Clone)]
pub enum PerceptionMeasurement {
    /// A camera frame: its time stamp and how many detections it holds.
    Camera { time: Option<MeasurementTime>, detection_count: usize },
    /// A lidar scan: its time stamp and the measurement time of each detection.
    Lidar { time: Option<MeasurementTime>, detection_times_ns: Vec<i64> },
}

impl PerceptionMeasurement {
    /// The time stamp the measurement carries, if any.
    pub open spec fn stamp(&self) -> Option<MeasurementTime> {
        match self {
            PerceptionMeasurement::Camera { time, .. } => *time,
            PerceptionMeasurement::Lidar { time, .. } => *time,
        }
    }

    /// The measurement's time stamp, or an error when it has none.
    pub fn time(&self) -> (r: Result<MeasurementTime, String>)
        ensures
            self.stamp() matches Some(t) ==> r == Ok::<MeasurementTime, String>(t),
            self.stamp() is None ==> (r matches Err(e) && e@ == "perception measurement has no time"@),
    {
        let time = match self {
            PerceptionMeasurement::Camera { time, .. } => *time,
            PerceptionMeasurement::Lidar { time, .. } => *time,
        };
        match time {
            Some(t) => Ok(t),
            None => {
                proof { reveal_strlit("perception measurement has no time"); }
                Err(String::from_str("perception measurement has no time"))
            },
        }
    }
}

/// Where the vehicle pose that places detections in the world comes from.
#[derive(Debug, Clone, Copy, PartialEq, Eq)]
pub enum EgoSource {
    Estimated,
    Truth,
}

impl EgoSource {
    /// The name of the source in reports.
    pub fn label(self) -> (s: &'static str)
        ensures
            self == EgoSource::Estimated ==> s@ == "estimated"@,
            self == EgoSource::Truth ==> s@ == "truth"@,
    {
        proof {
            reveal_strlit("estimated");
            reveal_strlit("truth");
        }
        match self {
            EgoSource::Estimated => "estimated",
            EgoSource::Truth => "truth",
        }
    }
}

/// The sensor a batch came from.
#[derive(Debug, Clone, Copy, PartialEq, Eq)]
pub enum SensorKind {
    Camera,
    Lidar,
}

/// One detection, as far as its timing is concerned.
#[derive(Debug, Clone, Copy, PartialEq, Eq)]
pub enum Detection {
    /// A camera detection is measured at its frame's time.
    Camera,
    /// A lidar detection carries its own measurement time.
    Lidar { measurement_time_ns: i64 },
}

/// The detections of one camera frame or lidar scan.
#[derive(Debug, Clone)]
pub struct DetectionBatch {
    pub sensor: SensorKind,
    /// Position of the source measurement in the perception stream.
    pub record_index: usize,
    pub measurement_time_ns: i64,
    pub arrival_time_ns: i64,
    pub stable_id: String,
    pub detections: Vec<Detection>,
}

/// The measurement time of a detection in a batch measured at `batch_time`.
pub open spec fn detection_time(batch_time: i64, detection: Detection) -> i64 {
    match detection {
        Detection::Camera => batch_time,
        Detection::Lidar { measurement_time_ns } => measurement_time_ns,
    }
}

impl DetectionBatch {
    /// The measurement time of one of this batch's detections.
    pub fn detection_time_ns(&self, detection: &Detection) -> (t: i64)
        ensures
            t == detection_time(self.measurement_time_ns, *detection),
    {
        match detection {
            Detection::Camera => self.measurement_time_ns,
            Detection::Lidar { measurement_time_ns } => *measurement_time_ns,
        }
    }
}

/// The stable identifier of the batch made from record `index`: `camera:<index>` or
/// `lidar:<index>`.
pub open spec fn stable_label(sensor: SensorKind, index: nat) -> Seq<char> {
    match sensor {
        SensorKind::Camera => "camera:"@ + decimal_digits(index),
        SensorKind::Lidar => "lidar:"@ + decimal_digits(index),
    }
}

/// `batch` is the detection batch made from `measurement`, record `index` of the stream.
pub open spec fn flattened(measurement: PerceptionMeasurement, index: int, batch: DetectionBatch) -> bool {
    let t = measurement.stamp().unwrap();
    &&& batch.record_index == index
    &&& batch.measurement_time_ns == t.measurement_time_ns
    &&& batch.arrival_time_ns == t.arrival_time_ns
    &&& match measurement {
        PerceptionMeasurement::Camera { detection_count, .. } => {
            &&& batch.sensor == SensorKind::Camera
            &&& batch.stable_id@ == stable_label(SensorKind::Camera, index as nat)
            &&& batch.detections@.len() == detection_count
            &&& forall|j: int| 0 <= j < batch.detections@.len() ==> #[trigger] batch.detections@[j] == Detection::Camera
        },
        PerceptionMeasurement::Lidar { detection_times_ns, .. } => {
            &&& batch.sensor == SensorKind::Lidar
            &&& batch.stable_id@ == stable_label(SensorKind::Lidar, index as nat)
            &&& batch.detections@.len() == detection_times_ns@.len()
            &&& forall|j: int| 0 <= j < batch.detections@.len() ==>
                #[trigger] batch.detections@[j] == (Detection::Lidar { measurement_time_ns: detection_times_ns@[j] })
        },
    }
}

/// Every measurement carries a time stamp.
pub open spec fn all_stamped(ms: Seq<PerceptionMeasurement>) -> bool {
    forall|i: int| 0 <= i < ms.len() ==> (#[trigger] ms[i].stamp()) is Some
}

fn flatten_one(measurement: &PerceptionMeasurement, index: usize, t: MeasurementTime) -> (batch: DetectionBatch)
    requires
        measurement.stamp() == Some(t),
        index <= u64::MAX,
    ensures
        flattened(*measurement, index as int, batch),
{
    let mut stable_id = String::new();
    let mut detections: Vec<Detection> = Vec::new();
    let sensor = match measurement {
        PerceptionMeasurement::Camera { detection_count, .. } => {
            proof { reveal_strlit("camera:"); }
            stable_id.append("camera:");
            let mut j: usize = 0;
            while j < *detection_count
                invariant
                    0 <= j <= *detection_count,
                    detections@.len() == j,
                    forall|k: int| 0 <= k < j ==> #[trigger] detections@[k] == Detection::Camera,
                decreases *detection_count - j,
            {
                detections.push(Detection::Camera);
                j = j + 1;
            }
            SensorKind::Camera
        },
        PerceptionMeasurement::Lidar { detection_times_ns, .. } => {
            proof { reveal_strlit("lidar:"); }
            stable_id.append("lidar:");
            let mut j: usize = 0;
            while j < detection_times_ns.len()
                invariant
                    0 <= j <= detection_times_ns@.len(),
                    detections@.len() == j,
                    forall|k: int| 0 <= k < j ==>
                        #[trigger] detections@[k] == (Detection::Lidar { measurement_time_ns: detection_times_ns@[k] }),
                decreases detection_times_ns@.len() - j,
            {
                detections.push(Detection::Lidar { measurement_time_ns: detection_times_ns[j] });
                j = j + 1;
            }
            SensorKind::Lidar
        },
    };
    push_padded_decimal(&mut stable_id, index as u64, 0);
    DetectionBatch {
        sensor,
        record_index: index,
        measurement_time_ns: t.measurement_time_ns,
        arrival_time_ns: t.arrival_time_ns,
        stable_id,
        detections,
    }
}

/// Turns each camera frame and lidar scan into a detection batch identified by its sensor
/// and its position in the stream; fails when a measurement has no time stamp.
pub fn flatten(measurements: &Vec<PerceptionMeasurement>) -> (r: Result<Vec<DetectionBatch>, String>)
    requires
        measurements@.len() <= u64::MAX,
    ensures
        r is Ok <==> all_stamped(measurements@),
        r matches Ok(batches) ==> {
            &&& batches@.len() == measurements@.len()
            &&& forall|i: int| 0 <= i < batches@.len() ==> flattened(measurements@[i], i, #[trigger] batches@[i])
        },
        r matches Err(e) ==> e@ == "perception measurement has no time"@,
{
    let mut batches: Vec<DetectionBatch> = Vec::new();
    let mut i: usize = 0;
    while i < measurements.len()
        invariant
            measurements@.len() <= u64::MAX,
            0 <= i <= measurements@.len(),
            batches@.len() == i,
            all_stamped(measurements@.take(i as int)),
            forall|k: int| 0 <= k < i ==> flattened(measurements@[k], k, #[trigger] batches@[k]),
        decreases measurements@.len() - i,
    {
        let t = match measurements[i].time() {
            Ok(t) => t,
            Err(e) => {
                assert(!all_stamped(measurements@)) by {
                    assert(measurements@[i as int].stamp() is None);
                }
                return Err(e);
            },
        };
        let batch = flatten_one(&measurements[i], i, t);
        batches.push(batch);
        proof {
            assert forall|k: int| 0 <= k < i + 1 implies (#[trigger] measurements@.take(i + 1)[k].stamp()) is Some by {
                if k < i {
                    assert(measurements@.take(i as int)[k] == measurements@[k]);
                }
            }
        }
        i = i + 1;
    }
    assert(measurements@.take(measurements@.len() as int) == measurements@);
    Ok(batches)
}

/// Arrival time of a stamped measurement.
pub open spec fn arrival(m: PerceptionMeasurement) -> i64 {
    m.stamp().unwrap().arrival_time_ns
}

/// The outcome of checking the first `n` measurements in stream order: the first one without
/// a time stamp, or the first that arrived before its predecessor, stops the check.
pub open spec fn delivery_check(ms: Seq<PerceptionMeasurement>, n: int) -> Option<Seq<char>>
    decreases n,
{
    if n <= 0 {
        None
    } else {
        match delivery_check(ms, n - 1) {
            Some(e) => Some(e),
            None => if ms[n - 1].stamp() is None {
                Some("perception measurement has no time"@)
            } else if n >= 2 && arrival(ms[n - 1]) < arrival(ms[n - 2]) {
                Some("perception measurements are not in arrival order"@)
            } else {
                None
            },
        }
    }
}

proof fn lemma_delivery_check_prefix_stamped(ms: Seq<PerceptionMeasurement>, n: int)
    requires
        0 <= n <= ms.len(),
        delivery_check(ms, n) is None,
    ensures
        forall|k: int| 0 <= k < n ==> (#[trigger] ms[k].stamp()) is Some,
    decreases n,
{
    if n > 0 {
        lemma_delivery_check_prefix_stamped(ms, n - 1);
    }
}

/// Checks that every measurement has a time stamp and that they arrive in order.
pub fn validate_delivery_order(measurements: &Vec<PerceptionMeasurement>) -> (r: Result<(), String>)
    ensures
        r is Ok <==> delivery_check(measurements@, measurements@.len() as int) is None,
        r matches Err(e) ==> delivery_check(measurements@, measurements@.len() as int) == Some(e@),
{
    let ghost ms = measurements@;
    let n = measurements.len();
    let mut previous: Option<i64> = None;
    let mut i: usize = 0;
    while i < n
        invariant
            ms == measurements@,
            n == ms.len(),
            0 <= i <= n,
            delivery_check(ms, i as int) is None,
            i == 0 ==> previous is None,
            i > 0 ==> previous == Some(arrival(ms[i - 1])),
        decreases n - i,
    {
        proof { lemma_delivery_check_prefix_stamped(ms, i as int); }
        let t = match measurements[i].time() {
            Ok(t) => t,
            Err(e) => {
                proof { lemma_delivery_check_stops(ms, i as int + 1, n as int); }
                return Err(e);
            },
        };
        if let Some(p) = previous {
            if t.arrival_time_ns < p {
                proof {
                    reveal_strlit("perception measurements are not in arrival order");
                    lemma_delivery_check_stops(ms, i as int + 1, n as int);
                }
                return Err(String::from_str("perception measurements are not in arrival order"));
            }
        }
        previous = Some(t.arrival_time_ns);
        i = i + 1;
    }
    Ok(())
}

proof fn lemma_delivery_check_stops(ms: Seq<PerceptionMeasurement>, m: int, n: int)
    requires
        0 <= m <= n,
    ensures
        delivery_check(ms, m) is Some ==> delivery_check(ms, n) == delivery_check(ms, m),
    decreases n - m,
{
    if m < n {
        lemma_delivery_check_stops(ms, m, n - 1);
    }
}

/// Counters describing what the object tracker received and did.
#[derive(Debug, Clone, Copy, Default)]
pub struct TrackerDiagnostics {
    pub received_detections: usize,
    pub applied_updates: usize,
    pub waiting_for_range: usize,
    pub missing_ego_pose: usize,
    pub missing_scan_ego_pose: usize,
    pub delayed_detections: usize,
    pub replayed_detections: usize,
    pub discarded_detections: usize,
    pub associated_camera_detections: usize,
    pub associated_lidar_detections: usize,
    pub unmatched_camera_detections: usize,
    pub unmatched_lidar_detections: usize,
    pub candidate_pairs: usize,
    pub gated_out_pairs: usize,
    pub invalid_candidate_pairs: usize,
    pub selected_associations: usize,
    pub missed_updates: usize,
    pub coasted_updates: usize,
    pub created_tracks: usize,
    pub confirmed_tracks: usize,
    pub deleted_tracks: usize,
}

/// The latest batch measurement time among the first `i` batches.
pub open spec fn latest_scan_time(bs: Seq<DetectionBatch>, i: int) -> Option<i64>
    decreases i,
{
    if i <= 0 {
        None
    } else {
        let t = bs[i - 1].measurement_time_ns;
        match latest_scan_time(bs, i - 1) {
            None => Some(t),
            Some(l) => Some(if t > l { t } else { l }),
        }
    }
}

/// How far batch `i` lags the latest batch received before it (saturating).
pub open spec fn scan_age(bs: Seq<DetectionBatch>, i: int) -> int {
    match latest_scan_time(bs, i) {
        None => 0,
        Some(l) => clamp_i64(l as int - bs[i].measurement_time_ns as int),
    }
}

/// Batch `i` is older than the replay history allows.
pub open spec fn scan_discarded(bs: Seq<DetectionBatch>, history_ns: i64, i: int) -> bool {
    scan_age(bs, i) > history_ns
}

/// The number of detections in the batches `i < n` for which `p(i)` holds.
pub open spec fn detections_where(bs: Seq<DetectionBatch>, n: int, p: spec_fn(int) -> bool) -> nat
    decreases n,
{
    if n <= 0 {
        0
    } else {
        detections_where(bs, n - 1, p) + if p(n - 1) { bs[n - 1].detections@.len() } else { 0nat }
    }
}

/// The number of detections in all batches.
pub open spec fn total_detections(bs: Seq<DetectionBatch>) -> nat {
    detections_where(bs, bs.len() as int, |i: int| true)
}

proof fn lemma_detections_where_bounded(bs: Seq<DetectionBatch>, n: int, p: spec_fn(int) -> bool)
    requires
        0 <= n,
    ensures
        detections_where(bs, n, p) <= detections_where(bs, n, |i: int| true),
    decreases n,
{
    if n > 0 {
        lemma_detections_where_bounded(bs, n - 1, p);
    }
}

proof fn lemma_detections_where_monotone(bs: Seq<DetectionBatch>, m: int, n: int, p: spec_fn(int) -> bool)
    requires
        0 <= m <= n,
    ensures
        detections_where(bs, m, p) <= detections_where(bs, n, p),
    decreases n - m,
{
    if m < n {
        lemma_detections_where_monotone(bs, m, n - 1, p);
    }
}

/// The number of detections in `batches`.
pub fn count_detections(batches: &Vec<DetectionBatch>) -> (n: usize)
    requires
        total_detections(batches@) <= usize::MAX,
    ensures
        n == total_detections(batches@),
{
    let ghost bs = batches@;
    let mut n: usize = 0;
    let mut i: usize = 0;
    while i < batches.len()
        invariant
            bs == batches@,
            0 <= i <= bs.len(),
            n == detections_where(bs, i as int, |j: int| true),
            total_detections(bs) <= usize::MAX,
        decreases bs.len() - i,
    {
        proof { lemma_detections_where_monotone(bs, i + 1, bs.len() as int, |j: int| true); }
        n = n + batches[i].detections.len();
        i = i + 1;
    }
    n
}

/// The indices of the first `n` batches that are kept, in increasing order.
pub open spec fn kept_scans(bs: Seq<DetectionBatch>, history_ns: i64, n: int) -> Seq<int>
    decreases n,
{
    if n <= 0 {
        Seq::empty()
    } else if scan_discarded(bs, history_ns, n - 1) {
        kept_scans(bs, history_ns, n - 1)
    } else {
        kept_scans(bs, history_ns, n - 1).push(n - 1)
    }
}

proof fn lemma_kept_scans(bs: Seq<DetectionBatch>, history_ns: i64, n: int)
    requires
        0 <= n,
    ensures
        forall|a: int, b: int| 0 <= a < b < kept_scans(bs, history_ns, n).len()
            ==> #[trigger] kept_scans(bs, history_ns, n)[a] < #[trigger] kept_scans(bs, history_ns, n)[b],
        forall|a: int| 0 <= a < kept_scans(bs, history_ns, n).len()
            ==> 0 <= #[trigger] kept_scans(bs, history_ns, n)[a] < n,
    decreases n,
{
    if n > 0 {
        lemma_kept_scans(bs, history_ns, n - 1);
        let prev = kept_scans(bs, history_ns, n - 1);
        let cur = kept_scans(bs, history_ns, n);
        if !scan_discarded(bs, history_ns, n - 1) {
            assert(cur == prev.push(n - 1));
            assert forall|a: int| 0 <= a < prev.len() implies cur[a] == prev[a] by {}
        }
    }
}

/// The latest measurement time among the first `i` batches is absent exactly when `i` is zero,
/// and otherwise is the largest of their measurement times.
pub proof fn lemma_latest_scan_time(bs: Seq<DetectionBatch>, i: int)
    requires
        0 <= i <= bs.len(),
    ensures
        latest_scan_time(bs, i) is None <==> i == 0,
        latest_scan_time(bs, i) matches Some(l) ==> {
            &&& forall|j: int| 0 <= j < i ==> #[trigger] bs[j].measurement_time_ns <= l
            &&& exists|j: int| 0 <= j < i && #[trigger] bs[j].measurement_time_ns == l
        },
    decreases i,
{
    if i > 0 {
        lemma_latest_scan_time(bs, i - 1);
        assert(bs[i - 1].measurement_time_ns == bs[i - 1].measurement_time_ns);
    }
}

/// With a non-negative history, batch `i` is discarded exactly when some batch before it in
/// the stream was measured more than the history later (the lag taken against the latest of
/// them, saturating).
pub proof fn lemma_scan_discarded_exactly_when_stale(bs: Seq<DetectionBatch>, history_ns: i64, i: int)
    requires
        history_ns >= 0,
        0 <= i < bs.len(),
    ensures
        scan_discarded(bs, history_ns, i) <==> exists|j: int|
            0 <= j < i && clamp_i64(#[trigger] bs[j].measurement_time_ns - bs[i].measurement_time_ns) > history_ns,
{
    lemma_latest_scan_time(bs, i);
    match latest_scan_time(bs, i) {
        None => {},
        Some(l) => {
            let w = choose|j: int| 0 <= j < i && #[trigger] bs[j].measurement_time_ns == l;
            if exists|j: int| 0 <= j < i && clamp_i64(#[trigger] bs[j].measurement_time_ns - bs[i].measurement_time_ns) > history_ns {
                let j = choose|j: int| 0 <= j < i && clamp_i64(#[trigger] bs[j].measurement_time_ns - bs[i].measurement_time_ns) > history_ns;
                assert(bs[j].measurement_time_ns <= l);
            }
            assert(bs[w].measurement_time_ns == l);
        },
    }
}

/// A batch is among the kept batches exactly when it is not discarded.
proof fn lemma_kept_scans_contains(bs: Seq<DetectionBatch>, history_ns: i64, n: int, x: int)
    requires
        0 <= x < n,
    ensures
        kept_scans(bs, history_ns, n).contains(x) <==> !scan_discarded(bs, history_ns, x),
    decreases n,
{
    lemma_kept_scans(bs, history_ns, n);
    let cur = kept_scans(bs, history_ns, n);
    let prev = kept_scans(bs, history_ns, n - 1);
    if x < n - 1 {
        lemma_kept_scans_contains(bs, history_ns, n - 1, x);
        lemma_kept_scans(bs, history_ns, n - 1);
        if !scan_discarded(bs, history_ns, n - 1) {
            assert(cur == prev.push(n - 1));
            if prev.contains(x) {
                let k = choose|k: int| 0 <= k < prev.len() && prev[k] == x;
                assert(cur[k] == x);
            }
            if cur.contains(x) {
                let k = choose|k: int| 0 <= k < cur.len() && cur[k] == x;
                if k < prev.len() { assert(prev[k] == x); }
            }
        }
    } else if !scan_discarded(bs, history_ns, n - 1) {
        assert(cur[cur.len() - 1] == x);
    } else {
        lemma_kept_scans(bs, history_ns, n - 1);
        if cur.contains(x) {
            let k = choose|k: int| 0 <= k < cur.len() && cur[k] == x;
            assert(prev[k] < n - 1);
        }
    }
}

/// With a non-negative history, a measurement-time schedule processes exactly the batches
/// that no earlier batch of the stream lags by more than the history.
pub proof fn lemma_scan_order_keeps_fresh(bs: Seq<DetectionBatch>, history_ns: i64, order: Seq<usize>)
    requires
        history_ns >= 0,
        is_scan_order(bs, kept_scans(bs, history_ns, bs.len() as int), order),
    ensures
        forall|i: int| 0 <= i < bs.len() ==> (#[trigger] lists(order, i) <==> !exists|j: int|
            0 <= j < i && clamp_i64(bs[j].measurement_time_ns - bs[i].measurement_time_ns) > history_ns),
{
    let kept = kept_scans(bs, history_ns, bs.len() as int);
    assert forall|i: int| 0 <= i < bs.len() implies (#[trigger] lists(order, i) <==> !exists|j: int|
        0 <= j < i && clamp_i64(bs[j].measurement_time_ns - bs[i].measurement_time_ns) > history_ns) by {
        lemma_kept_scans_contains(bs, history_ns, bs.len() as int, i);
        lemma_scan_discarded_exactly_when_stale(bs, history_ns, i);
        if lists(order, i) {
            let k = choose|k: int| 0 <= k < order.len() && order[k] == i;
            assert(kept.contains(order[k] as int));
        }
    }
}

/// Counting detections under two predicates that agree on the first `n` batches gives the
/// same number.
proof fn lemma_detections_where_agree(bs: Seq<DetectionBatch>, n: int, p: spec_fn(int) -> bool, q: spec_fn(int) -> bool)
    requires
        forall|i: int| 0 <= i < n ==> #[trigger] p(i) == q(i),
    ensures
        detections_where(bs, n, p) == detections_where(bs, n, q),
    decreases n,
{
    if n > 0 {
        lemma_detections_where_agree(bs, n - 1, p, q);
    }
}

/// Batch `i` is processed before batch `j` in measurement-time order: by measurement time,
/// then arrival time, then stable identifier, then stream order.
pub open spec fn scan_before(bs: Seq<DetectionBatch>, i: int, j: int) -> bool {
    let (a, b) = (bs[i], bs[j]);
    if a.measurement_time_ns != b.measurement_time_ns {
        a.measurement_time_ns < b.measurement_time_ns
    } else if a.arrival_time_ns != b.arrival_time_ns {
        a.arrival_time_ns < b.arrival_time_ns
    } else if a.stable_id@ != b.stable_id@ {
        seq_less(a.stable_id@, b.stable_id@)
    } else {
        i < j
    }
}

/// `order` lists exactly the indices in `kept`, in `scan_before` order.
pub open spec fn is_scan_order(bs: Seq<DetectionBatch>, kept: Seq<int>, order: Seq<usize>) -> bool {
    &&& order.len() == kept.len()
    &&& forall|k: int| 0 <= k < order.len() ==> kept.contains(#[trigger] order[k] as int)
    &&& forall|x: int| kept.contains(x) ==> #[trigger] lists(order, x)
    &&& forall|k: int, l: int| 0 <= k < l < order.len()
        ==> scan_before(bs, #[trigger] order[k] as int, #[trigger] order[l] as int)
}

/// Which batches a measurement-time run keeps, in processing order, and how many detections
/// were delayed, replayed and discarded.
pub struct ScanSchedule {
    pub order: Vec<usize>,
    pub delayed_detections: usize,
    pub replayed_detections: usize,
    pub discarded_detections: usize,
}

/// Two batches hold the same values.
pub open spec fn same_batch(a: DetectionBatch, b: DetectionBatch) -> bool {
    &&& a.sensor == b.sensor
    &&& a.record_index == b.record_index
    &&& a.measurement_time_ns == b.measurement_time_ns
    &&& a.arrival_time_ns == b.arrival_time_ns
    &&& a.stable_id@ == b.stable_id@
    &&& a.detections@ == b.detections@
}

impl DetectionBatch {
    /// A copy of this batch.
    pub fn duplicate(&self) -> (b: DetectionBatch)
        ensures
            same_batch(*self, b),
    {
        let mut detections: Vec<Detection> = Vec::new();
        let mut j: usize = 0;
        while j < self.detections.len()
            invariant
                0 <= j <= self.detections@.len(),
                detections@ == self.detections@.take(j as int),
            decreases self.detections@.len() - j,
        {
            detections.push(self.detections[j]);
            j = j + 1;
            assert(detections@ == self.detections@.take(j as int));
        }
        assert(self.detections@.take(self.detections@.len() as int) == self.detections@);
        DetectionBatch {
            sensor: self.sensor,
            record_index: self.record_index,
            measurement_time_ns: self.measurement_time_ns,
            arrival_time_ns: self.arrival_time_ns,
            stable_id: self.stable_id.clone(),
            detections,
        }
    }
}

/// Plans a measurement-time run over the batches: in stream order, a batch that lags the
/// latest batch seen so far by more than `history_duration_ns` is discarded; the rest are
/// ordered by measurement time, arrival time and stable identifier.
pub fn schedule_scans(history_duration_ns: i64, batches: &Vec<DetectionBatch>) -> (s: ScanSchedule)
    requires
        total_detections(batches@) <= usize::MAX,
    ensures
        is_scan_order(batches@, kept_scans(batches@, history_duration_ns, batches@.len() as int), s.order@),
        s.delayed_detections == detections_where(batches@, batches@.len() as int, |i: int| scan_age(batches@, i) > 0),
        s.discarded_detections == detections_where(batches@, batches@.len() as int,
            |i: int| scan_discarded(batches@, history_duration_ns, i)),
        s.replayed_detections == detections_where(batches@, batches@.len() as int,
            |i: int| scan_age(batches@, i) > 0 && !scan_discarded(batches@, history_duration_ns, i)),
        history_duration_ns >= 0 ==> forall|i: int| 0 <= i < batches@.len() ==> (#[trigger] lists(s.order@, i)
            <==> !exists|j: int| 0 <= j < i
                && clamp_i64(batches@[j].measurement_time_ns - batches@[i].measurement_time_ns) > history_duration_ns),
        history_duration_ns >= 0 ==> s.discarded_detections == detections_where(batches@, batches@.len() as int,
            |i: int| exists|j: int| 0 <= j < i
                && clamp_i64(batches@[j].measurement_time_ns - batches@[i].measurement_time_ns) > history_duration_ns),
{
    let ghost bs = batches@;
    let ghost h = history_duration_ns;
    let ghost total = total_detections(bs);
    let n = batches.len();
    let mut kept: Vec<usize> = Vec::new();
    let mut keys: Vec<SortKey> = Vec::new();
    let mut delayed: usize = 0;
    let mut replayed: usize = 0;
    let mut discarded: usize = 0;
    let mut latest: Option<i64> = None;
    let mut i: usize = 0;
    while i < n
        invariant
            bs == batches@,
            h == history_duration_ns,
            n == bs.len(),
            total == total_detections(bs),
            total <= usize::MAX,
            0 <= i <= n,
            latest == latest_scan_time(bs, i as int),
            kept@.len() == kept_scans(bs, h, i as int).len(),
            forall|k: int| 0 <= k < kept@.len() ==> #[trigger] kept@[k] as int == kept_scans(bs, h, i as int)[k],
            keys@.len() == kept@.len(),
            forall|x: int| 0 <= x < keys@.len() ==> {
                &&& (#[trigger] keys@[x]).first == bs[kept@[x] as int].measurement_time_ns
                &&& keys@[x].second == bs[kept@[x] as int].arrival_time_ns
                &&& keys@[x].third == 0
                &&& keys@[x].label@ == bs[kept@[x] as int].stable_id@
            },
            delayed == detections_where(bs, i as int, |j: int| scan_age(bs, j) > 0),
            discarded == detections_where(bs, i as int, |j: int| scan_discarded(bs, h, j)),
            replayed == detections_where(bs, i as int, |j: int| scan_age(bs, j) > 0 && !scan_discarded(bs, h, j)),
        decreases n - i,
    {
        proof {
            lemma_kept_scans(bs, h, i as int);
            lemma_detections_where_bounded(bs, i + 1, |j: int| scan_age(bs, j) > 0);
            lemma_detections_where_bounded(bs, i + 1, |j: int| scan_discarded(bs, h, j));
            lemma_detections_where_bounded(bs, i + 1, |j: int| scan_age(bs, j) > 0 && !scan_discarded(bs, h, j));
            lemma_detections_where_monotone(bs, i + 1, n as int, |j: int| true);
        }
        let b = &batches[i];
        let count = b.detections.len();
        let age: i64 = match latest {
            None => 0,
            Some(l) => saturating_sub_i64(l, b.measurement_time_ns),
        };
        assert(age as int == scan_age(bs, i as int));
        if age > 0 {
            delayed = delayed + count;
        }
        latest = match latest {
            None => Some(b.measurement_time_ns),
            Some(l) => Some(if b.measurement_time_ns > l { b.measurement_time_ns } else { l }),
        };
        if age > history_duration_ns {
            discarded = discarded + count;
        } else {
            if age > 0 {
                replayed = replayed + count;
            }
            kept.push(i);
            keys.push(SortKey {
                first: b.measurement_time_ns,
                second: b.arrival_time_ns,
                third: 0,
                label: b.stable_id.clone(),
            });
        }
        i = i + 1;
    }
    let p = stable_order(&keys);
    let mut order: Vec<usize> = Vec::new();
    let mut k: usize = 0;
    while k < p.len()
        invariant
            0 <= k <= p@.len(),
            p@.len() == kept@.len(),
            forall|a: int| 0 <= a < p@.len() ==> #[trigger] p@[a] < kept@.len(),
            order@.len() == k,
            forall|a: int| 0 <= a < k ==> #[trigger] order@[a] == kept@[p@[a] as int],
        decreases p@.len() - k,
    {
        order.push(kept[p[k]]);
        k = k + 1;
    }
    proof {
        let kv = kept_scans(bs, h, n as int);
        lemma_kept_scans(bs, h, n as int);
        assert forall|a: int| 0 <= a < order@.len() implies kv.contains(#[trigger] order@[a] as int) by {
            assert(kv[p@[a] as int] == order@[a] as int);
        }
        assert forall|x: int| kv.contains(x) implies #[trigger] lists(order@, x) by {
            let j = choose|j: int| 0 <= j < kv.len() && kv[j] == x;
            assert(lists(p@, j));
            let a = choose|a: int| 0 <= a < p@.len() && p@[a] == j;
            assert(order@[a] == x);
        }
        assert forall|a: int, b: int| 0 <= a < b < order@.len() implies
            scan_before(bs, #[trigger] order@[a] as int, #[trigger] order@[b] as int) by {
            assert(comes_before(keys@, p@[a] as int, p@[b] as int));
            let (ka, kb) = (keys@[p@[a] as int], keys@[p@[b] as int]);
            lemma_seq_less_irreflexive(ka.label@);
            if key_same(ka, kb) {
                assert(p@[a] < p@[b]);
            } else {
                assert(key_less(ka, kb));
            }
        }
    }
    proof {
        if h >= 0 {
            assert(is_scan_order(bs, kept_scans(bs, h, bs.len() as int), order@));
            lemma_scan_order_keeps_fresh(bs, h, order@);
            assert forall|i: int| 0 <= i < bs.len() implies #[trigger] scan_discarded(bs, h, i) == (exists|j: int|
                0 <= j < i && clamp_i64(bs[j].measurement_time_ns - bs[i].measurement_time_ns) > h) by {
                lemma_scan_discarded_exactly_when_stale(bs, h, i);
            }
            lemma_detections_where_agree(bs, bs.len() as int, |i: int| scan_discarded(bs, h, i),
                |i: int| exists|j: int| 0 <= j < i && clamp_i64(bs[j].measurement_time_ns - bs[i].measurement_time_ns) > h);
        }
    }
    ScanSchedule {
        order,
        delayed_detections: delayed,
        replayed_detections: replayed,
        discarded_detections: discarded,
    }
}

/// `b` is `a` with its time and every lidar detection time replaced by the arrival time.
pub open spec fn retimed_at_arrival(a: DetectionBatch, b: DetectionBatch) -> bool {
    &&& b.sensor == a.sensor
    &&& b.record_index == a.record_index
    &&& b.measurement_time_ns == a.arrival_time_ns
    &&& b.arrival_time_ns == a.arrival_time_ns
    &&& b.stable_id@ == a.stable_id@
    &&& b.detections@.len() == a.detections@.len()
    &&& forall|j: int| 0 <= j < b.detections@.len() ==> #[trigger] b.detections@[j] == match a.detections@[j] {
        Detection::Camera => Detection::Camera,
        Detection::Lidar { .. } => Detection::Lidar { measurement_time_ns: a.arrival_time_ns },
    }
}

impl DetectionBatch {
    /// A copy of this batch measured at its arrival time.
    pub fn at_arrival(&self) -> (b: DetectionBatch)
        ensures
            retimed_at_arrival(*self, b),
    {
        let mut detections: Vec<Detection> = Vec::new();
        let mut j: usize = 0;
        while j < self.detections.len()
            invariant
                0 <= j <= self.detections@.len(),
                detections@.len() == j,
                forall|k: int| 0 <= k < j ==> #[trigger] detections@[k] == match self.detections@[k] {
                    Detection::Camera => Detection::Camera,
                    Detection::Lidar { .. } => Detection::Lidar { measurement_time_ns: self.arrival_time_ns },
                },
            decreases self.detections@.len() - j,
        {
            let d = match self.detections[j] {
                Detection::Camera => Detection::Camera,
                Detection::Lidar { .. } => Detection::Lidar { measurement_time_ns: self.arrival_time_ns },
            };
            detections.push(d);
            j = j + 1;
        }
        DetectionBatch {
            sensor: self.sensor,
            record_index: self.record_index,
            measurement_time_ns: self.arrival_time_ns,
            arrival_time_ns: self.arrival_time_ns,
            stable_id: self.stable_id.clone(),
            detections,
        }
    }
}

/// Batches ready for the tracker, each with its position in the input.
pub struct PreparedBatches {
    pub batches: Vec<DetectionBatch>,
    pub source: Vec<usize>,
}

/// Prepares the batches for the tracker. With timing compensation, batches are processed at
/// their measurement time: too-old batches are discarded and the rest reordered, and the
/// delayed, replayed and discarded detections are counted. Without it, every batch and lidar
/// detection is treated as measured when it arrived, in stream order.
pub fn prepare_timing(
    timing_compensation: bool,
    history_duration_ns: i64,
    batches: &Vec<DetectionBatch>,
    diagnostics: &mut TrackerDiagnostics,
) -> (p: PreparedBatches)
    requires
        total_detections(batches@) <= usize::MAX,
        old(diagnostics).delayed_detections + total_detections(batches@) <= usize::MAX,
        old(diagnostics).replayed_detections + total_detections(batches@) <= usize::MAX,
        old(diagnostics).discarded_detections + total_detections(batches@) <= usize::MAX,
    ensures
        p.batches@.len() == p.source@.len(),
        timing_compensation ==> {
            &&& is_scan_order(batches@, kept_scans(batches@, history_duration_ns, batches@.len() as int), p.source@)
            &&& forall|k: int| 0 <= k < p.batches@.len() ==> same_batch(batches@[p.source@[k] as int], #[trigger] p.batches@[k])
            &&& *final(diagnostics) == (TrackerDiagnostics {
                delayed_detections: (old(diagnostics).delayed_detections + detections_where(batches@,
                    batches@.len() as int, |i: int| scan_age(batches@, i) > 0)) as usize,
                replayed_detections: (old(diagnostics).replayed_detections + detections_where(batches@,
                    batches@.len() as int, |i: int| scan_age(batches@, i) > 0
                        && !scan_discarded(batches@, history_duration_ns, i))) as usize,
                discarded_detections: (old(diagnostics).discarded_detections + detections_where(batches@,
                    batches@.len() as int, |i: int| scan_discarded(batches@, history_duration_ns, i))) as usize,
                ..*old(diagnostics)
            })
        },
        timing_compensation && history_duration_ns >= 0 ==> forall|i: int| 0 <= i < batches@.len()
            ==> (#[trigger] lists(p.source@, i) <==> !exists|j: int| 0 <= j < i
                && clamp_i64(batches@[j].measurement_time_ns - batches@[i].measurement_time_ns) > history_duration_ns),
        !timing_compensation ==> {
            &&& p.batches@.len() == batches@.len()
            &&& forall|k: int| 0 <= k < p.source@.len() ==> #[trigger] p.source@[k] == k
            &&& forall|k: int| 0 <= k < p.batches@.len() ==> retimed_at_arrival(batches@[k], #[trigger] p.batches@[k])
            &&& *final(diagnostics) == *old(diagnostics)
        },
{
    let ghost bs = batches@;
    let mut out: Vec<DetectionBatch> = Vec::new();
    let mut source: Vec<usize> = Vec::new();
    if timing_compensation {
        let schedule = schedule_scans(history_duration_ns, batches);
        proof {
            lemma_detections_where_bounded(bs, bs.len() as int, |i: int| scan_age(bs, i) > 0);
            lemma_detections_where_bounded(bs, bs.len() as int, |i: int| scan_discarded(bs, history_duration_ns, i));
            lemma_detections_where_bounded(bs, bs.len() as int,
                |i: int| scan_age(bs, i) > 0 && !scan_discarded(bs, history_duration_ns, i));
            lemma_kept_scans(bs, history_duration_ns, bs.len() as int);
        }
        let mut k: usize = 0;
        while k < schedule.order.len()
            invariant
                bs == batches@,
                0 <= k <= schedule.order@.len(),
                forall|a: int| 0 <= a < schedule.order@.len() ==> #[trigger] schedule.order@[a] < bs.len(),
                out@.len() == k,
                source@ == schedule.order@.take(k as int),
                forall|a: int| 0 <= a < k ==> same_batch(bs[schedule.order@[a] as int], #[trigger] out@[a]),
            decreases schedule.order@.len() - k,
        {
            let b = batches[schedule.order[k]].duplicate();
            out.push(b);
            source.push(schedule.order[k]);
            k = k + 1;
            assert(source@ == schedule.order@.take(k as int));
        }
        assert(schedule.order@.take(schedule.order@.len() as int) == schedule.order@);
        proof {
            if history_duration_ns >= 0 {
                lemma_scan_order_keeps_fresh(bs, history_duration_ns, source@);
            }
        }
        diagnostics.delayed_detections = diagnostics.delayed_detections + schedule.delayed_detections;
        diagnostics.replayed_detections = diagnostics.replayed_detections + schedule.replayed_detections;
        diagnostics.discarded_detections = diagnostics.discarded_detections + schedule.discarded_detections;
    } else {
        let mut k: usize = 0;
        while k < batches.len()
            invariant
                bs == batches@,
                0 <= k <= bs.len(),
                out@.len() == k,
                source@.len() == k,
                forall|a: int| 0 <= a < k ==> #[trigger] source@[a] == a,
                forall|a: int| 0 <= a < k ==> retimed_at_arrival(bs[a], #[trigger] out@[a]),
            decreases bs.len() - k,
        {
            out.push(batches[k].at_arrival());
            source.push(k);
            k = k + 1;
        }
    }
    PreparedBatches { batches: out, source }
}

/// With a non-negative history, every delayed detection is either replayed or discarded, and
/// nothing else is discarded.
pub proof fn lemma_detection_delay_accounting(bs: Seq<DetectionBatch>, history_ns: i64, n: int)
    requires
        history_ns >= 0,
        0 <= n <= bs.len(),
    ensures
        detections_where(bs, n, |i: int| scan_age(bs, i) > 0 && !scan_discarded(bs, history_ns, i))
            + detections_where(bs, n, |i: int| scan_discarded(bs, history_ns, i))
            == detections_where(bs, n, |i: int| scan_age(bs, i) > 0),
    decreases n,
{
    if n > 0 {
        lemma_detection_delay_accounting(bs, history_ns, n - 1);
    }
}

/// The identifier of detection `index` of the batch `stable_id`: `<stable_id>:<index>`.
pub fn detection_label(stable_id: &str, index: usize) -> (label: String)
    requires
        index <= u64::MAX,
    ensures
        label@ == stable_id@ + ":"@ + decimal_digits(index as nat),
{
    let mut label = String::from_str(stable_id);
    proof { reveal_strlit(":"); }
    label.append(":");
    push_padded_decimal(&mut label, index as u64, 0);
    label
}

/// What the tracker did with one detection of a processed batch.
#[derive(Debug, Clone, Copy)]
pub struct ObservedDetection {
    pub sensor: SensorKind,
    /// The association selected the detection for a track.
    pub selected: bool,
    /// A vehicle pose was available at the detection's time.
    pub has_ego_pose: bool,
}

/// The number of detections among the first `n` for which `p` holds.
pub open spec fn observed_where(ds: Seq<ObservedDetection>, n: int, p: spec_fn(ObservedDetection) -> bool) -> nat
    decreases n,
{
    if n <= 0 {
        0
    } else {
        observed_where(ds, n - 1, p) + if p(ds[n - 1]) { 1nat } else { 0nat }
    }
}

proof fn lemma_observed_where_bounded(ds: Seq<ObservedDetection>, n: int, p: spec_fn(ObservedDetection) -> bool)
    requires
        0 <= n,
    ensures
        observed_where(ds, n, p) <= n,
    decreases n,
{
    if n > 0 {
        lemma_observed_where_bounded(ds, n - 1, p);
    }
}

/// Selected camera detections.
pub open spec fn associated_camera(d: ObservedDetection) -> bool {
    d.selected && d.sensor == SensorKind::Camera
}

/// Selected lidar detections.
pub open spec fn associated_lidar(d: ObservedDetection) -> bool {
    d.selected && d.sensor == SensorKind::Lidar
}

/// Unselected camera detections that had a vehicle pose: they wait for a range.
pub open spec fn unmatched_camera(d: ObservedDetection) -> bool {
    !d.selected && d.has_ego_pose && d.sensor == SensorKind::Camera
}

/// Unselected lidar detections that had a vehicle pose.
pub open spec fn unmatched_lidar(d: ObservedDetection) -> bool {
    !d.selected && d.has_ego_pose && d.sensor == SensorKind::Lidar
}

/// Adds one processed batch to the run's counters: the batch counters, the applied updates
/// (selected associations and created tracks), and the associated and unmatched detections
/// by sensor.
pub fn collect_diagnostics(
    summary: &BatchDiagnostics,
    detections: &Vec<ObservedDetection>,
    diagnostics: &mut TrackerDiagnostics,
)
    requires
        old(diagnostics).candidate_pairs + summary.candidate_pairs <= usize::MAX,
        old(diagnostics).gated_out_pairs + summary.gated_out_pairs <= usize::MAX,
        old(diagnostics).invalid_candidate_pairs + summary.invalid_candidate_pairs <= usize::MAX,
        old(diagnostics).selected_associations + summary.selected_associations <= usize::MAX,
        old(diagnostics).missed_updates + summary.missed_updates <= usize::MAX,
        old(diagnostics).coasted_updates + summary.coasted_updates <= usize::MAX,
        old(diagnostics).created_tracks + summary.created_tracks <= usize::MAX,
        old(diagnostics).confirmed_tracks + summary.confirmed_tracks <= usize::MAX,
        old(diagnostics).deleted_tracks + summary.deleted_tracks <= usize::MAX,
        old(diagnostics).applied_updates + summary.selected_associations + summary.created_tracks <= usize::MAX,
        old(diagnostics).associated_camera_detections + detections@.len() <= usize::MAX,
        old(diagnostics).associated_lidar_detections + detections@.len() <= usize::MAX,
        old(diagnostics).unmatched_camera_detections + detections@.len() <= usize::MAX,
        old(diagnostics).unmatched_lidar_detections + detections@.len() <= usize::MAX,
        old(diagnostics).waiting_for_range + detections@.len() <= usize::MAX,
    ensures
        *final(diagnostics) == (TrackerDiagnostics {
            candidate_pairs: (old(diagnostics).candidate_pairs + summary.candidate_pairs) as usize,
            gated_out_pairs: (old(diagnostics).gated_out_pairs + summary.gated_out_pairs) as usize,
            invalid_candidate_pairs: (old(diagnostics).invalid_candidate_pairs + summary.invalid_candidate_pairs) as usize,
            selected_associations: (old(diagnostics).selected_associations + summary.selected_associations) as usize,
            missed_updates: (old(diagnostics).missed_updates + summary.missed_updates) as usize,
            coasted_updates: (old(diagnostics).coasted_updates + summary.coasted_updates) as usize,
            created_tracks: (old(diagnostics).created_tracks + summary.created_tracks) as usize,
            confirmed_tracks: (old(diagnostics).confirmed_tracks + summary.confirmed_tracks) as usize,
            deleted_tracks: (old(diagnostics).deleted_tracks + summary.deleted_tracks) as usize,
            applied_updates: (old(diagnostics).applied_updates + summary.selected_associations
                + summary.created_tracks) as usize,
            associated_camera_detections: (old(diagnostics).associated_camera_detections
                + observed_where(detections@, detections@.len() as int, |d: ObservedDetection| associated_camera(d))) as usize,
            associated_lidar_detections: (old(diagnostics).associated_lidar_detections
                + observed_where(detections@, detections@.len() as int, |d: ObservedDetection| associated_lidar(d))) as usize,
            unmatched_camera_detections: (old(diagnostics).unmatched_camera_detections
                + observed_where(detections@, detections@.len() as int, |d: ObservedDetection| unmatched_camera(d))) as usize,
            waiting_for_range: (old(diagnostics).waiting_for_range
                + observed_where(detections@, detections@.len() as int, |d: ObservedDetection| unmatched_camera(d))) as usize,
            unmatched_lidar_detections: (old(diagnostics).unmatched_lidar_detections
                + observed_where(detections@, detections@.len() as int, |d: ObservedDetection| unmatched_lidar(d))) as usize,
            ..*old(diagnostics)
        }),
{
    let ghost ds = detections@;
    let ghost start = *diagnostics;
    diagnostics.candidate_pairs = diagnostics.candidate_pairs + summary.candidate_pairs;
    diagnostics.gated_out_pairs = diagnostics.gated_out_pairs + summary.gated_out_pairs;
    diagnostics.invalid_candidate_pairs = diagnostics.invalid_candidate_pairs + summary.invalid_candidate_pairs;
    diagnostics.selected_associations = diagnostics.selected_associations + summary.selected_associations;
    diagnostics.missed_updates = diagnostics.missed_updates + summary.missed_updates;
    diagnostics.coasted_updates = diagnostics.coasted_updates + summary.coasted_updates;
    diagnostics.created_tracks = diagnostics.created_tracks + summary.created_tracks;
    diagnostics.confirmed_tracks = diagnostics.confirmed_tracks + summary.confirmed_tracks;
    diagnostics.deleted_tracks = diagnostics.deleted_tracks + summary.deleted_tracks;
    diagnostics.applied_updates = diagnostics.applied_updates + summary.selected_associations + summary.created_tracks;
    let mut associated_camera_count: usize = 0;
    let mut associated_lidar_count: usize = 0;
    let mut unmatched_camera_count: usize = 0;
    let mut unmatched_lidar_count: usize = 0;
    let mut i: usize = 0;
    while i < detections.len()
        invariant
            ds == detections@,
            0 <= i <= ds.len(),
            associated_camera_count == observed_where(ds, i as int, |d: ObservedDetection| associated_camera(d)),
            associated_lidar_count == observed_where(ds, i as int, |d: ObservedDetection| associated_lidar(d)),
            unmatched_camera_count == observed_where(ds, i as int, |d: ObservedDetection| unmatched_camera(d)),
            unmatched_lidar_count == observed_where(ds, i as int, |d: ObservedDetection| unmatched_lidar(d)),
        decreases ds.len() - i,
    {
        proof {
            lemma_observed_where_bounded(ds, i + 1, |d: ObservedDetection| associated_camera(d));
            lemma_observed_where_bounded(ds, i + 1, |d: ObservedDetection| associated_lidar(d));
            lemma_observed_where_bounded(ds, i + 1, |d: ObservedDetection| unmatched_camera(d));
            lemma_observed_where_bounded(ds, i + 1, |d: ObservedDetection| unmatched_lidar(d));
        }
        let d = detections[i];
        if d.selected {
            match d.sensor {
                SensorKind::Camera => { associated_camera_count = associated_camera_count + 1; },
                SensorKind::Lidar => { associated_lidar_count = associated_lidar_count + 1; },
            }
        } else if d.has_ego_pose {
            match d.sensor {
                SensorKind::Camera => { unmatched_camera_count = unmatched_camera_count + 1; },
                SensorKind::Lidar => { unmatched_lidar_count = unmatched_lidar_count + 1; },
            }
        }
        i = i + 1;
    }
    proof {
        lemma_observed_where_bounded(ds, ds.len() as int, |d: ObservedDetection| associated_camera(d));
        lemma_observed_where_bounded(ds, ds.len() as int, |d: ObservedDetection| associated_lidar(d));
        lemma_observed_where_bounded(ds, ds.len() as int, |d: ObservedDetection| unmatched_camera(d));
        lemma_observed_where_bounded(ds, ds.len() as int, |d: ObservedDetection| unmatched_lidar(d));
    }
    diagnostics.associated_camera_detections = diagnostics.associated_camera_detections + associated_camera_count;
    diagnostics.associated_lidar_detections = diagnostics.associated_lidar_detections + associated_lidar_count;
    diagnostics.unmatched_camera_detections = diagnostics.unmatched_camera_detections + unmatched_camera_count;
    diagnostics.waiting_for_range = diagnostics.waiting_for_range + unmatched_camera_count;
    diagnostics.unmatched_lidar_detections = diagnostics.unmatched_lidar_detections + unmatched_lidar_count;
}

} // verus!
