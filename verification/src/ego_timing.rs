//! Delivery timing of ego-motion measurements (IMU samples and GPS fixes): arrival-order
//! checks, delay accounting, and the replay schedule that processes measurements in
//! measurement-time order.

use vstd::prelude::*;

use crate::arith::{clamp_i64, saturating_sub_i64};
use crate::order::{comes_before, key_less, key_same, lists, stable_order, SortKey};

verus! {

/// When a measurement was taken and when it reached the estimator.
#[derive(Debug, Clone, Copy, PartialEq, Eq)]
pub struct MeasurementTime {
    pub measurement_time_ns: i64,
    pub arrival_time_ns: i64,
}

/// An ego measurement as far as its timing is concerned: its kind and its time stamp.
#[derive(Debug, Clone, Copy, PartialEq, Eq)]
pub enum EgoMeasurement {
    Imu(Option<MeasurementTime>),
    Gps(Option<MeasurementTime>),
}

impl EgoMeasurement {
    /// The time stamp the measurement carries, if any.
    pub open spec fn stamp(&self) -> Option<MeasurementTime> {
        match self {
            EgoMeasurement::Imu(t) => *t,
            EgoMeasurement::Gps(t) => *t,
        }
    }

    /// The measurement's time stamp.
    pub fn time(&self) -> (t: MeasurementTime)
        requires
            self.stamp() is Some,
        ensures
            t == self.stamp().unwrap(),
    {
        match self {
            EgoMeasurement::Imu(t) => t.unwrap(),
            EgoMeasurement::Gps(t) => t.unwrap(),
        }
    }
}

/// Measurement time of a stamped measurement.
pub open spec fn meas(m: EgoMeasurement) -> i64 {
    m.stamp().unwrap().measurement_time_ns
}

/// Arrival time of a stamped measurement.
pub open spec fn arr(m: EgoMeasurement) -> i64 {
    m.stamp().unwrap().arrival_time_ns
}

/// Every measurement carries a time stamp.
pub open spec fn all_stamped(ms: Seq<EgoMeasurement>) -> bool {
    forall|i: int| 0 <= i < ms.len() ==> (#[trigger] ms[i].stamp()) is Some
}

/// Processing priority among measurements with the same time: IMU before GPS.
pub open spec fn priority_of(m: EgoMeasurement) -> int {
    match m {
        EgoMeasurement::Imu(_) => 10,
        EgoMeasurement::Gps(_) => 20,
    }
}

/// The processing priority of a measurement.
pub fn measurement_priority(m: &EgoMeasurement) -> (p: u8)
    ensures
        p as int == priority_of(*m),
{
    match m {
        EgoMeasurement::Imu(_) => 10,
        EgoMeasurement::Gps(_) => 20,
    }
}

/// The measurements arrive in non-decreasing arrival time.
pub open spec fn arrival_ordered(ms: Seq<EgoMeasurement>) -> bool {
    forall|i: int, j: int| 0 <= i < j < ms.len() ==> arr(#[trigger] ms[i]) <= arr(#[trigger] ms[j])
}

/// Checks that the measurements are in arrival order.
pub fn validate_delivery_order(measurements: &Vec<EgoMeasurement>) -> (r: Result<(), String>)
    requires
        all_stamped(measurements@),
    ensures
        r is Ok <==> arrival_ordered(measurements@),
        r matches Err(e) ==> e@ == "ego measurements are not in arrival order"@,
{
    let n = measurements.len();
    if n == 0 {
        return Ok(());
    }
    let mut previous = measurements[0].time().arrival_time_ns;
    let mut i: usize = 1;
    while i < n
        invariant
            n == measurements@.len(),
            1 <= i <= n,
            all_stamped(measurements@),
            previous == arr(measurements@[i - 1]),
            arrival_ordered(measurements@.take(i as int)),
            forall|j: int| 0 <= j < i ==> arr(#[trigger] measurements@[j]) <= previous,
        decreases n - i,
    {
        let delivery = measurements[i].time().arrival_time_ns;
        if delivery < previous {
            proof {
                reveal_strlit("ego measurements are not in arrival order");
                assert(arr(measurements@[i - 1]) > arr(measurements@[i as int]));
            }
            return Err(String::from_str("ego measurements are not in arrival order"));
        }
        proof {
            assert forall|a: int, b: int| 0 <= a < b < i + 1 implies
                arr(#[trigger] measurements@.take(i + 1)[a]) <= arr(#[trigger] measurements@.take(i + 1)[b]) by {
                if b < i {
                    assert(measurements@.take(i as int)[a] == measurements@[a]);
                    assert(measurements@.take(i as int)[b] == measurements@[b]);
                }
            }
        }
        previous = delivery;
        i = i + 1;
    }
    assert(measurements@.take(n as int) == measurements@);
    Ok(())
}

/// How long a measurement took to arrive (saturating).
pub open spec fn delivery_age(m: EgoMeasurement) -> int {
    clamp_i64(arr(m) as int - meas(m) as int)
}

/// The largest delivery age in `ms`, or zero when `ms` is empty.
pub open spec fn max_delivery_age(ms: Seq<EgoMeasurement>) -> int
    decreases ms.len(),
{
    if ms.len() == 0 {
        0
    } else if ms.len() == 1 {
        delivery_age(ms[0])
    } else {
        let rest = max_delivery_age(ms.drop_last());
        let last = delivery_age(ms.last());
        if last > rest { last } else { rest }
    }
}

/// The largest delivery age of a non-empty run is at least the age of every measurement and
/// is the age of one of them.
pub proof fn lemma_max_delivery_age_is_largest(ms: Seq<EgoMeasurement>)
    requires
        ms.len() > 0,
    ensures
        forall|i: int| 0 <= i < ms.len() ==> #[trigger] delivery_age(ms[i]) <= max_delivery_age(ms),
        exists|i: int| 0 <= i < ms.len() && #[trigger] delivery_age(ms[i]) == max_delivery_age(ms),
    decreases ms.len(),
{
    if ms.len() == 1 {
        assert(delivery_age(ms[0]) == max_delivery_age(ms));
    } else {
        let rest = ms.drop_last();
        lemma_max_delivery_age_is_largest(rest);
        assert forall|i: int| 0 <= i < ms.len() implies #[trigger] delivery_age(ms[i]) <= max_delivery_age(ms) by {
            if i < ms.len() - 1 {
                assert(ms[i] == rest[i]);
            }
        }
        if delivery_age(ms.last()) > max_delivery_age(rest) {
            assert(delivery_age(ms[ms.len() - 1]) == max_delivery_age(ms));
        } else {
            let j = choose|j: int| 0 <= j < rest.len() && #[trigger] delivery_age(rest[j]) == max_delivery_age(rest);
            assert(ms[j] == rest[j]);
            assert(delivery_age(ms[j]) == max_delivery_age(ms));
        }
    }
}

/// Summary of how delivery timing affected an estimator run.
#[derive(Debug, Clone)]
pub struct TimingDiagnostics {
    pub timing_compensation: bool,
    pub history_duration_ns: i64,
    pub received_measurements: usize,
    pub delayed_measurements: usize,
    pub replayed_measurements: usize,
    pub discarded_measurements: usize,
    pub revised_estimates: usize,
    pub maximum_delivery_age_ns: i64,
}

/// Assembles the timing diagnostics of a run over `measurements`.
pub fn timing(
    timing_compensation: bool,
    history_duration_ns: i64,
    measurements: &Vec<EgoMeasurement>,
    delayed_measurements: usize,
    replayed_measurements: usize,
    discarded_measurements: usize,
    revised_estimates: usize,
) -> (d: TimingDiagnostics)
    requires
        all_stamped(measurements@),
    ensures
        d.timing_compensation == timing_compensation,
        d.history_duration_ns == history_duration_ns,
        d.received_measurements == measurements.len(),
        d.delayed_measurements == delayed_measurements,
        d.replayed_measurements == replayed_measurements,
        d.discarded_measurements == discarded_measurements,
        d.revised_estimates == revised_estimates,
        d.maximum_delivery_age_ns == max_delivery_age(measurements@),
        measurements@.len() > 0 ==> forall|i: int|
            0 <= i < measurements@.len() ==> #[trigger] delivery_age(measurements@[i]) <= d.maximum_delivery_age_ns,
        measurements@.len() > 0 ==> exists|i: int|
            0 <= i < measurements@.len() && #[trigger] delivery_age(measurements@[i]) == d.maximum_delivery_age_ns,
        measurements@.len() == 0 ==> d.maximum_delivery_age_ns == 0,
{
    let n = measurements.len();
    let mut maximum: i64 = 0;
    let mut i: usize = 0;
    while i < n
        invariant
            n == measurements@.len(),
            0 <= i <= n,
            all_stamped(measurements@),
            maximum as int == max_delivery_age(measurements@.take(i as int)),
        decreases n - i,
    {
        let t = measurements[i].time();
        let age = saturating_sub_i64(t.arrival_time_ns, t.measurement_time_ns);
        proof {
            let next = measurements@.take(i + 1);
            assert(next.drop_last() == measurements@.take(i as int));
            assert(next.last() == measurements@[i as int]);
        }
        if i == 0 || age > maximum {
            maximum = age;
        }
        i = i + 1;
    }
    assert(measurements@.take(n as int) == measurements@);
    proof {
        if n > 0 {
            lemma_max_delivery_age_is_largest(measurements@);
        }
    }
    TimingDiagnostics {
        timing_compensation,
        history_duration_ns,
        received_measurements: n,
        delayed_measurements,
        replayed_measurements,
        discarded_measurements,
        revised_estimates,
        maximum_delivery_age_ns: maximum,
    }
}

/// The latest IMU measurement time among the first `i` measurements, if any of them is an
/// IMU sample.
pub open spec fn latest_imu_stamp(ms: Seq<EgoMeasurement>, i: int) -> Option<i64>
    decreases i,
{
    if i <= 0 {
        None
    } else {
        let previous = latest_imu_stamp(ms, i - 1);
        let m = ms[i - 1];
        if m is Imu {
            match previous {
                None => Some(meas(m)),
                Some(t) => Some(if meas(m) > t { meas(m) } else { t }),
            }
        } else {
            previous
        }
    }
}

/// How far measurement `i` lags the latest IMU sample that arrived before it (saturating;
/// zero before the first IMU sample).
pub open spec fn replay_age(ms: Seq<EgoMeasurement>, i: int) -> int {
    match latest_imu_stamp(ms, i) {
        None => 0,
        Some(latest) => clamp_i64(latest as int - meas(ms[i]) as int),
    }
}

/// Measurement `i` arrived after a later IMU sample.
pub open spec fn is_delayed(ms: Seq<EgoMeasurement>, i: int) -> bool {
    replay_age(ms, i) > 0
}

/// Measurement `i` is a GPS fix older than the replay history allows.
pub open spec fn is_discarded(ms: Seq<EgoMeasurement>, history_ns: i64, i: int) -> bool {
    ms[i] is Gps && replay_age(ms, i) > history_ns
}

/// The latest IMU stamp among the first `i` measurements is absent exactly when none of them is
/// an IMU sample, and otherwise is the largest of their IMU measurement times.
pub proof fn lemma_latest_imu_stamp(ms: Seq<EgoMeasurement>, i: int)
    requires
        0 <= i <= ms.len(),
    ensures
        latest_imu_stamp(ms, i) is None <==> forall|j: int| 0 <= j < i ==> !(#[trigger] ms[j] is Imu),
        latest_imu_stamp(ms, i) matches Some(l) ==> {
            &&& forall|j: int| 0 <= j < i && #[trigger] ms[j] is Imu ==> meas(ms[j]) <= l
            &&& exists|j: int| 0 <= j < i && #[trigger] ms[j] is Imu && meas(ms[j]) == l
        },
    decreases i,
{
    if i > 0 {
        lemma_latest_imu_stamp(ms, i - 1);
        if latest_imu_stamp(ms, i - 1) is None && !(ms[i - 1] is Imu) {
            assert forall|j: int| 0 <= j < i implies !(#[trigger] ms[j] is Imu) by {
                if j < i - 1 {} else {}
            }
        }
        if ms[i - 1] is Imu {
            assert(ms[i - 1] is Imu);
        }
    }
}

/// Only GPS fixes are ever discarded: an IMU sample is always kept.
pub proof fn lemma_imu_never_discarded(ms: Seq<EgoMeasurement>, history_ns: i64, i: int)
    requires
        0 <= i < ms.len(),
        ms[i] is Imu,
    ensures
        !is_discarded(ms, history_ns, i),
{
}

/// With a non-negative history, a measurement is discarded exactly when it is a GPS fix and
/// an IMU sample that arrived before it was measured more than the history later.
pub proof fn lemma_discarded_exactly_when_stale(ms: Seq<EgoMeasurement>, history_ns: i64, i: int)
    requires
        history_ns >= 0,
        0 <= i < ms.len(),
    ensures
        is_discarded(ms, history_ns, i) <==> (ms[i] is Gps && exists|j: int|
            0 <= j < i && #[trigger] ms[j] is Imu && clamp_i64(meas(ms[j]) - meas(ms[i])) > history_ns),
{
    lemma_latest_imu_stamp(ms, i);
    match latest_imu_stamp(ms, i) {
        None => {
            if exists|j: int| 0 <= j < i && #[trigger] ms[j] is Imu && clamp_i64(meas(ms[j]) - meas(ms[i])) > history_ns {
                let j = choose|j: int| 0 <= j < i && #[trigger] ms[j] is Imu && clamp_i64(meas(ms[j]) - meas(ms[i])) > history_ns;
                assert(!(ms[j] is Imu));
            }
        },
        Some(l) => {
            let w = choose|j: int| 0 <= j < i && #[trigger] ms[j] is Imu && meas(ms[j]) == l;
            if exists|j: int| 0 <= j < i && #[trigger] ms[j] is Imu && clamp_i64(meas(ms[j]) - meas(ms[i])) > history_ns {
                let j = choose|j: int| 0 <= j < i && #[trigger] ms[j] is Imu && clamp_i64(meas(ms[j]) - meas(ms[i])) > history_ns;
                assert(meas(ms[j]) <= l);
            }
            assert(ms[w] is Imu);
        },
    }
}

/// `p` holding wherever `q` does, among the first `n`, counts no more often.
pub proof fn lemma_count_where_le(n: int, p: spec_fn(int) -> bool, q: spec_fn(int) -> bool)
    requires
        forall|i: int| 0 <= i < n && #[trigger] p(i) ==> q(i),
    ensures
        count_where(n, p) <= count_where(n, q),
    decreases n,
{
    if n > 0 {
        lemma_count_where_le(n - 1, p, q);
    }
}

/// Measurement `i` is delayed but kept, so the estimator replays it.
pub open spec fn is_replayed(ms: Seq<EgoMeasurement>, history_ns: i64, i: int) -> bool {
    is_delayed(ms, i) && !is_discarded(ms, history_ns, i)
}

/// The number of `i` in `0..n` for which `p(i)` holds.
pub open spec fn count_where(n: int, p: spec_fn(int) -> bool) -> nat
    decreases n,
{
    if n <= 0 {
        0
    } else {
        count_where(n - 1, p) + if p(n - 1) { 1nat } else { 0nat }
    }
}

/// The indices among the first `n` measurements that are kept, in increasing order.
pub open spec fn kept_indices(ms: Seq<EgoMeasurement>, history_ns: i64, n: int) -> Seq<int>
    decreases n,
{
    if n <= 0 {
        Seq::empty()
    } else if is_discarded(ms, history_ns, n - 1) {
        kept_indices(ms, history_ns, n - 1)
    } else {
        kept_indices(ms, history_ns, n - 1).push(n - 1)
    }
}

pub proof fn lemma_kept_indices_increasing(ms: Seq<EgoMeasurement>, history_ns: i64, n: int)
    requires
        0 <= n,
    ensures
        forall|a: int, b: int| 0 <= a < b < kept_indices(ms, history_ns, n).len()
            ==> #[trigger] kept_indices(ms, history_ns, n)[a] < #[trigger] kept_indices(ms, history_ns, n)[b],
        forall|a: int| 0 <= a < kept_indices(ms, history_ns, n).len()
            ==> 0 <= #[trigger] kept_indices(ms, history_ns, n)[a] < n,
        forall|x: int| 0 <= x < n && !is_discarded(ms, history_ns, x)
            ==> #[trigger] kept_indices(ms, history_ns, n).contains(x),
        kept_indices(ms, history_ns, n).len() + count_where(n, |i: int| is_discarded(ms, history_ns, i)) == n,
    decreases n,
{
    if n > 0 {
        lemma_kept_indices_increasing(ms, history_ns, n - 1);
        let prev = kept_indices(ms, history_ns, n - 1);
        let cur = kept_indices(ms, history_ns, n);
        assert forall|x: int| 0 <= x < n && !is_discarded(ms, history_ns, x)
            implies #[trigger] cur.contains(x) by {
            if x < n - 1 {
                assert(prev.contains(x));
                let k = choose|k: int| 0 <= k < prev.len() && prev[k] == x;
                assert(cur[k] == x);
            } else {
                assert(cur[cur.len() - 1] == x);
            }
        }
    }
}

/// Which measurements a measurement-time run keeps, and how many were delayed, replayed
/// and discarded.
pub struct Admission {
    pub kept: Vec<usize>,
    pub delayed: usize,
    pub replayed: usize,
    pub discarded: usize,
}

/// Decides, in arrival order, which measurements a measurement-time run keeps: a GPS fix
/// that lags the latest IMU sample by more than `history_duration_ns` is discarded;
/// everything else is kept.
pub fn admit_for_replay(history_duration_ns: i64, measurements: &Vec<EgoMeasurement>) -> (a: Admission)
    requires
        all_stamped(measurements@),
    ensures
        a.kept@.len() == kept_indices(measurements@, history_duration_ns, measurements@.len() as int).len(),
        forall|k: int| 0 <= k < a.kept@.len() ==>
            #[trigger] a.kept@[k] as int == kept_indices(measurements@, history_duration_ns, measurements@.len() as int)[k],
        a.delayed == count_where(measurements@.len() as int, |i: int| is_delayed(measurements@, i)),
        a.replayed == count_where(measurements@.len() as int, |i: int| is_replayed(measurements@, history_duration_ns, i)),
        a.discarded == count_where(measurements@.len() as int, |i: int| is_discarded(measurements@, history_duration_ns, i)),
        forall|i: int| 0 <= i < measurements@.len() && #[trigger] measurements@[i] is Imu ==> lists(a.kept@, i),
        a.discarded <= count_where(measurements@.len() as int, |i: int| measurements@[i] is Gps),
{
    let ghost ms = measurements@;
    let ghost h = history_duration_ns;
    let n = measurements.len();
    let mut kept: Vec<usize> = Vec::new();
    let mut delayed: usize = 0;
    let mut replayed: usize = 0;
    let mut discarded: usize = 0;
    let mut latest: Option<i64> = None;
    let mut i: usize = 0;
    while i < n
        invariant
            n == ms.len(),
            ms == measurements@,
            h == history_duration_ns,
            0 <= i <= n,
            all_stamped(ms),
            latest == latest_imu_stamp(ms, i as int),
            kept@.len() == kept_indices(ms, h, i as int).len(),
            forall|k: int| 0 <= k < kept@.len() ==> #[trigger] kept@[k] as int == kept_indices(ms, h, i as int)[k],
            delayed == count_where(i as int, |j: int| is_delayed(ms, j)),
            replayed == count_where(i as int, |j: int| is_replayed(ms, h, j)),
            discarded == count_where(i as int, |j: int| is_discarded(ms, h, j)),
            delayed <= i,
            replayed <= i,
            discarded <= i,
        decreases n - i,
    {
        let m = measurements[i];
        let t = m.time();
        let age: i64 = match latest {
            None => 0,
            Some(l) => saturating_sub_i64(l, t.measurement_time_ns),
        };
        assert(age as int == replay_age(ms, i as int));
        if age > 0 {
            delayed = delayed + 1;
        }
        let is_gps = match m { EgoMeasurement::Gps(_) => true, EgoMeasurement::Imu(_) => false };
        if is_gps && age > history_duration_ns {
            discarded = discarded + 1;
        } else {
            if age > 0 {
                replayed = replayed + 1;
            }
            kept.push(i);
        }
        match m {
            EgoMeasurement::Imu(_) => {
                latest = match latest {
                    None => Some(t.measurement_time_ns),
                    Some(l) => Some(if t.measurement_time_ns > l { t.measurement_time_ns } else { l }),
                };
            },
            EgoMeasurement::Gps(_) => {},
        }
        i = i + 1;
    }
    proof {
        lemma_kept_indices_increasing(ms, h, n as int);
        let spec_kept = kept_indices(ms, h, n as int);
        assert forall|x: int| 0 <= x < n && #[trigger] ms[x] is Imu implies lists(kept@, x) by {
            lemma_imu_never_discarded(ms, h, x);
            assert(spec_kept.contains(x));
            let k = choose|k: int| 0 <= k < spec_kept.len() && spec_kept[k] == x;
            assert(kept@[k] as int == x);
        }
        lemma_count_where_le(n as int, |j: int| is_discarded(ms, h, j), |j: int| ms[j] is Gps);
    }
    Admission { kept, delayed, replayed, discarded }
}

/// With a non-negative history, every delayed measurement is either replayed or discarded,
/// and nothing else is discarded.
pub proof fn lemma_delay_accounting(ms: Seq<EgoMeasurement>, history_ns: i64, n: int)
    requires
        history_ns >= 0,
        0 <= n <= ms.len(),
    ensures
        count_where(n, |i: int| is_replayed(ms, history_ns, i))
            + count_where(n, |i: int| is_discarded(ms, history_ns, i))
            == count_where(n, |i: int| is_delayed(ms, i)),
    decreases n,
{
    if n > 0 {
        lemma_delay_accounting(ms, history_ns, n - 1);
    }
}

/// Measurement `i` is processed before measurement `j` in a measurement-time run: earlier
/// measurement time first, then IMU before GPS, then earlier arrival, then arrival order.
pub open spec fn replay_before(ms: Seq<EgoMeasurement>, i: int, j: int) -> bool {
    let (a, b) = (ms[i], ms[j]);
    if meas(a) != meas(b) {
        meas(a) < meas(b)
    } else if priority_of(a) != priority_of(b) {
        priority_of(a) < priority_of(b)
    } else if arr(a) != arr(b) {
        arr(a) < arr(b)
    } else {
        i < j
    }
}

/// `order` lists exactly the indices in `kept`, in `replay_before` order.
pub open spec fn is_replay_order(ms: Seq<EgoMeasurement>, kept: Seq<int>, order: Seq<usize>) -> bool {
    &&& order.len() == kept.len()
    &&& forall|k: int| 0 <= k < order.len() ==> kept.contains(#[trigger] order[k] as int)
    &&& forall|x: int| kept.contains(x) ==> #[trigger] lists(order, x)
    &&& forall|k: int, l: int| 0 <= k < l < order.len()
        ==> replay_before(ms, #[trigger] order[k] as int, #[trigger] order[l] as int)
}

/// The sort key of a measurement: measurement time, priority, arrival time.
fn replay_key(m: &EgoMeasurement) -> (key: SortKey)
    requires
        m.stamp() is Some,
    ensures
        key.first == meas(*m),
        key.second == priority_of(*m),
        key.third == arr(*m),
        key.label@ == Seq::<char>::empty(),
{
    let t = m.time();
    let p = measurement_priority(m);
    SortKey {
        first: t.measurement_time_ns,
        second: p as i64,
        third: t.arrival_time_ns,
        label: String::new(),
    }
}

/// Orders the kept measurements for a measurement-time run: by measurement time, then IMU
/// before GPS, then by arrival time, keeping arrival order among equal keys.
pub fn replay_order(measurements: &Vec<EgoMeasurement>, kept: &Vec<usize>) -> (order: Vec<usize>)
    requires
        all_stamped(measurements@),
        forall|a: int, b: int| 0 <= a < b < kept@.len() ==> #[trigger] kept@[a] < #[trigger] kept@[b],
        forall|a: int| 0 <= a < kept@.len() ==> #[trigger] kept@[a] < measurements@.len(),
    ensures
        is_replay_order(measurements@, kept@.map_values(|x: usize| x as int), order@),
{
    let ghost ms = measurements@;
    let mut keys: Vec<SortKey> = Vec::new();
    let mut i: usize = 0;
    while i < kept.len()
        invariant
            ms == measurements@,
            all_stamped(ms),
            0 <= i <= kept@.len(),
            forall|a: int| 0 <= a < kept@.len() ==> #[trigger] kept@[a] < ms.len(),
            keys@.len() == i,
            forall|x: int| 0 <= x < i ==> {
                &&& (#[trigger] keys@[x]).first == meas(ms[kept@[x] as int])
                &&& keys@[x].second == priority_of(ms[kept@[x] as int])
                &&& keys@[x].third == arr(ms[kept@[x] as int])
                &&& keys@[x].label@ == Seq::<char>::empty()
            },
        decreases kept@.len() - i,
    {
        let key = replay_key(&measurements[kept[i]]);
        keys.push(key);
        i = i + 1;
    }
    let p = stable_order(&keys);
    let mut order: Vec<usize> = Vec::new();
    let mut k: usize = 0;
    while k < p.len()
        invariant
            0 <= k <= p@.len(),
            p@.len() == kept@.len(),
            forall|a: int| 0 <= a < p@.len() ==> #[trigger] p@[a] < kept@.len(),
            order@.len() == k,
            forall|a: int| 0 <= a < k ==> #[trigger] order@[a] == kept@[p@[a] as int],
        decreases p@.len() - k,
    {
        order.push(kept[p[k]]);
        k = k + 1;
    }
    proof {
        let kv = kept@.map_values(|x: usize| x as int);
        assert forall|a: int| 0 <= a < order@.len() implies kv.contains(#[trigger] order@[a] as int) by {
            assert(kv[p@[a] as int] == order@[a] as int);
        }
        assert forall|x: int| kv.contains(x) implies #[trigger] lists(order@, x) by {
            let j = choose|j: int| 0 <= j < kv.len() && kv[j] == x;
            assert(lists(p@, j));
            let a = choose|a: int| 0 <= a < p@.len() && p@[a] == j;
            assert(order@[a] == x);
        }
        assert forall|a: int, b: int| 0 <= a < b < order@.len() implies
            replay_before(ms, #[trigger] order@[a] as int, #[trigger] order@[b] as int) by {
            assert(comes_before(keys@, p@[a] as int, p@[b] as int));
            let (ka, kb) = (keys@[p@[a] as int], keys@[p@[b] as int]);
            if key_same(ka, kb) {
                assert(p@[a] < p@[b]);
            } else {
                assert(key_less(ka, kb));
            }
        }
    }
    order
}

/// One step of a measurement-time run: the measurements at `order[start..end]` share the
/// measurement time `stamp_ns`; when the step holds an IMU sample an estimate is emitted for
/// `stamp_ns`, available at `emission_ns`.
#[derive(Debug, Clone, Copy)]
pub struct ReplayStep {
    pub start: usize,
    pub end: usize,
    pub stamp_ns: i64,
    pub emission_ns: Option<i64>,
    pub revised: bool,
}

/// Measurement time of the `k`-th measurement in processing order.
pub open spec fn stamp_at(ms: Seq<EgoMeasurement>, order: Seq<usize>, k: int) -> i64 {
    meas(ms[order[k] as int])
}

/// Arrival time of the last IMU sample among `order[start..end]`, if any.
pub open spec fn last_imu_arrival(ms: Seq<EgoMeasurement>, order: Seq<usize>, start: int, end: int) -> Option<i64>
    decreases end - start,
{
    if end <= start {
        None
    } else if ms[order[end - 1] as int] is Imu {
        Some(arr(ms[order[end - 1] as int]))
    } else {
        last_imu_arrival(ms, order, start, end - 1)
    }
}

/// The `k`-th processed measurement is a GPS fix at or before `stamp` that arrived after `e`.
pub open spec fn revises_at(ms: Seq<EgoMeasurement>, order: Seq<usize>, stamp: i64, e: i64, k: int) -> bool {
    let x = ms[order[k] as int];
    x is Gps && meas(x) <= stamp && arr(x) > e
}

/// `e` raised to the latest arrival of the GPS fixes among the first `k` processed that are
/// at or before `stamp` and arrived after `e`.
pub open spec fn revised_emission(ms: Seq<EgoMeasurement>, order: Seq<usize>, stamp: i64, e: i64, k: int) -> i64
    decreases k,
{
    if k <= 0 {
        e
    } else {
        let r = revised_emission(ms, order, stamp, e, k - 1);
        let x = ms[order[k - 1] as int];
        if revises_at(ms, order, stamp, e, k - 1) && arr(x) > r { arr(x) } else { r }
    }
}

/// Some GPS fix at or before `stamp` arrived after `e`.
pub open spec fn revises(ms: Seq<EgoMeasurement>, order: Seq<usize>, stamp: i64, e: i64, k: int) -> bool {
    exists|j: int| 0 <= j < k && #[trigger] revises_at(ms, order, stamp, e, j)
}

/// The emission time and revision flag that a step over `order[start..end]` gets.
pub open spec fn step_emission(ms: Seq<EgoMeasurement>, order: Seq<usize>, step: ReplayStep) -> bool {
    match last_imu_arrival(ms, order, step.start as int, step.end as int) {
        None => step.emission_ns is None && !step.revised,
        Some(e) => {
            &&& step.emission_ns == Some(revised_emission(ms, order, step.stamp_ns, e, order.len() as int))
            &&& step.revised == revises(ms, order, step.stamp_ns, e, order.len() as int)
        },
    }
}

/// `steps` split `order[0..upto]` into maximal runs of equal measurement time, in order.
pub open spec fn steps_cover(ms: Seq<EgoMeasurement>, order: Seq<usize>, steps: Seq<ReplayStep>, upto: int) -> bool {
    &&& steps.len() == 0 ==> upto == 0
    &&& steps.len() > 0 ==> steps[0].start == 0 && steps.last().end == upto
    &&& forall|s: int| 0 <= s < steps.len() ==> (#[trigger] steps[s]).start < steps[s].end <= upto
    &&& forall|s: int| 0 < s < steps.len() ==> steps[s - 1].end == (#[trigger] steps[s]).start
    &&& forall|s: int, k: int| 0 <= s < steps.len() && steps[s].start <= k < steps[s].end
        ==> #[trigger] stamp_at(ms, order, k) == (#[trigger] steps[s]).stamp_ns
    &&& forall|s: int| 0 <= s < steps.len() && steps[s].end < order.len()
        ==> stamp_at(ms, order, (#[trigger] steps[s]).end as int) != steps[s].stamp_ns
    &&& forall|s: int| 0 <= s < steps.len() ==> step_emission(ms, order, #[trigger] steps[s])
}

/// Groups the processing order into steps of equal measurement time and decides when each
/// step's estimate becomes available: at the arrival of its last IMU sample, or later if a
/// GPS fix for that time or earlier arrived after that.
pub fn replay_steps(measurements: &Vec<EgoMeasurement>, order: &Vec<usize>) -> (steps: Vec<ReplayStep>)
    requires
        all_stamped(measurements@),
        forall|k: int| 0 <= k < order@.len() ==> #[trigger] order@[k] < measurements@.len(),
        forall|k: int, l: int| 0 <= k < l < order@.len()
            ==> #[trigger] stamp_at(measurements@, order@, k) <= #[trigger] stamp_at(measurements@, order@, l),
    ensures
        steps_cover(measurements@, order@, steps@, order@.len() as int),
{
    let ghost ms = measurements@;
    let ghost o = order@;
    let m = order.len();
    let mut steps: Vec<ReplayStep> = Vec::new();
    let mut index: usize = 0;
    while index < m
        invariant
            ms == measurements@,
            o == order@,
            m == o.len(),
            all_stamped(ms),
            forall|k: int| 0 <= k < o.len() ==> #[trigger] o[k] < ms.len(),
            0 <= index <= m,
            steps_cover(ms, o, steps@, index as int),
        decreases m - index,
    {
        let stamp = measurements[order[index]].time().measurement_time_ns;
        let mut end: usize = index + 1;
        while end < m && measurements[order[end]].time().measurement_time_ns == stamp
            invariant
                ms == measurements@,
                o == order@,
                m == o.len(),
                all_stamped(ms),
                forall|k: int| 0 <= k < o.len() ==> #[trigger] o[k] < ms.len(),
                index < end <= m,
                stamp == stamp_at(ms, o, index as int),
                forall|k: int| index <= k < end ==> #[trigger] stamp_at(ms, o, k) == stamp,
            decreases m - end,
        {
            end = end + 1;
        }
        let mut emission: Option<i64> = None;
        let mut k: usize = index;
        while k < end
            invariant
                ms == measurements@,
                o == order@,
                all_stamped(ms),
                forall|j: int| 0 <= j < o.len() ==> #[trigger] o[j] < ms.len(),
                index <= k <= end <= o.len(),
                emission == last_imu_arrival(ms, o, index as int, k as int),
            decreases end - k,
        {
            let x = measurements[order[k]];
            match x {
                EgoMeasurement::Imu(_) => { emission = Some(x.time().arrival_time_ns); },
                EgoMeasurement::Gps(_) => {},
            }
            k = k + 1;
        }
        let mut final_emission: Option<i64> = None;
        let mut revised = false;
        if let Some(e) = emission {
            let mut f: i64 = e;
            let mut j: usize = 0;
            while j < m
                invariant
                    ms == measurements@,
                    o == order@,
                    m == o.len(),
                    all_stamped(ms),
                    forall|i: int| 0 <= i < o.len() ==> #[trigger] o[i] < ms.len(),
                    0 <= j <= m,
                    f == revised_emission(ms, o, stamp, e, j as int),
                    revised == revises(ms, o, stamp, e, j as int),
                decreases m - j,
            {
                let x = measurements[order[j]];
                let t = x.time();
                let is_gps = match x { EgoMeasurement::Gps(_) => true, EgoMeasurement::Imu(_) => false };
                if is_gps && t.measurement_time_ns <= stamp && t.arrival_time_ns > e {
                    if t.arrival_time_ns > f {
                        f = t.arrival_time_ns;
                    }
                    revised = true;
                    assert(revises_at(ms, o, stamp, e, j as int));
                }
                j = j + 1;
            }
            final_emission = Some(f);
        }
        let step = ReplayStep { start: index, end, stamp_ns: stamp, emission_ns: final_emission, revised };
        let ghost before = steps@;
        steps.push(step);
        proof {
            let after = steps@;
            assert(after.last() == step);
            assert forall|s: int| 0 <= s < before.len() implies after[s] == before[s] by {}
            assert(step_emission(ms, o, step));
        }
        index = end;
    }
    steps
}

/// The number of steps whose emission was delayed by a late GPS fix.
pub open spec fn count_revised(steps: Seq<ReplayStep>) -> nat
    decreases steps.len(),
{
    if steps.len() == 0 {
        0
    } else {
        count_revised(steps.drop_last()) + if steps.last().revised { 1nat } else { 0nat }
    }
}

/// The schedule of a measurement-time run.
pub struct ReplayPlan {
    /// Indices of the kept measurements, in processing order.
    pub order: Vec<usize>,
    /// Steps over `order`, each emitting at most one estimate.
    pub steps: Vec<ReplayStep>,
    pub delayed: usize,
    pub replayed: usize,
    pub discarded: usize,
    pub revised: usize,
}

/// Plans a run that processes measurements at their measurement time: drops GPS fixes
/// older than the replay history, orders the rest by measurement time (IMU before GPS,
/// then by arrival), groups them by time, and decides when each estimate is available.
pub fn plan_replay(history_duration_ns: i64, measurements: &Vec<EgoMeasurement>) -> (plan: ReplayPlan)
    requires
        all_stamped(measurements@),
    ensures
        is_replay_order(measurements@, kept_indices(measurements@, history_duration_ns, measurements@.len() as int), plan.order@),
        steps_cover(measurements@, plan.order@, plan.steps@, plan.order@.len() as int),
        plan.delayed == count_where(measurements@.len() as int, |i: int| is_delayed(measurements@, i)),
        plan.replayed == count_where(measurements@.len() as int, |i: int| is_replayed(measurements@, history_duration_ns, i)),
        plan.discarded == count_where(measurements@.len() as int, |i: int| is_discarded(measurements@, history_duration_ns, i)),
        plan.revised == count_revised(plan.steps@),
        forall|i: int| 0 <= i < measurements@.len() && #[trigger] measurements@[i] is Imu ==> lists(plan.order@, i),
        plan.discarded <= count_where(measurements@.len() as int, |i: int| measurements@[i] is Gps),
{
    let ghost ms = measurements@;
    let ghost kept_spec = kept_indices(ms, history_duration_ns, ms.len() as int);
    let admission = admit_for_replay(history_duration_ns, measurements);
    proof {
        lemma_kept_indices_increasing(ms, history_duration_ns, ms.len() as int);
        assert(admission.kept@.map_values(|x: usize| x as int) == kept_spec);
    }
    let order = replay_order(measurements, &admission.kept);
    proof {
        assert forall|k: int, l: int| 0 <= k < l < order@.len() implies
            #[trigger] stamp_at(ms, order@, k) <= #[trigger] stamp_at(ms, order@, l) by {
            assert(replay_before(ms, order@[k] as int, order@[l] as int));
        }
        assert forall|k: int| 0 <= k < order@.len() implies #[trigger] order@[k] < ms.len() by {
            assert(kept_spec.contains(order@[k] as int));
        }
        assert forall|x: int| 0 <= x < ms.len() && #[trigger] ms[x] is Imu implies lists(order@, x) by {
            lemma_imu_never_discarded(ms, history_duration_ns, x);
            assert(kept_spec.contains(x));
        }
    }
    let steps = replay_steps(measurements, &order);
    let mut revised: usize = 0;
    let mut s: usize = 0;
    while s < steps.len()
        invariant
            0 <= s <= steps@.len(),
            revised == count_revised(steps@.take(s as int)),
            revised <= s,
        decreases steps@.len() - s,
    {
        proof {
            assert(steps@.take(s + 1).drop_last() == steps@.take(s as int));
        }
        if steps[s].revised {
            revised = revised + 1;
        }
        s = s + 1;
    }
    assert(steps@.take(steps@.len() as int) == steps@);
    ReplayPlan {
        order,
        steps,
        delayed: admission.delayed,
        replayed: admission.replayed,
        discarded: admission.discarded,
        revised,
    }
}

proof fn lemma_revised_emission_bounds(ms: Seq<EgoMeasurement>, order: Seq<usize>, stamp: i64, e: i64, k: int)
    requires
        0 <= k,
    ensures
        revised_emission(ms, order, stamp, e, k) >= e,
        forall|j: int| 0 <= j < k && #[trigger] revises_at(ms, order, stamp, e, j)
            ==> arr(ms[order[j] as int]) <= revised_emission(ms, order, stamp, e, k),
    decreases k,
{
    if k > 0 {
        lemma_revised_emission_bounds(ms, order, stamp, e, k - 1);
    }
}

proof fn lemma_last_imu_is_latest(
    ms: Seq<EgoMeasurement>,
    kept: Seq<int>,
    order: Seq<usize>,
    start: int,
    end: int,
    k: int,
)
    requires
        is_replay_order(ms, kept, order),
        0 <= start <= k < end <= order.len(),
        ms[order[k] as int] is Imu,
        forall|j: int| start <= j < end ==> #[trigger] stamp_at(ms, order, j) == stamp_at(ms, order, start),
    ensures
        last_imu_arrival(ms, order, start, end) is Some,
        arr(ms[order[k] as int]) <= last_imu_arrival(ms, order, start, end).unwrap(),
    decreases end - start,
{
    if k < end - 1 {
        assert(stamp_at(ms, order, k) == stamp_at(ms, order, end - 1));
        assert(replay_before(ms, order[k] as int, order[end - 1] as int));
        if !(ms[order[end - 1] as int] is Imu) {
            lemma_last_imu_is_latest(ms, kept, order, start, end - 1, k);
        }
    }
}

/// An emitted estimate is never available before the measurements it reflects have arrived:
/// not before any IMU sample of its step, nor before any kept GPS fix at or before its time.
pub proof fn lemma_emission_after_arrivals(
    ms: Seq<EgoMeasurement>,
    kept: Seq<int>,
    order: Seq<usize>,
    steps: Seq<ReplayStep>,
    s: int,
    k: int,
)
    requires
        is_replay_order(ms, kept, order),
        steps_cover(ms, order, steps, order.len() as int),
        0 <= s < steps.len(),
        steps[s].emission_ns is Some,
        0 <= k < order.len(),
        (ms[order[k] as int] is Imu && steps[s].start <= k < steps[s].end)
            || (ms[order[k] as int] is Gps && meas(ms[order[k] as int]) <= steps[s].stamp_ns),
    ensures
        arr(ms[order[k] as int]) <= steps[s].emission_ns.unwrap(),
{
    let step = steps[s];
    assert(step_emission(ms, order, step));
    let e = last_imu_arrival(ms, order, step.start as int, step.end as int).unwrap();
    lemma_revised_emission_bounds(ms, order, step.stamp_ns, e, order.len() as int);
    if ms[order[k] as int] is Imu && step.start <= k < step.end {
        assert forall|j: int| step.start <= j < step.end implies
            #[trigger] stamp_at(ms, order, j) == stamp_at(ms, order, step.start as int) by {
            assert(stamp_at(ms, order, j) == step.stamp_ns);
            assert(stamp_at(ms, order, step.start as int) == step.stamp_ns);
        }
        lemma_last_imu_is_latest(ms, kept, order, step.start as int, step.end as int, k);
    } else if revises_at(ms, order, step.stamp_ns, e, k) {
    }
}

/// The measurement time of the last IMU sample among the first `i` measurements.
pub open spec fn last_imu_stamp(ms: Seq<EgoMeasurement>, i: int) -> Option<i64>
    decreases i,
{
    if i <= 0 {
        None
    } else if ms[i - 1] is Imu {
        Some(meas(ms[i - 1]))
    } else {
        last_imu_stamp(ms, i - 1)
    }
}

/// In an arrival-time run, measurement `i` is older than the IMU sample processed last.
pub open spec fn arrival_delayed(ms: Seq<EgoMeasurement>, i: int) -> bool {
    match last_imu_stamp(ms, i) {
        None => false,
        Some(latest) => meas(ms[i]) < latest,
    }
}

/// The number of delayed measurements in a run that processes measurements as they arrive.
pub fn arrival_delays(measurements: &Vec<EgoMeasurement>) -> (delayed: usize)
    requires
        all_stamped(measurements@),
    ensures
        delayed == count_where(measurements@.len() as int, |i: int| arrival_delayed(measurements@, i)),
{
    let ghost ms = measurements@;
    let n = measurements.len();
    let mut latest: Option<i64> = None;
    let mut delayed: usize = 0;
    let mut i: usize = 0;
    while i < n
        invariant
            ms == measurements@,
            n == ms.len(),
            all_stamped(ms),
            0 <= i <= n,
            latest == last_imu_stamp(ms, i as int),
            delayed == count_where(i as int, |j: int| arrival_delayed(ms, j)),
            delayed <= i,
        decreases n - i,
    {
        let m = measurements[i];
        let t = m.time();
        let is_late = match latest {
            None => false,
            Some(l) => t.measurement_time_ns < l,
        };
        if is_late {
            delayed = delayed + 1;
        }
        match m {
            EgoMeasurement::Imu(_) => { latest = Some(t.measurement_time_ns); },
            EgoMeasurement::Gps(_) => {},
        }
        i = i + 1;
    }
    delayed
}

/// The result of one GPS update: accepted, gated out, or invalid.
#[derive(Debug, Clone, Copy, PartialEq, Eq, Structural)]
pub enum FixOutcome {
    Applied,
    Rejected,
    Invalid,
}

/// The GPS fix counters of an estimator run.
#[derive(Debug, Clone, Copy, Default, PartialEq, Eq, Structural)]
pub struct GpsFixCounts {
    pub attempted_fixes: usize,
    pub accepted_fixes: usize,
    pub rejected_fixes: usize,
    pub invalid_fixes: usize,
}

impl GpsFixCounts {
    /// Every attempted fix is counted under exactly one outcome.
    pub open spec fn balanced(self) -> bool {
        self.attempted_fixes == self.accepted_fixes + self.rejected_fixes + self.invalid_fixes
    }

    /// No fix seen yet.
    pub fn new() -> (c: Self)
        ensures
            c == (GpsFixCounts { attempted_fixes: 0, accepted_fixes: 0, rejected_fixes: 0, invalid_fixes: 0 }),
            c.balanced(),
    {
        GpsFixCounts { attempted_fixes: 0, accepted_fixes: 0, rejected_fixes: 0, invalid_fixes: 0 }
    }

    /// Counts one more fix under its outcome; a balanced count stays balanced.
    pub fn record(&mut self, outcome: FixOutcome)
        requires
            old(self).attempted_fixes < usize::MAX,
            outcome == FixOutcome::Applied ==> old(self).accepted_fixes < usize::MAX,
            outcome == FixOutcome::Rejected ==> old(self).rejected_fixes < usize::MAX,
            outcome == FixOutcome::Invalid ==> old(self).invalid_fixes < usize::MAX,
        ensures
            final(self).attempted_fixes == old(self).attempted_fixes + 1,
            final(self).accepted_fixes == old(self).accepted_fixes + if outcome == FixOutcome::Applied { 1int } else { 0int },
            final(self).rejected_fixes == old(self).rejected_fixes + if outcome == FixOutcome::Rejected { 1int } else { 0int },
            final(self).invalid_fixes == old(self).invalid_fixes + if outcome == FixOutcome::Invalid { 1int } else { 0int },
            old(self).balanced() ==> final(self).balanced(),
    {
        self.attempted_fixes = self.attempted_fixes + 1;
        match outcome {
            FixOutcome::Applied => self.accepted_fixes = self.accepted_fixes + 1,
            FixOutcome::Rejected => self.rejected_fixes = self.rejected_fixes + 1,
            FixOutcome::Invalid => self.invalid_fixes = self.invalid_fixes + 1,
        }
    }
}

} // verus!
