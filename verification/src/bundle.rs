//! The run bundle's measurement log: record kinds, their schemas and topics, message headers,
//! and the checks made when the log is read back.

use vstd::prelude::*;

use crate::ego_timing::MeasurementTime;
use crate::ids::decimal_digits;
use crate::ids::push_padded_decimal;
use crate::text::string_views;

verus! {

/// The kind of a logged measurement.
#[derive(Debug, Clone, Copy, PartialEq, Eq)]
pub enum MeasurementKind {
    Imu,
    Gps,
    Camera,
    Lidar,
}

/// A logged measurement, as far as its kind and time stamp are concerned.
#[derive(Debug, Clone, Copy, PartialEq, Eq)]
pub enum MeasurementRecord {
    Imu(Option<MeasurementTime>),
    Gps(Option<MeasurementTime>),
    Camera(Option<MeasurementTime>),
    Lidar(Option<MeasurementTime>),
}

impl MeasurementRecord {
    /// The time stamp the record carries, if any.
    pub open spec fn stamp(&self) -> Option<MeasurementTime> {
        match self {
            MeasurementRecord::Imu(t) => *t,
            MeasurementRecord::Gps(t) => *t,
            MeasurementRecord::Camera(t) => *t,
            MeasurementRecord::Lidar(t) => *t,
        }
    }

    /// The record's time stamp.
    pub fn time(&self) -> (t: MeasurementTime)
        requires
            self.stamp() is Some,
        ensures
            t == self.stamp().unwrap(),
    {
        match self {
            MeasurementRecord::Imu(t) => t.unwrap(),
            MeasurementRecord::Gps(t) => t.unwrap(),
            MeasurementRecord::Camera(t) => t.unwrap(),
            MeasurementRecord::Lidar(t) => t.unwrap(),
        }
    }

    /// The record's kind.
    pub fn kind(&self) -> (k: MeasurementKind)
        ensures
            self is Imu ==> k == MeasurementKind::Imu,
            self is Gps ==> k == MeasurementKind::Gps,
            self is Camera ==> k == MeasurementKind::Camera,
            self is Lidar ==> k == MeasurementKind::Lidar,
    {
        match self {
            MeasurementRecord::Imu(_) => MeasurementKind::Imu,
            MeasurementRecord::Gps(_) => MeasurementKind::Gps,
            MeasurementRecord::Camera(_) => MeasurementKind::Camera,
            MeasurementRecord::Lidar(_) => MeasurementKind::Lidar,
        }
    }
}

/// The protobuf schema name of a measurement kind.
pub open spec fn schema_of(kind: MeasurementKind) -> Seq<char> {
    match kind {
        MeasurementKind::Imu => "fusion.ImuSample"@,
        MeasurementKind::Gps => "fusion.GpsFix"@,
        MeasurementKind::Camera => "fusion.CameraFrame"@,
        MeasurementKind::Lidar => "fusion.LidarScan"@,
    }
}

/// The log topic of a measurement kind.
pub open spec fn topic_of(kind: MeasurementKind) -> Seq<char> {
    match kind {
        MeasurementKind::Imu => "/measurement/imu"@,
        MeasurementKind::Gps => "/measurement/gps"@,
        MeasurementKind::Camera => "/measurement/camera"@,
        MeasurementKind::Lidar => "/measurement/lidar"@,
    }
}

/// The protobuf schema name under which a measurement kind is logged.
pub fn schema_name(kind: MeasurementKind) -> (s: &'static str)
    ensures
        s@ == schema_of(kind),
{
    proof {
        reveal_strlit("fusion.ImuSample");
        reveal_strlit("fusion.GpsFix");
        reveal_strlit("fusion.CameraFrame");
        reveal_strlit("fusion.LidarScan");
    }
    match kind {
        MeasurementKind::Imu => "fusion.ImuSample",
        MeasurementKind::Gps => "fusion.GpsFix",
        MeasurementKind::Camera => "fusion.CameraFrame",
        MeasurementKind::Lidar => "fusion.LidarScan",
    }
}

/// The topic on which a measurement kind is logged.
pub fn topic(kind: MeasurementKind) -> (s: &'static str)
    ensures
        s@ == topic_of(kind),
{
    proof {
        reveal_strlit("/measurement/imu");
        reveal_strlit("/measurement/gps");
        reveal_strlit("/measurement/camera");
        reveal_strlit("/measurement/lidar");
    }
    match kind {
        MeasurementKind::Imu => "/measurement/imu",
        MeasurementKind::Gps => "/measurement/gps",
        MeasurementKind::Camera => "/measurement/camera",
        MeasurementKind::Lidar => "/measurement/lidar",
    }
}

/// The measurement kind logged under `schema`, or an error for any other schema.
pub fn kind_of_schema(schema: &str) -> (r: Result<MeasurementKind, String>)
    ensures
        r matches Ok(k) ==> schema_of(k) == schema@,
        r is Err <==> (forall|k: MeasurementKind| schema_of(k) != schema@),
        r matches Err(e) ==> e@ == "unsupported measurement schema "@ + schema@,
{
    let s = String::from_str(schema);
    proof {
        reveal_strlit("fusion.ImuSample");
        reveal_strlit("fusion.GpsFix");
        reveal_strlit("fusion.CameraFrame");
        reveal_strlit("fusion.LidarScan");
    }
    if s == String::from_str("fusion.ImuSample") {
        assert(schema_of(MeasurementKind::Imu) == schema@);
        return Ok(MeasurementKind::Imu);
    }
    if s == String::from_str("fusion.GpsFix") {
        assert(schema_of(MeasurementKind::Gps) == schema@);
        return Ok(MeasurementKind::Gps);
    }
    if s == String::from_str("fusion.CameraFrame") {
        assert(schema_of(MeasurementKind::Camera) == schema@);
        return Ok(MeasurementKind::Camera);
    }
    if s == String::from_str("fusion.LidarScan") {
        assert(schema_of(MeasurementKind::Lidar) == schema@);
        return Ok(MeasurementKind::Lidar);
    }
    let mut message = String::from_str("unsupported measurement schema ");
    message.append(schema);
    proof { reveal_strlit("unsupported measurement schema "); }
    assert forall|k: MeasurementKind| schema_of(k) != schema@ by {
        match k {
            MeasurementKind::Imu => {},
            MeasurementKind::Gps => {},
            MeasurementKind::Camera => {},
            MeasurementKind::Lidar => {},
        }
    }
    Err(message)
}

/// The log times never decrease.
pub open spec fn log_times_ordered(times: Seq<u64>) -> bool {
    forall|i: int, j: int| 0 <= i < j < times.len() ==> #[trigger] times[i] <= #[trigger] times[j]
}

/// Checks that a measurement log is in arrival order: each message is logged no earlier than
/// the one before it.
pub fn check_log_order(log_times: &Vec<u64>) -> (r: Result<(), String>)
    ensures
        r is Ok <==> log_times_ordered(log_times@),
        r matches Err(e) ==> e@ == "measurement MCAP is not in arrival order"@,
{
    let n = log_times.len();
    let mut i: usize = 1;
    if n == 0 {
        return Ok(());
    }
    while i < n
        invariant
            n == log_times@.len(),
            1 <= i <= n,
            log_times_ordered(log_times@.take(i as int)),
            forall|j: int| 0 <= j < i ==> #[trigger] log_times@[j] <= log_times@[i - 1],
        decreases n - i,
    {
        if log_times[i] < log_times[i - 1] {
            proof { reveal_strlit("measurement MCAP is not in arrival order"); }
            assert(log_times@[i - 1] > log_times@[i as int]);
            return Err(String::from_str("measurement MCAP is not in arrival order"));
        }
        proof {
            let t = log_times@.take(i + 1);
            assert forall|a: int, b: int| 0 <= a < b < t.len() implies #[trigger] t[a] <= #[trigger] t[b] by {
                if b < i {
                    assert(log_times@.take(i as int)[a] == t[a]);
                    assert(log_times@.take(i as int)[b] == t[b]);
                }
            }
        }
        i = i + 1;
    }
    assert(log_times@.take(n as int) == log_times@);
    Ok(())
}

/// The header of one logged message.
#[derive(Debug, Clone, Copy, PartialEq, Eq)]
pub struct RecordHeader {
    pub channel_id: u16,
    pub sequence: u32,
    pub log_time: u64,
    pub publish_time: u64,
}

/// The header for a message logged at `log_time_ns` and published at `publish_time_ns`;
/// the log stores unsigned times, so negative times are refused.
pub fn message_header(channel_id: u16, sequence: u32, log_time_ns: i64, publish_time_ns: i64) -> (r: Result<RecordHeader, String>)
    ensures
        r is Ok <==> log_time_ns >= 0 && publish_time_ns >= 0,
        r matches Ok(h) ==> h == (RecordHeader {
            channel_id,
            sequence,
            log_time: log_time_ns as u64,
            publish_time: publish_time_ns as u64,
        }),
        r matches Err(e) ==> e@ == "MCAP times must be nonnegative"@,
{
    if log_time_ns < 0 || publish_time_ns < 0 {
        proof { reveal_strlit("MCAP times must be nonnegative"); }
        return Err(String::from_str("MCAP times must be nonnegative"));
    }
    Ok(RecordHeader {
        channel_id,
        sequence,
        log_time: log_time_ns as u64,
        publish_time: publish_time_ns as u64,
    })
}

/// The topic of the ego estimates named `name`: `/estimate/ego/<name>`.
pub fn estimate_topic(name: &str) -> (t: String)
    ensures
        t@ == "/estimate/ego/"@ + name@,
{
    let mut t = String::from_str("/estimate/ego/");
    t.append(name);
    proof { reveal_strlit("/estimate/ego/"); }
    t
}

/// The topic of the object tracks named `name`: `/track/object/<name>`.
pub fn track_topic(name: &str) -> (t: String)
    ensures
        t@ == "/track/object/"@ + name@,
{
    let mut t = String::from_str("/track/object/");
    t.append(name);
    proof { reveal_strlit("/track/object/"); }
    t
}

/// The file holding the object tracks named `name`: `<name>.mcap`.
pub fn track_file_name(name: &str) -> (f: String)
    ensures
        f@ == name@ + ".mcap"@,
{
    let mut f = String::from_str(name);
    f.append(".mcap");
    proof { reveal_strlit(".mcap"); }
    f
}

/// The name of the `number`-th run directory: `run` and the number with at least three
/// digits (`run001`, `run002`, ...).
pub fn run_directory_name(number: u64) -> (name: String)
    ensures
        name@ == "run"@ + crate::ids::padded_decimal(number as nat, 3),
{
    let mut name = String::from_str("run");
    proof { reveal_strlit("run"); }
    push_padded_decimal(&mut name, number, 3);
    name
}

/// Different run numbers name different run directories.
pub proof fn lemma_run_directory_names_distinct(n: nat, m: nat)
    requires
        n != m,
    ensures
        "run"@ + crate::ids::padded_decimal(n, 3) != "run"@ + crate::ids::padded_decimal(m, 3),
{
    let prefix = "run"@;
    let a = prefix + crate::ids::padded_decimal(n, 3);
    let b = prefix + crate::ids::padded_decimal(m, 3);
    if a == b {
        assert(crate::ids::padded_decimal(n, 3) =~= a.subrange(prefix.len() as int, a.len() as int));
        assert(crate::ids::padded_decimal(m, 3) =~= b.subrange(prefix.len() as int, b.len() as int));
        crate::ids::lemma_padded_decimal_injective(n, m, 3);
    }
}

/// The name of the `n`-th run directory.
pub open spec fn run_name(n: nat) -> Seq<char> {
    "run"@ + crate::ids::padded_decimal(n, 3)
}

/// Whether `name` is among `taken`.
fn name_taken(taken: &Vec<String>, name: &String) -> (b: bool)
    ensures
        b == string_views(taken@).contains(name@),
{
    let ghost views = string_views(taken@);
    let mut i: usize = 0;
    while i < taken.len()
        invariant
            views == string_views(taken@),
            0 <= i <= taken@.len(),
            forall|j: int| 0 <= j < i ==> #[trigger] views[j] != name@,
        decreases taken@.len() - i,
    {
        assert(views[i as int] == taken@[i as int]@);
        if taken[i] == *name {
            assert(views[i as int] == name@);
            return true;
        }
        i = i + 1;
    }
    false
}

/// A root that holds the directories of runs one to `m` holds at least `m` entries.
proof fn lemma_taken_run_names_bound(taken: Seq<Seq<char>>, m: nat)
    requires
        forall|k: nat| 1 <= k <= m ==> taken.contains(#[trigger] run_name(k)),
    ensures
        m <= taken.len(),
{
    let names = Seq::new(m, |i: int| run_name((i + 1) as nat));
    assert forall|i: int, j: int| 0 <= i < names.len() && 0 <= j < names.len() && i != j implies names[i] != names[j] by {
        lemma_run_directory_names_distinct((i + 1) as nat, (j + 1) as nat);
    }
    names.unique_seq_to_set();
    assert forall|x: Seq<char>| names.to_set().contains(x) implies taken.to_set().contains(x) by {
        let i = choose|i: int| 0 <= i < names.len() && names[i] == x;
        assert(taken.contains(run_name((i + 1) as nat)));
    }
    vstd::seq_lib::seq_to_set_is_finite(taken);
    taken.lemma_cardinality_of_set();
    vstd::set_lib::lemma_len_subset(names.to_set(), taken.to_set());
}

/// The number of the next run directory under a root whose entries are named `taken`: the
/// smallest number from one whose directory name (`run001`, `run002`, ...) is not taken.
pub fn first_free_run_number(taken: &Vec<String>) -> (n: u64)
    requires
        taken@.len() < u64::MAX,
    ensures
        1 <= n,
        !string_views(taken@).contains(run_name(n as nat)),
        forall|k: nat| 1 <= k < n ==> string_views(taken@).contains(#[trigger] run_name(k)),
{
    let ghost views = string_views(taken@);
    let mut n: u64 = 1;
    loop
        invariant
            views == string_views(taken@),
            taken@.len() < u64::MAX,
            1 <= n <= taken@.len() + 1,
            forall|k: nat| 1 <= k < n ==> views.contains(#[trigger] run_name(k)),
        decreases taken@.len() + 1 - n,
    {
        let name = run_directory_name(n);
        if !name_taken(taken, &name) {
            return n;
        }
        proof {
            assert(views.contains(run_name(n as nat)));
            lemma_taken_run_names_bound(views, n as nat);
        }
        n = n + 1;
    }
}

} // verus!
