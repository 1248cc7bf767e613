//! Reading the run bundle's MCAP logs: the messages of a log, the payloads logged under one
//! schema, and the measurement log with its arrival-order and schema checks.

use vstd::prelude::*;

use crate::bundle::{kind_of_schema, schema_of, MeasurementKind};

verus! {

/// One message of a log: the name of its channel's schema (if any), its log time and its
/// payload.
#[derive(Debug, Clone)]
pub struct LoggedMessage {
    pub schema: Option<String>,
    pub log_time: u64,
    pub data: Vec<u8>,
}

/// A logged message as plain values.
pub type LoggedView = (Option<Seq<char>>, u64, Seq<u8>);

impl LoggedMessage {
    pub open spec fn view_of(&self) -> LoggedView {
        (
            match self.schema {
                Some(s) => Some(s@),
                None => None,
            },
            self.log_time,
            self.data@,
        )
    }
}

/// The plain values of each message.
pub open spec fn logged_views(ms: Seq<LoggedMessage>) -> Seq<LoggedView> {
    ms.map_values(|m: LoggedMessage| m.view_of())
}

/// What reading an MCAP file as a stream yields: the messages read, in stream order, up to its
/// end or to the first error the stream reports, and whether it reported one.
pub uninterp spec fn mcap_messages_of(bytes: Seq<u8>) -> (Seq<LoggedView>, bool);

/// Reads the messages of an MCAP file with `mcap::MessageStream`, stopping at the first error.
/// Trusted: the messages read (schema name, log time, payload) and whether an error stopped
/// the stream depend on the bytes alone. The error text, mcap's own, is left unsaid.
#[verifier::external_body]
pub(crate) fn mcap_messages(bytes: &[u8]) -> (r: (Vec<LoggedMessage>, Option<String>))
    ensures
        mcap_messages_of(bytes@) == (logged_views(r.0@), r.1 is Some),
{
    let mut messages = Vec::new();
    let stream = match mcap::MessageStream::new(bytes) {
        Ok(stream) => stream,
        Err(error) => return (messages, Some(error.to_string())),
    };
    for item in stream {
        let message = match item {
            Ok(message) => message,
            Err(error) => return (messages, Some(error.to_string())),
        };
        let schema = message.channel.schema.as_ref().map(|schema| schema.name.clone());
        messages.push(LoggedMessage { schema, log_time: message.log_time, data: message.data.into_owned() });
    }
    (messages, None)
}

/// The payloads of the messages logged under `schema`, in order.
pub open spec fn payloads_with_schema(ms: Seq<LoggedView>, schema: Seq<char>) -> Seq<Seq<u8>>
    decreases ms.len(),
{
    if ms.len() == 0 {
        Seq::empty()
    } else {
        let rest = payloads_with_schema(ms.drop_last(), schema);
        if ms.last().0 == Some(schema) { rest.push(ms.last().2) } else { rest }
    }
}

/// The byte contents of each payload.
pub open spec fn payload_views(ps: Seq<Vec<u8>>) -> Seq<Seq<u8>> {
    ps.map_values(|p: Vec<u8>| p@)
}

fn copy_bytes(bytes: &Vec<u8>) -> (r: Vec<u8>)
    ensures
        r@ == bytes@,
{
    let mut r: Vec<u8> = Vec::new();
    let mut i: usize = 0;
    while i < bytes.len()
        invariant
            0 <= i <= bytes@.len(),
            r@ == bytes@.take(i as int),
        decreases bytes@.len() - i,
    {
        r.push(bytes[i]);
        i = i + 1;
        assert(r@ =~= bytes@.take(i as int));
    }
    assert(bytes@.take(bytes@.len() as int) =~= bytes@);
    r
}

/// The payloads logged under `expected` in an MCAP file, in order.
pub fn read_schema(bytes: &[u8], expected: &str) -> (r: Result<Vec<Vec<u8>>, String>)
    ensures
        r is Err <==> mcap_messages_of(bytes@).1,
        r matches Ok(ps) ==> payload_views(ps@) == payloads_with_schema(mcap_messages_of(bytes@).0, expected@),
{
    let (messages, failure) = mcap_messages(bytes);
    if let Some(error) = failure {
        return Err(error);
    }
    let ghost views = logged_views(messages@);
    let wanted = String::from_str(expected);
    let mut payloads: Vec<Vec<u8>> = Vec::new();
    let mut i: usize = 0;
    while i < messages.len()
        invariant
            views == logged_views(messages@),
            wanted@ == expected@,
            0 <= i <= messages@.len(),
            payload_views(payloads@) == payloads_with_schema(views.take(i as int), expected@),
        decreases messages@.len() - i,
    {
        let m = &messages[i];
        proof {
            assert(views.take(i + 1).drop_last() =~= views.take(i as int));
            assert(views.take(i + 1).last() == m.view_of());
        }
        let matches = match &m.schema {
            Some(name) => *name == wanted,
            None => false,
        };
        if matches {
            let ghost before = payload_views(payloads@);
            payloads.push(copy_bytes(&m.data));
            assert(payload_views(payloads@) =~= before.push(m.data@));
        }
        i = i + 1;
    }
    assert(views.take(messages@.len() as int) =~= views);
    Ok(payloads)
}

/// The ego truth states logged in a truth file (encoded payloads, in order).
pub fn read_ego_truth(bytes: &[u8]) -> (r: Result<Vec<Vec<u8>>, String>)
    ensures
        r is Err <==> mcap_messages_of(bytes@).1,
        r matches Ok(ps) ==> payload_views(ps@) == payloads_with_schema(mcap_messages_of(bytes@).0, "fusion.EgoTruthState"@),
{
    read_schema(bytes, "fusion.EgoTruthState")
}

/// The object truth states logged in a truth file (encoded payloads, in order).
pub fn read_object_truth(bytes: &[u8]) -> (r: Result<Vec<Vec<u8>>, String>)
    ensures
        r is Err <==> mcap_messages_of(bytes@).1,
        r matches Ok(ps) ==> payload_views(ps@) == payloads_with_schema(mcap_messages_of(bytes@).0, "fusion.ObjectTruthState"@),
{
    read_schema(bytes, "fusion.ObjectTruthState")
}

/// The IMU bias truth logged in a truth file (encoded payloads, in order).
pub fn read_imu_bias_truth(bytes: &[u8]) -> (r: Result<Vec<Vec<u8>>, String>)
    ensures
        r is Err <==> mcap_messages_of(bytes@).1,
        r matches Ok(ps) ==> payload_views(ps@) == payloads_with_schema(mcap_messages_of(bytes@).0, "fusion.ImuBiasTruth"@),
{
    read_schema(bytes, "fusion.ImuBiasTruth")
}

/// The ego state estimates logged in an estimate file (encoded payloads, in order).
pub fn read_ego_estimates(bytes: &[u8]) -> (r: Result<Vec<Vec<u8>>, String>)
    ensures
        r is Err <==> mcap_messages_of(bytes@).1,
        r matches Ok(ps) ==> payload_views(ps@) == payloads_with_schema(mcap_messages_of(bytes@).0, "fusion.EgoStateEstimate"@),
{
    read_schema(bytes, "fusion.EgoStateEstimate")
}

/// The object tracks logged in a track file (encoded payloads, in order).
pub fn read_tracks(bytes: &[u8]) -> (r: Result<Vec<Vec<u8>>, String>)
    ensures
        r is Err <==> mcap_messages_of(bytes@).1,
        r matches Ok(ps) ==> payload_views(ps@) == payloads_with_schema(mcap_messages_of(bytes@).0, "fusion.ObjectTrack"@),
{
    read_schema(bytes, "fusion.ObjectTrack")
}

/// A logged measurement: its kind and its encoded payload.
#[derive(Debug, Clone)]
pub struct LoggedMeasurement {
    pub kind: MeasurementKind,
    pub data: Vec<u8>,
}

/// The measurements of the first `n` messages of a measurement log, or the first problem:
/// a message logged before its predecessor, a channel without schema, or a schema that is
/// not a measurement's.
pub open spec fn measurement_read(ms: Seq<LoggedView>, n: int) -> Result<Seq<(MeasurementKind, Seq<u8>)>, Seq<char>>
    decreases n,
{
    if n <= 0 {
        Ok(Seq::empty())
    } else {
        match measurement_read(ms, n - 1) {
            Err(e) => Err(e),
            Ok(read) => {
                let m = ms[n - 1];
                if n >= 2 && m.1 < ms[n - 2].1 {
                    Err("measurement MCAP is not in arrival order"@)
                } else {
                    match m.0 {
                        None => Err("measurement channel has no schema"@),
                        Some(schema) => if exists|k: MeasurementKind| schema_of(k) == schema {
                            Ok(read.push((choose|k: MeasurementKind| schema_of(k) == schema, m.2)))
                        } else {
                            Err("unsupported measurement schema "@ + schema)
                        },
                    }
                }
            },
        }
    }
}

/// The kind and payload bytes of each measurement.
pub open spec fn measurement_views(ms: Seq<LoggedMeasurement>) -> Seq<(MeasurementKind, Seq<u8>)> {
    ms.map_values(|m: LoggedMeasurement| (m.kind, m.data@))
}

proof fn lemma_schema_of_injective(a: MeasurementKind, b: MeasurementKind)
    requires
        schema_of(a) == schema_of(b),
    ensures
        a == b,
{
    reveal_strlit("fusion.ImuSample");
    reveal_strlit("fusion.GpsFix");
    reveal_strlit("fusion.CameraFrame");
    reveal_strlit("fusion.LidarScan");
    let (sa, sb) = (schema_of(a), schema_of(b));
    assert(sa.len() == sb.len() ==> sa[7] == sb[7]);
    match a {
        MeasurementKind::Imu => { assert(sa[7] == 'I'); },
        MeasurementKind::Gps => { assert(sa[7] == 'G'); },
        MeasurementKind::Camera => { assert(sa[7] == 'C'); },
        MeasurementKind::Lidar => { assert(sa[7] == 'L'); },
    }
    match b {
        MeasurementKind::Imu => { assert(sb[7] == 'I'); },
        MeasurementKind::Gps => { assert(sb[7] == 'G'); },
        MeasurementKind::Camera => { assert(sb[7] == 'C'); },
        MeasurementKind::Lidar => { assert(sb[7] == 'L'); },
    }
}

proof fn lemma_measurement_read_stops(ms: Seq<LoggedView>, m: int, n: int)
    requires
        0 <= m <= n,
    ensures
        measurement_read(ms, m) is Err ==> measurement_read(ms, n) == measurement_read(ms, m),
    decreases n - m,
{
    if m < n {
        lemma_measurement_read_stops(ms, m, n - 1);
    }
}

/// The measurements of a measurement log, in order, each with its kind. Messages are checked in
/// stream order: the first one out of arrival order or of another schema fails the read; a
/// stream error fails it when it comes before any such message.
pub fn read_measurements(bytes: &[u8]) -> (r: Result<Vec<LoggedMeasurement>, String>)
    ensures
        match measurement_read(mcap_messages_of(bytes@).0, mcap_messages_of(bytes@).0.len() as int) {
            Err(e) => r matches Err(x) && x@ == e,
            Ok(read) => if mcap_messages_of(bytes@).1 {
                r is Err
            } else {
                r matches Ok(v) && measurement_views(v@) == read
            },
        },
{
    let (messages, failure) = mcap_messages(bytes);
    let ghost views = logged_views(messages@);
    let mut out: Vec<LoggedMeasurement> = Vec::new();
    let mut i: usize = 0;
    assert(measurement_views(out@) =~= Seq::<(MeasurementKind, Seq<u8>)>::empty());
    while i < messages.len()
        invariant
            views == logged_views(messages@),
            mcap_messages_of(bytes@) == (views, failure is Some),
            0 <= i <= messages@.len(),
            measurement_read(views, i as int) == Ok::<Seq<(MeasurementKind, Seq<u8>)>, Seq<char>>(measurement_views(out@)),
        decreases messages@.len() - i,
    {
        let m = &messages[i];
        assert(views[i as int] == m.view_of());
        if i > 0 && m.log_time < messages[i - 1].log_time {
            proof {
                reveal_strlit("measurement MCAP is not in arrival order");
                assert(views[i - 1] == messages@[i - 1].view_of());
                assert(measurement_read(views, i + 1)
                    == Err::<Seq<(MeasurementKind, Seq<u8>)>, Seq<char>>("measurement MCAP is not in arrival order"@));
                lemma_measurement_read_stops(views, i + 1, views.len() as int);
            }
            return Err(String::from_str("measurement MCAP is not in arrival order"));
        }
        let kind = match &m.schema {
            None => {
                proof {
                    reveal_strlit("measurement channel has no schema");
                    assert(measurement_read(views, i + 1)
                        == Err::<Seq<(MeasurementKind, Seq<u8>)>, Seq<char>>("measurement channel has no schema"@));
                    lemma_measurement_read_stops(views, i + 1, views.len() as int);
                }
                return Err(String::from_str("measurement channel has no schema"));
            },
            Some(name) => match kind_of_schema(name.as_str()) {
                Ok(k) => {
                    proof {
                        let c = choose|c: MeasurementKind| schema_of(c) == name@;
                        lemma_schema_of_injective(c, k);
                    }
                    k
                },
                Err(e) => {
                    proof {
                        assert(measurement_read(views, i + 1)
                            == Err::<Seq<(MeasurementKind, Seq<u8>)>, Seq<char>>(e@));
                        lemma_measurement_read_stops(views, i + 1, views.len() as int);
                    }
                    return Err(e);
                },
            },
        };
        let ghost before = measurement_views(out@);
        out.push(LoggedMeasurement { kind, data: copy_bytes(&m.data) });
        assert(measurement_views(out@) =~= before.push((kind, m.data@)));
        i = i + 1;
    }
    match failure {
        Some(error) => Err(error),
        None => Ok(out),
    }
}

} // verus!
