use std::collections::BTreeMap;
use std::io::Cursor;

use fusion_in_motion::bundle::MeasurementKind;
use fusion_in_motion::external::{
    check_ego_times, check_track_times, finish_ego_rows, finish_track_rows, lines, parse_i64, read_ego_csv,
    read_rows, read_tracks_csv, trim, EgoCsvRow,
};
use fusion_in_motion::mcap_log::{read_ego_truth, read_measurements, read_schema, read_tracks};

fn log(messages: &[(&str, u64, &[u8])]) -> Vec<u8> {
    let mut writer = mcap::Writer::new(Cursor::new(Vec::new())).unwrap();
    let mut channels: BTreeMap<String, u16> = BTreeMap::new();
    for (schema, time, data) in messages {
        let channel = match channels.get(*schema) {
            Some(id) => *id,
            None => {
                let schema_id = writer.add_schema(schema, "protobuf", b"").unwrap();
                let id = writer.add_channel(schema_id, &format!("/{schema}"), "protobuf", &BTreeMap::new()).unwrap();
                channels.insert(schema.to_string(), id);
                id
            }
        };
        writer
            .write_to_known_channel(
                &mcap::records::MessageHeader { channel_id: channel, sequence: 0, log_time: *time, publish_time: *time },
                data,
            )
            .unwrap();
    }
    writer.finish().unwrap();
    writer.into_inner().into_inner()
}

#[test]
fn payloads_are_selected_by_schema_in_log_order() {
    let bytes = log(&[
        ("fusion.EgoTruthState", 1, b"e1"),
        ("fusion.ObjectTruthState", 2, b"o1"),
        ("fusion.EgoTruthState", 3, b"e2"),
    ]);
    assert_eq!(read_ego_truth(&bytes).unwrap(), vec![b"e1".to_vec(), b"e2".to_vec()]);
    assert_eq!(read_schema(&bytes, "fusion.ObjectTruthState").unwrap(), vec![b"o1".to_vec()]);
    assert!(read_tracks(&bytes).unwrap().is_empty());
    assert!(read_ego_truth(b"not an mcap file").is_err());
}

#[test]
fn measurement_log_must_be_in_arrival_order() {
    let ordered = log(&[("fusion.ImuSample", 1, b"i"), ("fusion.GpsFix", 1, b"g"), ("fusion.LidarScan", 5, b"l")]);
    let read = read_measurements(&ordered).unwrap();
    let kinds: Vec<MeasurementKind> = read.iter().map(|m| m.kind).collect();
    assert_eq!(kinds, vec![MeasurementKind::Imu, MeasurementKind::Gps, MeasurementKind::Lidar]);
    assert_eq!(read[2].data, b"l".to_vec());

    let late = log(&[("fusion.ImuSample", 5, b"i"), ("fusion.GpsFix", 4, b"g")]);
    assert_eq!(read_measurements(&late).unwrap_err(), "measurement MCAP is not in arrival order");

    let other = log(&[("fusion.ImuSample", 1, b"i"), ("fusion.Other", 2, b"x")]);
    assert_eq!(read_measurements(&other).unwrap_err(), "unsupported measurement schema fusion.Other");
}

#[test]
fn text_is_split_into_lines_and_trimmed() {
    assert_eq!(lines("a\r\nb\n\nc\n"), vec!["a", "b", "", "c"]);
    assert_eq!(lines("a\r"), vec!["a\r"]);
    assert!(lines("").is_empty());
    assert_eq!(trim("  x y \t"), "x y");
    assert_eq!(trim(" \n "), "");
}

#[test]
fn integers_follow_the_standard_grammar() {
    assert_eq!(parse_i64("42"), Some(42));
    assert_eq!(parse_i64("+7"), Some(7));
    assert_eq!(parse_i64("-9223372036854775808"), Some(i64::MIN));
    assert_eq!(parse_i64("9223372036854775807"), Some(i64::MAX));
    assert_eq!(parse_i64("9223372036854775808"), None);
    assert_eq!(parse_i64("1.5"), None);
    assert_eq!(parse_i64("-"), None);
    assert_eq!(parse_i64(""), None);
    assert_eq!(parse_i64(" 1"), None);
}

#[test]
fn comments_and_blank_lines_are_skipped() {
    let table = read_rows("# produced elsewhere\n\n estimate_time_ns , x_m\n1, 2\n  # note\n3,4\n").unwrap();
    assert_eq!(table.columns, vec!["estimate_time_ns", "x_m"]);
    assert_eq!(table.rows.len(), 2);
    assert_eq!(table.rows[0].line, 4);
    assert_eq!(table.rows[0].fields, vec!["1", "2"]);
    assert_eq!(table.rows[1].line, 6);
    assert_eq!(read_rows("# only a comment\n").unwrap_err(), "CSV is empty");
}

#[test]
fn ego_csv_rows_are_read_in_order() {
    let text = "estimate_time_ns,available_time_ns,x_m,y_m,yaw_rad,vx_mps\n10,,1.0,2.0,0.1,\n20,25,1.5,2.5,0.2,3.0\nbad,1,1,1,1,\n";
    let rows = read_ego_csv(text).unwrap();
    assert_eq!(rows.len(), 3);
    let first = rows[0].as_ref().unwrap();
    assert_eq!(first.estimate_time_ns, 10);
    assert_eq!(first.available_time_ns, 10);
    assert_eq!(first.x_m.as_deref(), Some("1.0"));
    assert_eq!(first.vx_mps, None);
    let second = rows[1].as_ref().unwrap();
    assert_eq!(second.available_time_ns, 25);
    assert_eq!(second.vx_mps.as_deref(), Some("3.0"));
    assert_eq!(rows[2].as_ref().unwrap_err(), "line 4");
    assert_eq!(read_ego_csv("estimate_time_ns,x_m,y_m\n1,2,3\n").unwrap_err(), "ego CSV is missing yaw_rad");
}

#[test]
fn track_csv_rows_are_read_in_order() {
    let text = "estimate_time_ns,track_id,x_m,y_m,vx_mps,vy_mps\n5,t1,1,2,3,4\n,t2,1,2,3,4\n6,,1,2,3,4\n";
    let rows = read_tracks_csv(text).unwrap();
    let first = rows[0].as_ref().unwrap();
    assert_eq!(first.track_id.as_deref(), Some("t1"));
    assert_eq!(first.vy_mps.as_deref(), Some("4"));
    assert_eq!(rows[1].as_ref().unwrap_err(), "missing estimate_time_ns");
    assert_eq!(rows[2].as_ref().unwrap().track_id, None);
    assert_eq!(read_tracks_csv("estimate_time_ns,x_m\n1,2\n").unwrap_err(), "track CSV is missing track_id");
}

#[test]
fn csv_times_must_move_forward() {
    assert_eq!(check_ego_times(&vec![]).unwrap_err(), "ego CSV contains no rows");
    assert_eq!(check_ego_times(&vec![1, 1]).unwrap_err(), "ego CSV times must increase");
    assert!(check_ego_times(&vec![1, 2, 3]).is_ok());
    assert_eq!(check_track_times(&vec![]).unwrap_err(), "track CSV contains no rows");
    assert!(check_track_times(&vec![1, 1, 2]).is_ok());
    assert_eq!(check_track_times(&vec![2, 1]).unwrap_err(), "track CSV times must not go backward");
}

#[test]
fn a_csv_with_a_header_and_no_rows_is_refused() {
    assert_eq!(read_ego_csv("estimate_time_ns,x_m,y_m,yaw_rad\n# nothing yet\n").unwrap_err(), "ego CSV contains no rows");
    assert_eq!(
        read_tracks_csv("estimate_time_ns,track_id,x_m,y_m,vx_mps,vy_mps\n").unwrap_err(),
        "track CSV contains no rows"
    );
    assert_eq!(finish_ego_rows(Vec::new(), &Vec::new()).unwrap_err(), "ego CSV contains no rows");
    assert_eq!(finish_track_rows(Vec::new(), &Vec::new()).unwrap_err(), "track CSV contains no rows");
}

/// The first problem of a row's real-valued fields, as an ego reader finds them.
fn ego_problem(row: &EgoCsvRow) -> Option<String> {
    let mut values = Vec::new();
    for (name, value, required) in [
        ("x_m", &row.x_m, true),
        ("y_m", &row.y_m, true),
        ("yaw_rad", &row.yaw_rad, true),
        ("vx_mps", &row.vx_mps, false),
        ("vy_mps", &row.vy_mps, false),
    ] {
        match value {
            None if required => return Some(format!("missing {name}")),
            None => values.push(0.0),
            Some(text) => match text.parse::<f64>() {
                Ok(v) => values.push(v),
                Err(_) => return Some(format!("invalid {name}")),
            },
        }
    }
    if !values.iter().all(|v| v.is_finite()) {
        return Some(format!("ego CSV line {} contains a non-finite value", row.line));
    }
    None
}

fn ego_problems(rows: &[Result<EgoCsvRow, String>]) -> Vec<Option<String>> {
    rows.iter().map(|row| row.as_ref().ok().and_then(ego_problem)).collect()
}

#[test]
fn ego_csv_reading_stops_at_the_first_bad_row_then_checks_time_order() {
    let good = "estimate_time_ns,x_m,y_m,yaw_rad\n10,1,2,0.1\n20,1,2,0.2\n";
    let rows = read_ego_csv(good).unwrap();
    let problems = ego_problems(&rows);
    let estimates = finish_ego_rows(rows, &problems).unwrap();
    assert_eq!(estimates.iter().map(|row| row.estimate_time_ns).collect::<Vec<_>>(), vec![10, 20]);

    let rows = read_ego_csv("estimate_time_ns,x_m,y_m,yaw_rad\n10,1,2,0.1\n5,1,2,0.2\n").unwrap();
    let problems = ego_problems(&rows);
    assert_eq!(finish_ego_rows(rows, &problems).unwrap_err(), "ego CSV times must increase");

    // The first bad row decides, before the time order is looked at.
    let rows = read_ego_csv("estimate_time_ns,x_m,y_m,yaw_rad\n10,1,2,0.1\n5,x,2,0.2\nbad,1,2,3\n").unwrap();
    let problems = ego_problems(&rows);
    assert_eq!(finish_ego_rows(rows, &problems).unwrap_err(), "invalid x_m");
    let rows = read_ego_csv("estimate_time_ns,x_m,y_m,yaw_rad\n10,1,2,0.1\nbad,1,2,3\n20,inf,2,0.2\n").unwrap();
    let problems = ego_problems(&rows);
    assert_eq!(finish_ego_rows(rows, &problems).unwrap_err(), "line 3");
    let rows = read_ego_csv("estimate_time_ns,x_m,y_m,yaw_rad\n10,inf,2,0.1\n").unwrap();
    let problems = ego_problems(&rows);
    assert_eq!(finish_ego_rows(rows, &problems).unwrap_err(), "ego CSV line 2 contains a non-finite value");
}

#[test]
fn track_csv_reading_stops_at_the_first_bad_row_then_checks_time_order() {
    let header = "estimate_time_ns,track_id,x_m,y_m,vx_mps,vy_mps\n";
    let rows = read_tracks_csv(&format!("{header}5,t1,1,2,3,4\n5,t2,1,2,3,4\n7,t1,1,2,3,4\n")).unwrap();
    let problems = vec![None; rows.len()];
    let tracks = finish_track_rows(rows, &problems).unwrap();
    assert_eq!(tracks.len(), 3);
    assert_eq!(tracks[1].track_id.as_deref(), Some("t2"));

    let rows = read_tracks_csv(&format!("{header}5,t1,1,2,3,4\n4,t1,1,2,3,4\n")).unwrap();
    let problems = vec![None; rows.len()];
    assert_eq!(finish_track_rows(rows, &problems).unwrap_err(), "track CSV times must not go backward");

    // Real-valued fields are checked before the track identifier.
    let rows = read_tracks_csv(&format!("{header}5,,1,2,3,4\n")).unwrap();
    assert_eq!(finish_track_rows(rows, &vec![None]).unwrap_err(), "missing track_id");
    let rows = read_tracks_csv(&format!("{header}5,,1,2,3,nan\n")).unwrap();
    let problems = vec![Some("track CSV line 2 contains a non-finite value".to_string())];
    assert_eq!(finish_track_rows(rows, &problems).unwrap_err(), "track CSV line 2 contains a non-finite value");
    let rows = read_tracks_csv(&format!("{header}9,t1,1,2,3,4\n,t1,1,2,3,4\n")).unwrap();
    assert_eq!(finish_track_rows(rows, &vec![None, None]).unwrap_err(), "missing estimate_time_ns");
}

#[test]
fn measurement_log_problems_are_reported_in_stream_order() {
    // A damaged end is reported only after the messages before it have been checked.
    let late = log(&[("fusion.ImuSample", 5, b"i"), ("fusion.GpsFix", 4, b"g")]);
    let truncated = &late[..late.len() - 4];
    assert_eq!(read_measurements(truncated).unwrap_err(), "measurement MCAP is not in arrival order");

    let ordered = log(&[("fusion.ImuSample", 1, b"i"), ("fusion.GpsFix", 2, b"g")]);
    let truncated = &ordered[..ordered.len() - 4];
    let error = read_measurements(truncated).unwrap_err();
    assert_ne!(error, "measurement MCAP is not in arrival order");
    assert!(read_ego_truth(truncated).is_err());
}
