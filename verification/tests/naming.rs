use fusion_in_motion::bundle::{
    check_log_order, estimate_topic, first_free_run_number, kind_of_schema, message_header, run_directory_name, schema_name,
    topic, track_file_name, track_topic, MeasurementKind, MeasurementRecord, RecordHeader,
};
use fusion_in_motion::coordinates::{state_names, StateIndex, TrackCoordinate};
use fusion_in_motion::ego_timing::MeasurementTime;
use fusion_in_motion::fingerprint::sha256;
use fusion_in_motion::random::DeterministicRandom;
use fusion_in_motion::text::is_blank;
use fusion_in_motion::runs::{check_estimator_id, default_visualization_path, estimate_relative_path, path_within, report_relative_path};
use fusion_in_motion::sweep::{
    case_count, case_id, case_run_id, expand_parameters, split_path, sweep_warnings, validate_spec,
};
use fusion_in_motion::sweep_groups::{group_by_key, group_counts, GroupCounts};

#[test]
fn draws_are_repeatable_and_named() {
    let random = DeterministicRandom::new(42);
    // A normal draw `n` uses the uniform draws `2n` and `2n + 1`.
    for draw in [2, 3] {
        assert_eq!(random.draw_bits("imu", 3, "noise", "", draw), random.draw_bits("imu", 3, "noise", "", draw));
        assert_ne!(random.draw_bits("imu", 3, "noise", "", draw), random.draw_bits("imu", 3, "bias", "", draw));
    }
    assert_ne!(
        random.draw_bits("camera", 3, "noise", "landmark-a", 0),
        random.draw_bits("camera", 3, "noise", "landmark-b", 0)
    );
}

#[test]
fn draw_names_are_length_prefixed() {
    let random = DeterministicRandom::new(1);
    let key = random.draw_name("ab", 2, "c", "", 7);
    let mut expected = b"fusion-deterministic-random-1".to_vec();
    expected.extend_from_slice(&1u64.to_le_bytes());
    expected.extend_from_slice(&2u64.to_le_bytes());
    expected.extend_from_slice(b"ab");
    expected.extend_from_slice(&2u64.to_le_bytes());
    expected.extend_from_slice(&1u64.to_le_bytes());
    expected.extend_from_slice(b"c");
    expected.extend_from_slice(&0u64.to_le_bytes());
    expected.extend_from_slice(&7u64.to_le_bytes());
    assert_eq!(key, expected);
    // The same parts split differently give a different name.
    assert_ne!(random.draw_name("a", 2, "bc", "", 7), key);
}

#[test]
fn sha256_is_written_as_lowercase_hex() {
    assert_eq!(sha256(b"abc"), "ba7816bf8f01cfea414140de5dae2223b00361a396177a9cb410ff61f20015ad");
    assert_eq!(sha256(b""), "e3b0c44298fc1c149afbf4c8996fb92427ae41e4649b934ca495991b7852b855");
}

#[test]
fn parameter_expansion_is_a_cartesian_product() {
    let expanded = expand_parameters(&vec![2, 2]);
    assert_eq!(expanded.len(), 4);
    assert!(expanded.iter().all(|case| case.len() == 2));
    assert_eq!(expanded, vec![vec![0, 0], vec![0, 1], vec![1, 0], vec![1, 1]]);
    assert_eq!(expand_parameters(&vec![]), vec![Vec::<usize>::new()]);
    assert_eq!(expand_parameters(&vec![3, 0]).len(), 0);
}

#[test]
fn sweep_specifications_are_checked_in_order() {
    let paths = vec!["camera.rate_hz".to_owned(), "root_seed".to_owned()];
    assert_eq!(validate_spec("  ", 1, &paths, &vec![1, 1]).unwrap_err(), "sweep name must not be empty");
    assert_eq!(validate_spec("s", 0, &paths, &vec![1, 1]).unwrap_err(), "sweep must contain at least one seed");
    assert_eq!(validate_spec("s", 1, &paths, &vec![1, 1]).unwrap_err(), "root_seed is managed by the sweep runner");
    assert_eq!(
        validate_spec("s", 1, &paths, &vec![0, 1]).unwrap_err(),
        "sweep parameter camera.rate_hz has no values"
    );
    assert_eq!(
        validate_spec("s", 1, &vec![" ".to_owned()], &vec![1]).unwrap_err(),
        "sweep parameter path must not be empty"
    );
    assert!(validate_spec("s", 2, &vec!["camera.rate_hz".to_owned()], &vec![2]).is_ok());
    assert!(is_blank("\t \n"));
    assert!(!is_blank(" x "));
}

#[test]
fn sweep_cases_are_counted_and_named() {
    assert_eq!(case_count(4, 3), Ok(12));
    assert_eq!(case_count(10_001, 1).unwrap_err(), "sweep expands to 10001 cases; maximum is 10000");
    assert_eq!(case_count(usize::MAX, 2).unwrap_err(), "sweep case count overflow");
    assert_eq!(case_id(7), "case-0007");
    assert_eq!(case_id(12345), "case-12345");
    assert_eq!(case_run_id("lesson", "case-0002", 42), "lesson-case-0002-seed-42");
    assert_eq!(sweep_warnings(1).len(), 1);
    assert!(sweep_warnings(2).is_empty());
}

#[test]
fn dotted_parameter_paths_split_into_parts() {
    assert_eq!(split_path("trajectory.0.yaw_rate_radps"), vec!["trajectory", "0", "yaw_rate_radps"]);
    assert_eq!(split_path("camera"), vec!["camera"]);
    assert_eq!(split_path("a..b"), vec!["a", "", "b"]);
    assert_eq!(split_path(""), vec![""]);
}

#[test]
fn run_directories_are_numbered_with_three_digits() {
    assert_eq!(run_directory_name(1), "run001");
    assert_eq!(run_directory_name(2), "run002");
    assert_eq!(run_directory_name(1234), "run1234");
}

#[test]
fn estimator_ids_are_checked_before_naming_outputs() {
    assert!(check_estimator_id("my-filter_2").is_ok());
    assert_eq!(
        check_estimator_id("").unwrap_err(),
        "estimator ID must contain only ASCII letters, numbers, '-' and '_'"
    );
    assert!(check_estimator_id("../x").is_err());
    assert!(check_estimator_id("é").is_err());
    assert_eq!(estimate_relative_path("ekf"), "estimates/ekf.mcap");
    assert_eq!(report_relative_path("ekf"), "reports/ekf");
    assert_eq!(default_visualization_path("runs/run001"), "runs/run001/reports/baseline/visualization.rrd");
    assert_eq!(default_visualization_path("out/"), "out/reports/baseline/visualization.rrd");
    assert_eq!(path_within("", "a"), "a");
}

#[test]
fn measurement_log_names_and_checks() {
    assert_eq!(schema_name(MeasurementKind::Gps), "fusion.GpsFix");
    assert_eq!(topic(MeasurementKind::Lidar), "/measurement/lidar");
    assert_eq!(kind_of_schema("fusion.CameraFrame"), Ok(MeasurementKind::Camera));
    assert_eq!(kind_of_schema("fusion.Other").unwrap_err(), "unsupported measurement schema fusion.Other");
    assert!(check_log_order(&vec![1, 1, 5]).is_ok());
    assert_eq!(check_log_order(&vec![2, 1]).unwrap_err(), "measurement MCAP is not in arrival order");
    assert_eq!(
        message_header(3, 4, 10, 7),
        Ok(RecordHeader { channel_id: 3, sequence: 4, log_time: 10, publish_time: 7 })
    );
    assert_eq!(message_header(3, 4, -1, 7).unwrap_err(), "MCAP times must be nonnegative");
    assert_eq!(estimate_topic("ego-baseline"), "/estimate/ego/ego-baseline");
    assert_eq!(track_topic("truth-ego"), "/track/object/truth-ego");
    assert_eq!(track_file_name("truth-ego"), "truth-ego.mcap");
    let record = MeasurementRecord::Lidar(Some(MeasurementTime { measurement_time_ns: 1, arrival_time_ns: 2 }));
    assert_eq!(record.time().arrival_time_ns, 2);
    assert_eq!(record.kind(), MeasurementKind::Lidar);
}

#[test]
fn state_variables_have_fixed_positions() {
    assert_eq!(StateIndex::PositionWorldX.index(), 0);
    assert_eq!(StateIndex::AccelBias.index(), 5);
    assert_eq!(TrackCoordinate::VelocityY.index(), 3);
    let names = state_names();
    assert_eq!(names.len(), 6);
    assert_eq!(names[2], "yaw_world_from_body_rad");
}

#[test]
fn sweep_summary_groups_cases_by_parameter_key() {
    let keys: Vec<String> = ["{\"b\":1}", "{\"a\":2}", "{\"b\":1}", "{\"c\":0}", "{\"a\":2}"]
        .iter()
        .map(|key| key.to_string())
        .collect();
    let groups = group_by_key(&keys);
    assert_eq!(groups, vec![vec![1, 4], vec![0, 2], vec![3]]);
    assert!(group_by_key(&Vec::new()).is_empty());

    let completed = vec![true, false, true, true, false];
    assert_eq!(
        group_counts(&groups[0], &completed),
        GroupCounts { cases: 2, successful_cases: 0, failed_cases: 2 }
    );
    assert_eq!(
        group_counts(&groups[1], &completed),
        GroupCounts { cases: 2, successful_cases: 2, failed_cases: 0 }
    );
}

#[test]
fn the_next_run_takes_the_first_free_number() {
    let names = |list: &[&str]| list.iter().map(|name| name.to_string()).collect::<Vec<_>>();
    assert_eq!(first_free_run_number(&Vec::new()), 1);
    assert_eq!(first_free_run_number(&names(&["run001", "run002"])), 3);
    assert_eq!(first_free_run_number(&names(&["run001", "run003", "notes.txt", "run2"])), 2);
}
