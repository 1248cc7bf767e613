use fusion_in_motion::bundle::MeasurementKind;
use fusion_in_motion::compare::join_path;
use fusion_in_motion::continuity::{
    choose_pose, object_truth_at_time, pose_covariance_dimension, PoseChoice, TruthSample,
};
use fusion_in_motion::scenario_checks::{
    check_alignment, check_estimator_frames, check_frames, check_header, check_landmarks_present,
    check_latencies, check_scan_duration, check_segments_present, IdRegistry,
};
use fusion_in_motion::schedule::{delivery_order, delivery_priority, event_id, sample_times, PendingKey};
use fusion_in_motion::sweep::{csv_field, default_seeds, optional_usize};

#[test]
fn scenario_header_is_checked_first() {
    assert_eq!(check_header(2, "run", "planar_sensor_fusion").unwrap_err(), "unsupported format_version 2; expected 1");
    assert_eq!(check_header(1, " ", "planar_sensor_fusion").unwrap_err(), "run_id must not be empty");
    assert_eq!(check_header(1, "run", "other").unwrap_err(), "only planar_sensor_fusion is implemented");
    assert!(check_header(1, "run", "planar_sensor_fusion").is_ok());
}

#[test]
fn sensors_share_the_body_frame_and_have_distinct_ids() {
    let ok = check_frames("base_link", "map", "base_link", "base_link", "base_link", "imu0", "cam0", "lidar0");
    assert!(ok.is_ok());
    assert_eq!(
        check_frames("map", "map", "map", "map", "map", "a", "b", "c").unwrap_err(),
        "body and world frames must differ"
    );
    assert_eq!(
        check_frames("base_link", "map", "base_link", "camera", "base_link", "a", "b", "c").unwrap_err(),
        "the planar simulator requires the camera frame to equal the body frame"
    );
    assert_eq!(
        check_frames("base_link", "map", "base_link", "base_link", "base_link", "a", "a", "c").unwrap_err(),
        "sensor instance IDs must be nonempty and unique"
    );
    assert_eq!(
        check_frames("base_link", "map", "base_link", "base_link", "base_link", "a", "", "c").unwrap_err(),
        "sensor instance IDs must be nonempty and unique"
    );
}

#[test]
fn integer_settings_are_checked() {
    assert!(check_latencies(0, 5, 10).is_ok());
    assert_eq!(check_latencies(0, -1, 10).unwrap_err(), "sensor latencies must be nonnegative");
    assert_eq!(check_scan_duration(-1).unwrap_err(), "lidar scan duration must be nonnegative");
    assert!(check_scan_duration(0).is_ok());
    assert_eq!(
        check_estimator_frames("map", "body", "map", "base_link", 0, false).unwrap_err(),
        "estimator output frames must match the platform frames"
    );
    assert_eq!(
        check_estimator_frames("map", "b", "map", "b", -1, false).unwrap_err(),
        "estimator history duration must be nonnegative"
    );
    assert_eq!(
        check_estimator_frames("map", "b", "map", "b", 0, true).unwrap_err(),
        "timing compensation requires a positive estimator history duration"
    );
    assert!(check_estimator_frames("map", "b", "map", "b", 0, false).is_ok());
    assert!(check_alignment("NONE").is_ok());
    assert_eq!(check_alignment("SE2").unwrap_err(), "the initial example implements only NONE alignment");
    assert_eq!(check_landmarks_present(0).unwrap_err(), "world must contain at least one landmark");
    assert_eq!(check_segments_present(0).unwrap_err(), "trajectory must contain at least one segment");
}

#[test]
fn identifiers_must_be_nonempty_and_new() {
    let mut landmarks = IdRegistry::new();
    assert!(landmarks.register_landmark("a").is_ok());
    assert!(landmarks.register_landmark("b").is_ok());
    assert_eq!(landmarks.register_landmark("a").unwrap_err(), "landmark IDs must be nonempty and unique");
    assert_eq!(landmarks.register_landmark("").unwrap_err(), "landmark IDs must be nonempty and unique");
    let mut segments = IdRegistry::new();
    assert!(segments.register_segment("straight").is_ok());
    assert_eq!(
        segments.register_segment("straight").unwrap_err(),
        "trajectory segment IDs must be nonempty and unique"
    );
}

#[test]
fn sensors_sample_on_their_period_and_deliver_in_priority_order() {
    assert_eq!(sample_times(10, 35), vec![10, 20, 30]);
    assert_eq!(sample_times(10, 30), vec![10, 20, 30]);
    assert!(sample_times(10, 9).is_empty());
    assert_eq!(delivery_priority(MeasurementKind::Imu), 10);
    assert_eq!(delivery_priority(MeasurementKind::Gps), 15);
    assert_eq!(delivery_priority(MeasurementKind::Camera), 20);
    assert_eq!(delivery_priority(MeasurementKind::Lidar), 30);
    assert_eq!(event_id("imu", 7), "imu:0000000007");
    let pending = vec![
        PendingKey { arrival_ns: 20, priority: 10, stable_event_id: "imu:0000000002".to_owned() },
        PendingKey { arrival_ns: 10, priority: 20, stable_event_id: "camera:0000000000".to_owned() },
        PendingKey { arrival_ns: 10, priority: 10, stable_event_id: "imu:0000000001".to_owned() },
        PendingKey { arrival_ns: 10, priority: 10, stable_event_id: "imu:0000000000".to_owned() },
    ];
    assert_eq!(delivery_order(&pending), vec![3, 2, 1, 0]);
}

#[test]
fn truth_objects_are_taken_from_their_closest_sample() {
    let sample = |key: &str, time_ns: i64, complete: bool| TruthSample { track_key: key.to_owned(), time_ns, complete };
    let samples = vec![
        sample("b", 0, true),
        sample("a", 0, true),
        sample("b", 10, true),
        sample("a", 10, false),
        sample("c", 100, true),
    ];
    let present = object_truth_at_time(&samples, 9, 5);
    let keys: Vec<&str> = present.iter().map(|t| t.track_key.as_str()).collect();
    // "a" is closest at 10 but that sample is incomplete; "c" is too far away.
    assert_eq!(keys, vec!["b"]);
    assert_eq!(present[0].index, 2);
    let all = object_truth_at_time(&samples, 5, 100);
    let keys: Vec<&str> = all.iter().map(|t| t.track_key.as_str()).collect();
    // Ties go to the earlier sample.
    assert_eq!(keys, vec!["a", "b", "c"]);
    assert_eq!(all[0].index, 1);
    assert_eq!(all[1].index, 0);
}

#[test]
fn poses_are_chosen_around_the_requested_time() {
    let times = vec![0, 10, 10, 20];
    assert_eq!(choose_pose(&Vec::new(), 5), PoseChoice::NoPose);
    assert_eq!(choose_pose(&times, -5), PoseChoice::Stored(0));
    assert_eq!(choose_pose(&times, 0), PoseChoice::Stored(0));
    assert_eq!(choose_pose(&times, 5), PoseChoice::Between(0, 1));
    assert_eq!(choose_pose(&times, 15), PoseChoice::Between(2, 3));
    assert_eq!(choose_pose(&times, 25), PoseChoice::Stored(3));
    assert_eq!(choose_pose(&vec![0, 10, 10], 10), PoseChoice::Between(0, 1));
    assert_eq!(choose_pose(&vec![10, 10, 20], 15), PoseChoice::Between(1, 2));
    assert_eq!(choose_pose(&vec![0, 10, 10, 30], 10), PoseChoice::Between(0, 1));
}

#[test]
fn report_fields_are_formatted() {
    assert_eq!(join_path("", "camera"), "camera");
    assert_eq!(join_path("camera", "rate_hz"), "camera.rate_hz");
    assert_eq!(csv_field("a \"b\""), "\"a \"\"b\"\"\"");
    assert_eq!(csv_field(""), "\"\"");
    assert_eq!(optional_usize(Some(42)), "42");
    assert_eq!(optional_usize(None), "");
    assert_eq!(default_seeds(), vec![1]);
}

#[test]
fn ego_covariances_are_four_or_six_wide() {
    assert_eq!(pose_covariance_dimension(16), Ok(4));
    assert_eq!(pose_covariance_dimension(36), Ok(6));
    for values in [0, 9, 25] {
        assert_eq!(
            pose_covariance_dimension(values).unwrap_err(),
            "planar ego covariance must contain 16 or 36 values"
        );
    }
}
