use fusion_in_motion::ego_timing::{
    arrival_delays, measurement_priority, plan_replay, timing, validate_delivery_order,
    EgoMeasurement, FixOutcome, GpsFixCounts, MeasurementTime,
};
use fusion_in_motion::perception::{
    collect_diagnostics, count_detections, detection_label, flatten, prepare_timing, Detection,
    EgoSource, ObservedDetection, PerceptionMeasurement, SensorKind, TrackerDiagnostics,
};
use fusion_in_motion::diagnostics::BatchDiagnostics;
use fusion_in_motion::perception::validate_delivery_order as validate_perception_order;

fn t(measurement_time_ns: i64, arrival_time_ns: i64) -> Option<MeasurementTime> {
    Some(MeasurementTime { measurement_time_ns, arrival_time_ns })
}

#[test]
fn ego_measurements_must_arrive_in_order() {
    let ordered = vec![EgoMeasurement::Imu(t(0, 5)), EgoMeasurement::Gps(t(1, 5)), EgoMeasurement::Imu(t(2, 9))];
    assert!(validate_delivery_order(&ordered).is_ok());
    let unordered = vec![EgoMeasurement::Imu(t(0, 5)), EgoMeasurement::Gps(t(1, 4))];
    assert_eq!(validate_delivery_order(&unordered).unwrap_err(), "ego measurements are not in arrival order");
}

#[test]
fn imu_is_processed_before_gps_at_the_same_time() {
    assert_eq!(measurement_priority(&EgoMeasurement::Imu(None)), 10);
    assert_eq!(measurement_priority(&EgoMeasurement::Gps(None)), 20);
}

#[test]
fn timing_reports_the_largest_delivery_age() {
    let ms = vec![EgoMeasurement::Imu(t(0, 5)), EgoMeasurement::Gps(t(1, 40)), EgoMeasurement::Imu(t(50, 52))];
    let d = timing(true, 100, &ms, 1, 2, 3, 4);
    assert_eq!(d.received_measurements, 3);
    assert_eq!(d.maximum_delivery_age_ns, 39);
    assert_eq!(d.delayed_measurements, 1);
    assert_eq!(d.replayed_measurements, 2);
    assert_eq!(d.discarded_measurements, 3);
    assert_eq!(d.revised_estimates, 4);
    assert!(d.timing_compensation);
    assert_eq!(d.history_duration_ns, 100);
    let empty = timing(false, 0, &Vec::new(), 0, 0, 0, 0);
    assert_eq!(empty.maximum_delivery_age_ns, 0);
}

#[test]
fn arrival_run_counts_measurements_older_than_the_last_imu_sample() {
    let ms = vec![
        EgoMeasurement::Imu(t(10, 10)),
        EgoMeasurement::Gps(t(5, 11)),
        EgoMeasurement::Imu(t(20, 20)),
        EgoMeasurement::Imu(t(15, 21)),
        EgoMeasurement::Gps(t(18, 22)),
    ];
    // The GPS fix at 5 lags the IMU at 10, the IMU at 15 lags the IMU at 20; the GPS fix at 18
    // is compared with the last IMU sample (15), not the latest (20).
    assert_eq!(arrival_delays(&ms), 2);
}

#[test]
fn replay_discards_old_gps_and_replays_the_rest_in_measurement_order() {
    let ms = vec![
        EgoMeasurement::Imu(t(100, 100)),
        EgoMeasurement::Imu(t(200, 200)),
        EgoMeasurement::Gps(t(150, 210)),
        EgoMeasurement::Gps(t(10, 220)),
        EgoMeasurement::Imu(t(300, 300)),
        EgoMeasurement::Gps(t(300, 310)),
    ];
    let plan = plan_replay(100, &ms);
    assert_eq!(plan.delayed, 2);
    assert_eq!(plan.replayed, 1);
    assert_eq!(plan.discarded, 1);
    assert_eq!(plan.order, vec![0, 2, 1, 4, 5]);
    assert_eq!(plan.steps.len(), 4);
    let stamps: Vec<i64> = plan.steps.iter().map(|s| s.stamp_ns).collect();
    assert_eq!(stamps, vec![100, 150, 200, 300]);
    // The GPS-only step emits nothing.
    assert_eq!(plan.steps[1].emission_ns, None);
    // The estimate at 100 is not held back by the fix at 150; the estimate at 200 waits for
    // that fix, which arrived at 210.
    assert_eq!(plan.steps[0].emission_ns, Some(100));
    assert_eq!(plan.steps[2].emission_ns, Some(210));
    assert!(plan.steps[2].revised);
    // At 300 the fix at 300 arrived after the IMU sample, so the estimate waits for it.
    assert_eq!(plan.steps[3].emission_ns, Some(310));
    assert_eq!(plan.revised, 2);
}

#[test]
fn perception_time_comes_from_the_record() {
    let frame = PerceptionMeasurement::Camera { time: t(3, 4), detection_count: 2 };
    assert_eq!(frame.time().unwrap(), MeasurementTime { measurement_time_ns: 3, arrival_time_ns: 4 });
    assert_eq!(EgoSource::Estimated.label(), "estimated");
    assert_eq!(EgoSource::Truth.label(), "truth");
}

#[test]
fn missing_perception_time_is_an_input_error() {
    let measurements = vec![PerceptionMeasurement::Camera { time: None, detection_count: 0 }];
    let error = validate_perception_order(&measurements).unwrap_err();
    assert_eq!(error, "perception measurement has no time");
    assert_eq!(flatten(&measurements).unwrap_err(), "perception measurement has no time");
}

#[test]
fn perception_measurements_must_arrive_in_order() {
    let measurements = vec![
        PerceptionMeasurement::Lidar { time: t(0, 10), detection_times_ns: vec![0] },
        PerceptionMeasurement::Camera { time: t(1, 9), detection_count: 1 },
    ];
    assert_eq!(
        validate_perception_order(&measurements).unwrap_err(),
        "perception measurements are not in arrival order"
    );
}

#[test]
fn flattened_batches_are_named_by_sensor_and_position() {
    let measurements = vec![
        PerceptionMeasurement::Camera { time: t(0, 1), detection_count: 2 },
        PerceptionMeasurement::Lidar { time: t(5, 6), detection_times_ns: vec![4, 5] },
    ];
    let batches = flatten(&measurements).unwrap();
    assert_eq!(batches.len(), 2);
    assert_eq!(batches[0].stable_id, "camera:0");
    assert_eq!(batches[0].sensor, SensorKind::Camera);
    assert_eq!(batches[0].detections, vec![Detection::Camera, Detection::Camera]);
    assert_eq!(batches[1].stable_id, "lidar:1");
    assert_eq!(batches[1].detection_time_ns(&batches[1].detections[0]), 4);
    assert_eq!(batches[0].detection_time_ns(&batches[0].detections[1]), 0);
    assert_eq!(count_detections(&batches), 4);
    assert_eq!(detection_label(&batches[1].stable_id, 1), "lidar:1:1");
}

#[test]
fn compensation_discards_stale_scans_and_orders_the_rest() {
    let measurements = vec![
        PerceptionMeasurement::Lidar { time: t(100, 100), detection_times_ns: vec![100] },
        PerceptionMeasurement::Camera { time: t(300, 300), detection_count: 2 },
        PerceptionMeasurement::Camera { time: t(250, 310), detection_count: 1 },
        PerceptionMeasurement::Lidar { time: t(50, 320), detection_times_ns: vec![50, 50, 50] },
    ];
    let batches = flatten(&measurements).unwrap();
    let mut diagnostics = TrackerDiagnostics::default();
    let prepared = prepare_timing(true, 100, &batches, &mut diagnostics);
    assert_eq!(prepared.source, vec![0, 2, 1]);
    assert_eq!(prepared.batches[1].stable_id, "camera:2");
    assert_eq!(diagnostics.delayed_detections, 4);
    assert_eq!(diagnostics.replayed_detections, 1);
    assert_eq!(diagnostics.discarded_detections, 3);
}

#[test]
fn without_compensation_detections_are_timed_at_arrival() {
    let measurements = vec![PerceptionMeasurement::Lidar { time: t(100, 130), detection_times_ns: vec![95, 99] }];
    let batches = flatten(&measurements).unwrap();
    let mut diagnostics = TrackerDiagnostics::default();
    let prepared = prepare_timing(false, 0, &batches, &mut diagnostics);
    assert_eq!(prepared.source, vec![0]);
    assert_eq!(prepared.batches[0].measurement_time_ns, 130);
    assert_eq!(
        prepared.batches[0].detections,
        vec![Detection::Lidar { measurement_time_ns: 130 }, Detection::Lidar { measurement_time_ns: 130 }]
    );
    assert_eq!(diagnostics.delayed_detections, 0);
}

#[test]
fn batch_diagnostics_are_added_to_the_run() {
    let mut diagnostics = TrackerDiagnostics::default();
    let summary = BatchDiagnostics {
        candidate_pairs: 4,
        gated_out_pairs: 1,
        invalid_candidate_pairs: 0,
        selected_associations: 2,
        missed_updates: 1,
        coasted_updates: 0,
        created_tracks: 1,
        confirmed_tracks: 1,
        deleted_tracks: 0,
    };
    let detections = vec![
        ObservedDetection { sensor: SensorKind::Camera, selected: true, has_ego_pose: true },
        ObservedDetection { sensor: SensorKind::Camera, selected: false, has_ego_pose: true },
        ObservedDetection { sensor: SensorKind::Lidar, selected: false, has_ego_pose: true },
        ObservedDetection { sensor: SensorKind::Lidar, selected: false, has_ego_pose: false },
        ObservedDetection { sensor: SensorKind::Lidar, selected: true, has_ego_pose: false },
    ];
    collect_diagnostics(&summary, &detections, &mut diagnostics);
    assert_eq!(diagnostics.candidate_pairs, 4);
    assert_eq!(diagnostics.applied_updates, 3);
    assert_eq!(diagnostics.associated_camera_detections, 1);
    assert_eq!(diagnostics.associated_lidar_detections, 1);
    assert_eq!(diagnostics.unmatched_camera_detections, 1);
    assert_eq!(diagnostics.waiting_for_range, 1);
    assert_eq!(diagnostics.unmatched_lidar_detections, 1);
}

#[test]
fn gps_fixes_are_counted_once_under_their_outcome() {
    let mut counts = GpsFixCounts::new();
    for outcome in [FixOutcome::Applied, FixOutcome::Rejected, FixOutcome::Applied, FixOutcome::Invalid] {
        counts.record(outcome);
    }
    assert_eq!(
        counts,
        GpsFixCounts { attempted_fixes: 4, accepted_fixes: 2, rejected_fixes: 1, invalid_fixes: 1 }
    );
    assert_eq!(
        counts.attempted_fixes,
        counts.accepted_fixes + counts.rejected_fixes + counts.invalid_fixes
    );
}
