use fusion_in_motion::continuity::{nearest_by_time, FrameMatch, TrackTally};

fn ids(names: &[&str]) -> Vec<String> {
    names.iter().map(|name| (*name).to_owned()).collect()
}

fn matched(track_id: &str, truth_key: &str) -> FrameMatch {
    FrameMatch { track_id: track_id.to_owned(), truth_key: truth_key.to_owned() }
}

#[test]
fn time_local_matching_counts_switches_fragments_misses_and_false_tracks() {
    // Truth objects "a" at x = 0 and "b" at x = 10 in every frame; tracks are matched to the
    // truth object at their position.
    let truth = ids(&["a", "b"]);
    let mut tally = TrackTally::new();
    tally.record_frame(&ids(&["track-1", "track-2"]), 2, &truth, &vec![matched("track-1", "a"), matched("track-2", "b")]);
    tally.record_frame(&ids(&["track-1", "track-2"]), 2, &truth, &vec![matched("track-1", "b"), matched("track-2", "a")]);
    tally.record_frame(&ids(&["track-1"]), 1, &truth, &vec![matched("track-1", "b")]);
    tally.record_frame(
        &ids(&["track-1", "track-3", "false"]),
        3,
        &truth,
        &vec![matched("track-1", "b"), matched("track-3", "a")],
    );
    let counts = tally.counts();
    assert_eq!(counts.matched_samples, 7);
    assert_eq!(counts.missed_object_samples, 1);
    assert_eq!(counts.false_track_samples, 1);
    assert_eq!(counts.identity_switch_count, 2);
    assert_eq!(counts.track_fragment_count, 1);
    assert_eq!(counts.matched_samples as f64 / counts.truth_sample_count as f64, 7.0 / 8.0);
    assert_eq!(counts.invalid_output_count, 0);
    assert_eq!(tally.track_count(), 4);
    assert_eq!(counts.track_samples, 8);
}

#[test]
fn frames_without_truth_leave_their_tracks_unscored() {
    let mut tally = TrackTally::new();
    tally.record_frame(&ids(&["track-1", "track-2"]), 2, &Vec::new(), &Vec::new());
    let counts = tally.counts();
    assert_eq!(counts.invalid_output_count, 2);
    assert_eq!(counts.truth_sample_count, 0);
    assert_eq!(counts.matched_samples, 0);
    assert_eq!(tally.track_count(), 2);
}

#[test]
fn every_track_and_truth_sample_is_accounted_for() {
    let mut tally = TrackTally::new();
    tally.record_frame(&ids(&["t1", "t2", "t3"]), 2, &ids(&["a", "b", "c"]), &vec![matched("t1", "a")]);
    let counts = tally.counts();
    assert_eq!(counts.invalid_output_count + counts.false_track_samples + counts.matched_samples, counts.track_samples);
    assert_eq!(counts.matched_samples + counts.missed_object_samples, counts.truth_sample_count);
}

#[test]
fn a_regained_match_is_a_fragment() {
    let truth = ids(&["a"]);
    let mut tally = TrackTally::new();
    tally.record_frame(&ids(&["t1"]), 1, &truth, &vec![matched("t1", "a")]);
    tally.record_frame(&ids(&[]), 0, &truth, &Vec::new());
    tally.record_frame(&ids(&["t1"]), 1, &truth, &vec![matched("t1", "a")]);
    let counts = tally.counts();
    assert_eq!(counts.track_fragment_count, 1);
    assert_eq!(counts.identity_switch_count, 0);
}

#[test]
fn nearest_sample_is_the_first_closest_within_the_gap() {
    let times = vec![0, 10, 20, 30];
    assert_eq!(nearest_by_time(&times, 14, 5), Some(1));
    assert_eq!(nearest_by_time(&times, 15, 5), Some(1));
    assert_eq!(nearest_by_time(&times, 16, 5), Some(2));
    assert_eq!(nearest_by_time(&times, 100, 5), None);
    assert_eq!(nearest_by_time(&Vec::new(), 0, 5), None);
    // A negative gap, read as an unsigned number, admits any distance.
    assert_eq!(nearest_by_time(&times, 100, -1), Some(3));
}
