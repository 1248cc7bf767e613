use fusion_in_motion::diagnostics::LifecycleEventKind;
use fusion_in_motion::ids::{BatchId, ObservationId, TrackId};
use fusion_in_motion::lifecycle::{
    apply_hit_count_update, exceeds_time_without_update, hit_count_update, ManagedTrack, TrackStatus,
    TrackUpdate,
};
use fusion_in_motion::diagnostics::BatchDiagnostics;
use fusion_in_motion::manager::{
    check_initiated, confirmed_track_ids, event, first_unacceptable_initiation, record_created, record_deleted,
    record_track_update, update_time, validate_batch, StagedBatch, TrackManager, TrackTable,
};
use fusion_in_motion::observation::{ObservationBatch, TimedObservation};

#[test]
fn identifiers_keep_caller_supplied_values() {
    let batch = BatchId::new("source:0007");
    let observation = ObservationId::new("source:0007:3");
    let track = TrackId::new("track-042");

    assert_eq!(batch.as_str(), "source:0007");
    assert_eq!(observation.as_str(), "source:0007:3");
    assert_eq!(track.as_str(), "track-042");
}

#[test]
fn empty_batch_keeps_its_measurement_time() {
    let batch = ObservationBatch::<(), ()> {
        id: "empty".into(),
        measurement_time_ns: 17,
        arrival_time_ns: 29,
        observations: Vec::new(),
    };
    assert_eq!(batch.output_time_ns(), 17);
}

fn observation(id: &str, time_ns: i64) -> TimedObservation<(), ()> {
    TimedObservation { id: ObservationId::new(id), measurement_time_ns: time_ns, payload: (), context: () }
}

#[test]
fn batch_output_time_is_the_latest_observation_time() {
    let batch = ObservationBatch::<(), ()> {
        id: BatchId::new("scan"),
        measurement_time_ns: 5,
        arrival_time_ns: 40,
        observations: vec![observation("a", 12), observation("b", 30), observation("c", 21)],
    };
    assert_eq!(batch.output_time_ns(), 30);
}

#[test]
fn duplicate_observation_identifiers_are_rejected() {
    let batch = ObservationBatch::<(), ()> {
        id: BatchId::new("scan"),
        measurement_time_ns: 5,
        arrival_time_ns: 40,
        observations: vec![observation("a", 12), observation("a", 13)],
    };
    let error = validate_batch(&batch).unwrap_err();
    assert_eq!(error.message(), "observation identifiers must be unique within a batch");

    let unique = ObservationBatch::<(), ()> {
        id: BatchId::new("scan"),
        measurement_time_ns: 5,
        arrival_time_ns: 40,
        observations: vec![observation("a", 12), observation("b", 13)],
    };
    assert!(validate_batch(&unique).is_ok());
}

fn managed(id: &str, hits: usize) -> ManagedTrack<u8> {
    ManagedTrack {
        id: TrackId::new(id),
        state: 0,
        status: TrackStatus::Tentative,
        hit_count: hits,
        miss_count: 0,
        last_update_time_ns: 100,
        last_observable_time_ns: 100,
    }
}

#[test]
fn hit_count_policy_prefers_hits_then_coverage() {
    assert_eq!(hit_count_update(true, false, true), TrackUpdate::Hit);
    assert_eq!(hit_count_update(false, false, false), TrackUpdate::Coast);
    assert_eq!(hit_count_update(false, true, true), TrackUpdate::Coast);
    assert_eq!(hit_count_update(false, true, false), TrackUpdate::Miss);
}

#[test]
fn hits_confirm_and_misses_age_a_track() {
    let mut track = managed("track-001", 1);
    apply_hit_count_update(&mut track, TrackUpdate::Hit, 200, 2);
    assert_eq!(track.status, TrackStatus::Confirmed);
    assert_eq!(track.hit_count, 2);
    assert_eq!(track.last_update_time_ns, 200);

    apply_hit_count_update(&mut track, TrackUpdate::Miss, 900, 2);
    assert_eq!(track.status, TrackStatus::Confirmed);
    assert_eq!(track.miss_count, 1);
    assert_eq!(track.last_update_time_ns, 200);
    assert_eq!(track.last_observable_time_ns, 900);
    assert!(exceeds_time_without_update(&track, 700));
    assert!(!exceeds_time_without_update(&track, 701));

    apply_hit_count_update(&mut track, TrackUpdate::Coast, 5_000, 2);
    assert_eq!(track.last_observable_time_ns, 900);
}

#[test]
fn track_table_numbers_tracks_and_keeps_them_in_order() {
    let mut table: TrackTable<u8> = TrackTable::new();
    let first = table.allocate_track_id().unwrap();
    let second = table.allocate_track_id().unwrap();
    assert_eq!(first.as_str(), "track-001");
    assert_eq!(second.as_str(), "track-002");
    assert_eq!(table.next_track_number(), 3);

    table.insert(managed("track-002", 0));
    table.insert(managed("track-001", 0));
    let ids: Vec<String> = table.track_ids().iter().map(|id| id.as_str().to_owned()).collect();
    assert_eq!(ids, vec!["track-001".to_owned(), "track-002".to_owned()]);

    let removed = table.remove(&TrackId::new("track-001")).unwrap();
    assert_eq!(removed.id.as_str(), "track-001");
    assert_eq!(table.len(), 1);
    assert!(table.get(&TrackId::new("track-001")).is_none());
}

#[test]
fn new_manager_starts_without_tracks() {
    let manager = TrackManager::<u8, (), (), (), (), ()>::new((), (), (), (), ());
    assert_eq!(manager.tracks.len(), 0);
    assert_eq!(manager.tracks.next_track_number(), 1);
}

#[test]
fn lifecycle_event_records_the_track() {
    let track = managed("track-007", 3);
    let e = event(&track, LifecycleEventKind::Created, 55, Some(ObservationId::new("scan:0")), 9u8);
    assert_eq!(e.track_id.as_str(), "track-007");
    assert_eq!(e.kind, LifecycleEventKind::Created);
    assert_eq!(e.time_ns, 55);
    assert_eq!(e.observation_id.unwrap().as_str(), "scan:0");
    assert_eq!(e.state, 9);
}

#[test]
fn a_failed_batch_commits_nothing() {
    let mut manager = TrackManager::<u8, (), (), (), u32, u32>::new((), (), (), 1, 2);
    let failed: Result<(StagedBatch<u8, u32, u32>, &str), &str> = Err("association failed: no plan");
    assert_eq!(manager.commit(failed), Err("association failed: no plan"));
    assert_eq!(manager.tracks.len(), 0);
    assert_eq!((manager.initiator, manager.lifecycle), (1, 2));

    let mut tracks = TrackTable::new();
    let id = tracks.allocate_track_id().unwrap();
    tracks.insert(managed(id.as_str(), 1));
    let staged = StagedBatch { tracks, initiator: 5, lifecycle: 6 };
    assert_eq!(manager.commit(Ok::<_, &str>((staged, "output"))), Ok("output"));
    assert_eq!(manager.tracks.len(), 1);
    assert_eq!(manager.tracks.next_track_number(), 2);
    assert_eq!(manager.tracks.tracks()[0].id.as_str(), "track-001");
    assert_eq!((manager.initiator, manager.lifecycle), (5, 6));
}

#[test]
fn each_update_records_its_event_and_counter() {
    let mut diagnostics = BatchDiagnostics::zero();
    let mut events = Vec::new();
    let mut confirmed = managed("track-001", 3);
    confirmed.status = TrackStatus::Confirmed;

    // A hit that confirms a tentative track reports the track's state.
    record_track_update(&mut diagnostics, &mut events, &confirmed, false, TrackUpdate::Hit, 40, false, 7u8, 8u8);
    // A hit on a track that was already confirmed records nothing.
    record_track_update(&mut diagnostics, &mut events, &confirmed, true, TrackUpdate::Hit, 41, false, 7u8, 8u8);
    // A hard miss reports the predicted state; a coast with an association reports the track's.
    record_track_update(&mut diagnostics, &mut events, &confirmed, true, TrackUpdate::Miss, 42, true, 7u8, 8u8);
    record_track_update(&mut diagnostics, &mut events, &confirmed, true, TrackUpdate::Coast, 43, false, 7u8, 8u8);
    record_created(&mut diagnostics, &mut events, &managed("track-002", 0), 44, ObservationId::new("scan:0"), 5u8);
    record_deleted(&mut diagnostics, &mut events, &confirmed, 45, 6u8);

    let kinds: Vec<_> = events.iter().map(|e| (e.kind, e.time_ns, e.state)).collect();
    assert_eq!(
        kinds,
        vec![
            (LifecycleEventKind::Confirmed, 40, 8),
            (LifecycleEventKind::Missed, 42, 7),
            (LifecycleEventKind::Coasted, 43, 8),
            (LifecycleEventKind::Created, 44, 5),
            (LifecycleEventKind::Deleted, 45, 6),
        ]
    );
    assert_eq!(events[3].observation_id.as_ref().map(|id| id.as_str()), Some("scan:0"));
    assert_eq!(events[3].track_id.as_str(), "track-002");
    assert_eq!(
        (diagnostics.confirmed_tracks, diagnostics.missed_updates, diagnostics.coasted_updates),
        (1, 1, 1)
    );
    assert_eq!((diagnostics.created_tracks, diagnostics.deleted_tracks), (1, 1));
    assert_eq!(update_time(0, 100, 90), 100);
    assert_eq!(update_time(2, 100, 90), 90);
}

#[test]
fn initiator_proposals_must_be_available_and_distinct() {
    let ids = |names: &[&str]| names.iter().map(|name| ObservationId::new(name)).collect::<Vec<_>>();
    let available = ids(&["s:0", "s:2"]);
    assert_eq!(first_unacceptable_initiation(&available, &ids(&["s:2", "s:0"])), None);
    assert!(check_initiated(&available, &ids(&[])).is_ok());
    assert_eq!(first_unacceptable_initiation(&available, &ids(&["s:0", "s:1"])), Some(1));
    assert_eq!(first_unacceptable_initiation(&available, &ids(&["s:2", "s:2"])), Some(1));
    assert_eq!(
        check_initiated(&available, &ids(&["s:0", "s:0"])).unwrap_err().message(),
        "initiator returned an assigned, unknown, or duplicate observation"
    );
}

#[test]
fn scans_report_the_confirmed_tracks_in_identifier_order() {
    let mut tracks = TrackTable::new();
    for (id, confirmed) in [("track-003", true), ("track-001", true), ("track-002", false)] {
        let mut track = managed(id, 1);
        if confirmed {
            track.status = TrackStatus::Confirmed;
        }
        tracks.insert(track);
    }
    let ids: Vec<_> = confirmed_track_ids(&tracks).iter().map(|id| id.as_str().to_owned()).collect();
    assert_eq!(ids, vec!["track-001", "track-003"]);
}
