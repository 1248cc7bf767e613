//! The checks of a resolved scenario that concern versions, names, frames, identifiers and
//! integer durations. Checks of real-valued settings are made by the caller between these,
//! in the scenario's order.

use vstd::prelude::*;

use crate::ids::decimal_digits;
use crate::ids::push_padded_decimal;
use crate::text::{blank, is_blank, string_views};

verus! {

/// Checks the scenario's format version, run identifier and platform profile, in that order.
pub fn check_header(format_version: u32, run_id: &str, platform_profile: &str) -> (r: Result<(), String>)
    ensures
        format_version != 1 ==> (r matches Err(e)
            && e@ == "unsupported format_version "@ + decimal_digits(format_version as nat) + "; expected 1"@),
        format_version == 1 && blank(run_id@) ==> (r matches Err(e) && e@ == "run_id must not be empty"@),
        format_version == 1 && !blank(run_id@) && platform_profile@ != "planar_sensor_fusion"@
            ==> (r matches Err(e) && e@ == "only planar_sensor_fusion is implemented"@),
        r is Ok <==> format_version == 1 && !blank(run_id@) && platform_profile@ == "planar_sensor_fusion"@,
{
    if format_version != 1 {
        let mut e = String::from_str("unsupported format_version ");
        push_padded_decimal(&mut e, format_version as u64, 0);
        e.append("; expected 1");
        proof {
            reveal_strlit("unsupported format_version ");
            reveal_strlit("; expected 1");
        }
        return Err(e);
    }
    if is_blank(run_id) {
        proof { reveal_strlit("run_id must not be empty"); }
        return Err(String::from_str("run_id must not be empty"));
    }
    if String::from_str(platform_profile) != String::from_str("planar_sensor_fusion") {
        proof { reveal_strlit("only planar_sensor_fusion is implemented"); }
        return Err(String::from_str("only planar_sensor_fusion is implemented"));
    }
    Ok(())
}

/// The first problem with the platform frames and the sensors' frames and identifiers.
pub open spec fn frames_problem(
    body_frame: Seq<char>,
    world_frame: Seq<char>,
    imu_frame: Seq<char>,
    camera_frame: Seq<char>,
    lidar_frame: Seq<char>,
    imu_id: Seq<char>,
    camera_id: Seq<char>,
    lidar_id: Seq<char>,
) -> Option<Seq<char>> {
    if body_frame == world_frame {
        Some("body and world frames must differ"@)
    } else if imu_frame != body_frame {
        Some("the planar simulator requires the imu frame to equal the body frame"@)
    } else if camera_frame != body_frame {
        Some("the planar simulator requires the camera frame to equal the body frame"@)
    } else if lidar_frame != body_frame {
        Some("the planar simulator requires the lidar frame to equal the body frame"@)
    } else if imu_id == camera_id || imu_id == lidar_id || camera_id == lidar_id
        || imu_id.len() == 0 || camera_id.len() == 0 || lidar_id.len() == 0 {
        Some("sensor instance IDs must be nonempty and unique"@)
    } else {
        None
    }
}

/// Checks that the body and world frames differ, that every sensor is mounted in the body
/// frame, and that the sensors' identifiers are nonempty and distinct.
pub fn check_frames(
    body_frame: &str,
    world_frame: &str,
    imu_frame: &str,
    camera_frame: &str,
    lidar_frame: &str,
    imu_id: &str,
    camera_id: &str,
    lidar_id: &str,
) -> (r: Result<(), String>)
    ensures
        r is Ok <==> frames_problem(body_frame@, world_frame@, imu_frame@, camera_frame@, lidar_frame@,
            imu_id@, camera_id@, lidar_id@) is None,
        r matches Err(e) ==> frames_problem(body_frame@, world_frame@, imu_frame@, camera_frame@, lidar_frame@,
            imu_id@, camera_id@, lidar_id@) == Some(e@),
{
    let body = String::from_str(body_frame);
    if body == String::from_str(world_frame) {
        proof { reveal_strlit("body and world frames must differ"); }
        return Err(String::from_str("body and world frames must differ"));
    }
    if String::from_str(imu_frame) != body {
        proof { reveal_strlit("the planar simulator requires the imu frame to equal the body frame"); }
        return Err(String::from_str("the planar simulator requires the imu frame to equal the body frame"));
    }
    if String::from_str(camera_frame) != body {
        proof { reveal_strlit("the planar simulator requires the camera frame to equal the body frame"); }
        return Err(String::from_str("the planar simulator requires the camera frame to equal the body frame"));
    }
    if String::from_str(lidar_frame) != body {
        proof { reveal_strlit("the planar simulator requires the lidar frame to equal the body frame"); }
        return Err(String::from_str("the planar simulator requires the lidar frame to equal the body frame"));
    }
    let (i, c, l) = (String::from_str(imu_id), String::from_str(camera_id), String::from_str(lidar_id));
    if i == c || i == l || c == l || imu_id.is_empty() || camera_id.is_empty() || lidar_id.is_empty() {
        proof { reveal_strlit("sensor instance IDs must be nonempty and unique"); }
        return Err(String::from_str("sensor instance IDs must be nonempty and unique"));
    }
    Ok(())
}

/// Checks that no sensor has a negative latency.
pub fn check_latencies(imu_latency_ns: i64, camera_latency_ns: i64, lidar_latency_ns: i64) -> (r: Result<(), String>)
    ensures
        r is Ok <==> imu_latency_ns >= 0 && camera_latency_ns >= 0 && lidar_latency_ns >= 0,
        r matches Err(e) ==> e@ == "sensor latencies must be nonnegative"@,
{
    if imu_latency_ns >= 0 && camera_latency_ns >= 0 && lidar_latency_ns >= 0 {
        Ok(())
    } else {
        proof { reveal_strlit("sensor latencies must be nonnegative"); }
        Err(String::from_str("sensor latencies must be nonnegative"))
    }
}

/// Checks that a lidar scan does not last a negative time.
pub fn check_scan_duration(scan_duration_ns: i64) -> (r: Result<(), String>)
    ensures
        r is Ok <==> scan_duration_ns >= 0,
        r matches Err(e) ==> e@ == "lidar scan duration must be nonnegative"@,
{
    if scan_duration_ns >= 0 {
        Ok(())
    } else {
        proof { reveal_strlit("lidar scan duration must be nonnegative"); }
        Err(String::from_str("lidar scan duration must be nonnegative"))
    }
}

/// The first problem with the estimator's output frames and replay history.
pub open spec fn estimator_problem(
    output_world_frame: Seq<char>,
    output_body_frame: Seq<char>,
    world_frame: Seq<char>,
    body_frame: Seq<char>,
    history_duration_ns: i64,
    timing_compensation: bool,
) -> Option<Seq<char>> {
    if output_world_frame != world_frame || output_body_frame != body_frame {
        Some("estimator output frames must match the platform frames"@)
    } else if history_duration_ns < 0 {
        Some("estimator history duration must be nonnegative"@)
    } else if timing_compensation && history_duration_ns <= 0 {
        Some("timing compensation requires a positive estimator history duration"@)
    } else {
        None
    }
}

/// Checks that the estimator reports in the platform frames, and that its replay history is
/// nonnegative, and positive when it compensates for delivery delay.
pub fn check_estimator_frames(
    output_world_frame: &str,
    output_body_frame: &str,
    world_frame: &str,
    body_frame: &str,
    history_duration_ns: i64,
    timing_compensation: bool,
) -> (r: Result<(), String>)
    ensures
        r is Ok <==> estimator_problem(output_world_frame@, output_body_frame@, world_frame@, body_frame@,
            history_duration_ns, timing_compensation) is None,
        r matches Err(e) ==> estimator_problem(output_world_frame@, output_body_frame@, world_frame@, body_frame@,
            history_duration_ns, timing_compensation) == Some(e@),
{
    if String::from_str(output_world_frame) != String::from_str(world_frame)
        || String::from_str(output_body_frame) != String::from_str(body_frame) {
        proof { reveal_strlit("estimator output frames must match the platform frames"); }
        return Err(String::from_str("estimator output frames must match the platform frames"));
    }
    if history_duration_ns < 0 {
        proof { reveal_strlit("estimator history duration must be nonnegative"); }
        return Err(String::from_str("estimator history duration must be nonnegative"));
    }
    if timing_compensation && history_duration_ns <= 0 {
        proof { reveal_strlit("timing compensation requires a positive estimator history duration"); }
        return Err(String::from_str("timing compensation requires a positive estimator history duration"));
    }
    Ok(())
}

/// Checks the metric alignment, of which only `NONE` is implemented.
pub fn check_alignment(alignment: &str) -> (r: Result<(), String>)
    ensures
        r is Ok <==> alignment@ == "NONE"@,
        r matches Err(e) ==> e@ == "the initial example implements only NONE alignment"@,
{
    if String::from_str(alignment) == String::from_str("NONE") {
        Ok(())
    } else {
        proof { reveal_strlit("the initial example implements only NONE alignment"); }
        Err(String::from_str("the initial example implements only NONE alignment"))
    }
}

/// Identifiers seen so far, each nonempty and distinct.
pub struct IdRegistry {
    ids: Vec<String>,
}

impl IdRegistry {
    /// The identifiers registered so far.
    pub closed spec fn registered(&self) -> Set<Seq<char>> {
        string_views(self.ids@).to_set()
    }

    /// An empty registry.
    pub fn new() -> (r: Self)
        ensures
            r.registered() == Set::<Seq<char>>::empty(),
    {
        let r = IdRegistry { ids: Vec::new() };
        assert(string_views(r.ids@).to_set() =~= Set::empty());
        r
    }

    /// Registers `id` if it is nonempty and new; reports whether it was.
    pub fn register(&mut self, id: &str) -> (fresh: bool)
        ensures
            fresh == (id@.len() > 0 && !old(self).registered().contains(id@)),
            fresh ==> final(self).registered() == old(self).registered().insert(id@),
            !fresh ==> final(self).registered() == old(self).registered(),
    {
        if id.is_empty() {
            return false;
        }
        let wanted = String::from_str(id);
        let ghost before = string_views(self.ids@);
        let mut i: usize = 0;
        while i < self.ids.len()
            invariant
                0 <= i <= self.ids@.len(),
                before == string_views(self.ids@),
                wanted@ == id@,
                forall|j: int| 0 <= j < i ==> self.ids@[j]@ != id@,
            decreases self.ids@.len() - i,
        {
            if self.ids[i] == wanted {
                assert(before[i as int] == id@);
                return false;
            }
            i = i + 1;
        }
        assert(!before.to_set().contains(id@)) by {
            if before.to_set().contains(id@) {
                let k = choose|k: int| 0 <= k < before.len() && before[k] == id@;
                assert(self.ids@[k]@ == id@);
            }
        }
        self.ids.push(wanted);
        proof {
            let after = string_views(self.ids@);
            assert(after =~= before.push(id@));
            assert forall|x: Seq<char>| after.to_set().contains(x) <==> before.to_set().insert(id@).contains(x) by {
                if after.to_set().contains(x) {
                    let k = choose|k: int| 0 <= k < after.len() && after[k] == x;
                    if k < before.len() { assert(before[k] == x); }
                }
                if before.to_set().contains(x) {
                    let k = choose|k: int| 0 <= k < before.len() && before[k] == x;
                    assert(after[k] == x);
                }
                if x == id@ { assert(after[before.len() as int] == x); }
            }
            assert(after.to_set() =~= before.to_set().insert(id@));
        }
        true
    }
}

impl IdRegistry {
    /// Registers a landmark identifier, which must be nonempty and new.
    pub fn register_landmark(&mut self, id: &str) -> (r: Result<(), String>)
        ensures
            r is Ok <==> (id@.len() > 0 && !old(self).registered().contains(id@)),
            r is Ok ==> final(self).registered() == old(self).registered().insert(id@),
            r matches Err(e) ==> e@ == "landmark IDs must be nonempty and unique"@,
    {
        if self.register(id) {
            Ok(())
        } else {
            proof { reveal_strlit("landmark IDs must be nonempty and unique"); }
            Err(String::from_str("landmark IDs must be nonempty and unique"))
        }
    }

    /// Registers a trajectory segment identifier, which must be nonempty and new.
    pub fn register_segment(&mut self, id: &str) -> (r: Result<(), String>)
        ensures
            r is Ok <==> (id@.len() > 0 && !old(self).registered().contains(id@)),
            r is Ok ==> final(self).registered() == old(self).registered().insert(id@),
            r matches Err(e) ==> e@ == "trajectory segment IDs must be nonempty and unique"@,
    {
        if self.register(id) {
            Ok(())
        } else {
            proof { reveal_strlit("trajectory segment IDs must be nonempty and unique"); }
            Err(String::from_str("trajectory segment IDs must be nonempty and unique"))
        }
    }
}

/// Checks that the world holds at least one landmark.
pub fn check_landmarks_present(count: usize) -> (r: Result<(), String>)
    ensures
        r is Ok <==> count > 0,
        r matches Err(e) ==> e@ == "world must contain at least one landmark"@,
{
    if count > 0 {
        Ok(())
    } else {
        proof { reveal_strlit("world must contain at least one landmark"); }
        Err(String::from_str("world must contain at least one landmark"))
    }
}

/// Checks that the trajectory holds at least one segment.
pub fn check_segments_present(count: usize) -> (r: Result<(), String>)
    ensures
        r is Ok <==> count > 0,
        r matches Err(e) ==> e@ == "trajectory must contain at least one segment"@,
{
    if count > 0 {
        Ok(())
    } else {
        proof { reveal_strlit("trajectory must contain at least one segment"); }
        Err(String::from_str("trajectory must contain at least one segment"))
    }
}

} // verus!
