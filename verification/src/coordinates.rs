//! Positions of the state variables in the estimators' state vectors.

use vstd::prelude::*;

verus! {

/// The variables of the vehicle state, in state-vector order.
#[derive(Debug, Clone, Copy, PartialEq, Eq)]
pub enum StateIndex {
    PositionWorldX,
    PositionWorldY,
    YawWorldFromBody,
    ForwardSpeed,
    GyroBias,
    AccelBias,
}

/// The names of the vehicle state variables, in state-vector order.
pub open spec fn state_name(i: int) -> Seq<char> {
    if i == 0 { "position_world_x_m"@ }
    else if i == 1 { "position_world_y_m"@ }
    else if i == 2 { "yaw_world_from_body_rad"@ }
    else if i == 3 { "forward_speed_mps"@ }
    else if i == 4 { "gyro_bias_z_radps"@ }
    else { "accel_bias_x_mps2"@ }
}

impl StateIndex {
    /// The position of the variable in the state vector.
    pub fn index(self) -> (i: usize)
        ensures
            self == StateIndex::PositionWorldX ==> i == 0,
            self == StateIndex::PositionWorldY ==> i == 1,
            self == StateIndex::YawWorldFromBody ==> i == 2,
            self == StateIndex::ForwardSpeed ==> i == 3,
            self == StateIndex::GyroBias ==> i == 4,
            self == StateIndex::AccelBias ==> i == 5,
    {
        match self {
            StateIndex::PositionWorldX => 0,
            StateIndex::PositionWorldY => 1,
            StateIndex::YawWorldFromBody => 2,
            StateIndex::ForwardSpeed => 3,
            StateIndex::GyroBias => 4,
            StateIndex::AccelBias => 5,
        }
    }
}

/// The number of vehicle state variables.
pub const STATE_DIMENSION: usize = 6;

/// The names of the vehicle state variables, in state-vector order.
pub fn state_names() -> (names: Vec<String>)
    ensures
        names@.len() == STATE_DIMENSION,
        forall|i: int| 0 <= i < STATE_DIMENSION ==> #[trigger] names@[i]@ == state_name(i),
{
    proof {
        reveal_strlit("position_world_x_m");
        reveal_strlit("position_world_y_m");
        reveal_strlit("yaw_world_from_body_rad");
        reveal_strlit("forward_speed_mps");
        reveal_strlit("gyro_bias_z_radps");
        reveal_strlit("accel_bias_x_mps2");
    }
    let mut names: Vec<String> = Vec::new();
    names.push(String::from_str("position_world_x_m"));
    names.push(String::from_str("position_world_y_m"));
    names.push(String::from_str("yaw_world_from_body_rad"));
    names.push(String::from_str("forward_speed_mps"));
    names.push(String::from_str("gyro_bias_z_radps"));
    names.push(String::from_str("accel_bias_x_mps2"));
    names
}

/// The variables of an object track's state, in state-vector order.
#[derive(Debug, Clone, Copy, PartialEq, Eq)]
pub enum TrackCoordinate {
    PositionX,
    PositionY,
    VelocityX,
    VelocityY,
}

impl TrackCoordinate {
    /// The position of the variable in the track state vector.
    pub fn index(self) -> (i: usize)
        ensures
            self == TrackCoordinate::PositionX ==> i == 0,
            self == TrackCoordinate::PositionY ==> i == 1,
            self == TrackCoordinate::VelocityX ==> i == 2,
            self == TrackCoordinate::VelocityY ==> i == 3,
    {
        match self {
            TrackCoordinate::PositionX => 0,
            TrackCoordinate::PositionY => 1,
            TrackCoordinate::VelocityX => 2,
            TrackCoordinate::VelocityY => 3,
        }
    }
}

} // verus!
