//! Verified core of a sensor-fusion and target-tracking workbench.

pub mod arith;
pub mod diagnostics;
pub mod hypothesis;
pub mod ids;
pub mod lifecycle;
pub mod observation;
pub mod text;
pub mod tracker;
pub mod manager;
pub mod association;
pub mod order;
pub mod ego_timing;
pub mod perception;
pub mod continuity;
pub mod fingerprint;
pub mod random;
pub mod sweep;
pub mod sweep_groups;
pub mod bundle;
pub mod runs;
pub mod coordinates;
pub mod mcap_log;
pub mod external;
pub mod schedule;
pub mod scenario_checks;
pub mod compare;
