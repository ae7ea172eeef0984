//! A randomized constructive solver for multi-round grouping schedules with a
//! no-repeat-acquaintance constraint (Kirkman's schoolgirl problem and the
//! social-golfer family): participants are partitioned into fixed-capacity
//! groups over several rounds so that no two participants ever share a group
//! more than once.

pub mod group;
pub mod participant;
pub mod participant_set;
pub mod round;
mod rng;
pub mod solver;
