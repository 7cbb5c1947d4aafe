//! The parameters of an instance.

use vstd::prelude::*;
use crate::distance::Distance;
use crate::time::Duration;

verus! {

#[derive(Debug, Clone, Copy, PartialEq, Eq, Structural)]
pub struct Config {
    /// The time a vehicle needs between two trips at one station.
    pub shunting_minimal_duration: Duration,
    /// The time a vehicle needs, besides the travel time, when it runs
    /// empty between two trips at different stations.
    pub shunting_dead_head_trip_duration: Duration,
    /// The longest train formation a trip takes unless its route says otherwise.
    pub default_maximal_formation_length: Distance,
}

impl Config {
    pub fn new(
        shunting_minimal_duration: Duration,
        shunting_dead_head_trip_duration: Duration,
        default_maximal_formation_length: Distance,
    ) -> (c: Config)
        ensures
            c.shunting_minimal_duration == shunting_minimal_duration,
            c.shunting_dead_head_trip_duration == shunting_dead_head_trip_duration,
            c.default_maximal_formation_length == default_maximal_formation_length,
    {
        Config {
            shunting_minimal_duration,
            shunting_dead_head_trip_duration,
            default_maximal_formation_length,
        }
    }
}

} // verus!
