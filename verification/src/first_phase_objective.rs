//! The objective of the first phase: passengers without a seat, then depots
//! out of balance, then vehicles, then distance run empty, then seat
//! distance.

use vstd::prelude::*;
use crate::distance::Distance;
use crate::objective::{clamp, BaseValue, Coefficient, Indicator, Level, Objective};
use crate::schedule::queries::{balance_violation, clip64, dead_head_total, seat_distance, unserved};
use crate::schedule::Schedule;

verus! {

/// What the first phase counts and measures on a schedule.
#[derive(Debug, Clone, Copy, PartialEq, Eq, Structural)]
pub enum FirstPhaseIndicator {
    UnservedPassengers,
    DepotBalanceViolation,
    NumberOfVehicles,
    DeadHeadDistance,
    SeatDistance,
}

/// The name under which an indicator is reported.
pub open spec fn name_of(indicator: FirstPhaseIndicator) -> Seq<char> {
    match indicator {
        FirstPhaseIndicator::UnservedPassengers => "unservedPassengers"@,
        FirstPhaseIndicator::DepotBalanceViolation => "depotBalanceViolation"@,
        FirstPhaseIndicator::NumberOfVehicles => "numberOfVehicles"@,
        FirstPhaseIndicator::DeadHeadDistance => "deadHeadDistance"@,
        FirstPhaseIndicator::SeatDistance => "seatDistance"@,
    }
}

/// A count as a value of the objective.
pub fn count_value(x: u64) -> (v: BaseValue)
    ensures
        v == BaseValue::Integer(clamp(x as int)),
{
    if x > i64::MAX as u64 {
        BaseValue::Integer(i64::MAX)
    } else {
        BaseValue::Integer(x as i64)
    }
}

impl Indicator<Schedule> for FirstPhaseIndicator {
    open spec fn applies(&self, solution: &Schedule) -> bool {
        solution.wf()
    }

    open spec fn value(&self, solution: &Schedule) -> BaseValue {
        let m = solution@;
        let nw = solution.spec_network();
        match *self {
            FirstPhaseIndicator::UnservedPassengers => BaseValue::Integer(
                clamp(unserved(m, &nw, nw.spec_services().len() as int)),
            ),
            FirstPhaseIndicator::DepotBalanceViolation => BaseValue::Integer(
                clamp(
                    balance_violation(
                        m,
                        nw.spec_depots().len() as int,
                        solution.spec_vehicle_types().ids(),
                    ),
                ),
            ),
            FirstPhaseIndicator::NumberOfVehicles => BaseValue::Integer(
                clamp(m.vehicles.dom().len() as int),
            ),
            FirstPhaseIndicator::DeadHeadDistance => match dead_head_total(
                m,
                &nw,
                m.vehicle_ids.len() as int,
            ) {
                Distance::Distance(d) => BaseValue::Integer(clamp(d as int)),
                Distance::Infinity => BaseValue::Maximum,
            },
            FirstPhaseIndicator::SeatDistance => BaseValue::Integer(
                clamp(clip64(seat_distance(m, &nw, m.vehicle_ids.len() as int)) as int),
            ),
        }
    }

    fn evaluate(&self, solution: &Schedule) -> (r: BaseValue) {
        match self {
            FirstPhaseIndicator::UnservedPassengers => count_value(
                solution.number_of_unserved_passengers(),
            ),
            FirstPhaseIndicator::DepotBalanceViolation => count_value(
                solution.total_depot_balance_violation(),
            ),
            FirstPhaseIndicator::NumberOfVehicles => count_value(
                solution.number_of_vehicles() as u64,
            ),
            FirstPhaseIndicator::DeadHeadDistance => match solution.total_dead_head_distance() {
                Distance::Distance(d) => count_value(d),
                Distance::Infinity => BaseValue::Maximum,
            },
            FirstPhaseIndicator::SeatDistance => count_value(solution.seat_distance_traveled()),
        }
    }

    fn name(&self) -> (r: String)
        ensures
            r@ == name_of(*self),
    {
        match self {
            FirstPhaseIndicator::UnservedPassengers => "unservedPassengers".to_owned(),
            FirstPhaseIndicator::DepotBalanceViolation => "depotBalanceViolation".to_owned(),
            FirstPhaseIndicator::NumberOfVehicles => "numberOfVehicles".to_owned(),
            FirstPhaseIndicator::DeadHeadDistance => "deadHeadDistance".to_owned(),
            FirstPhaseIndicator::SeatDistance => "seatDistance".to_owned(),
        }
    }
}

/// The level that counts one indicator once.
pub fn level_of(indicator: FirstPhaseIndicator) -> (l: Level<FirstPhaseIndicator>)
    ensures
        l.spec_summands() == seq![(Coefficient::Integer(1), indicator)],
{
    let mut summands: Vec<(Coefficient, FirstPhaseIndicator)> = Vec::new();
    summands.push((Coefficient::Integer(1), indicator));
    proof {
        assert(summands@ =~= seq![(Coefficient::Integer(1), indicator)]);
    }
    Level::new(summands)
}

/// The objective of the first phase.
pub fn build() -> (o: Objective<FirstPhaseIndicator>)
    ensures
        o.spec_levels().len() == 5,
        o.spec_levels()[0].spec_summands() == seq![
            (Coefficient::Integer(1), FirstPhaseIndicator::UnservedPassengers),
        ],
        o.spec_levels()[1].spec_summands() == seq![
            (Coefficient::Integer(1), FirstPhaseIndicator::DepotBalanceViolation),
        ],
        o.spec_levels()[2].spec_summands() == seq![
            (Coefficient::Integer(1), FirstPhaseIndicator::NumberOfVehicles),
        ],
        o.spec_levels()[3].spec_summands() == seq![
            (Coefficient::Integer(1), FirstPhaseIndicator::DeadHeadDistance),
        ],
        o.spec_levels()[4].spec_summands() == seq![
            (Coefficient::Integer(1), FirstPhaseIndicator::SeatDistance),
        ],
        forall|s: Schedule| #[trigger] s.wf() ==> o.applies(&s),
{
    let mut levels: Vec<Level<FirstPhaseIndicator>> = Vec::new();
    levels.push(level_of(FirstPhaseIndicator::UnservedPassengers));
    levels.push(level_of(FirstPhaseIndicator::DepotBalanceViolation));
    levels.push(level_of(FirstPhaseIndicator::NumberOfVehicles));
    levels.push(level_of(FirstPhaseIndicator::DeadHeadDistance));
    levels.push(level_of(FirstPhaseIndicator::SeatDistance));
    let o = Objective::new(levels);
    proof {
        assert forall|s: Schedule| #[trigger] s.wf() implies o.applies(&s) by {
            assert forall|i: int| 0 <= i < o.spec_levels().len() implies (#[trigger] o.spec_levels()[i]).applies(
                &s,
            ) by {
                let l = o.spec_levels()[i];
                assert forall|j: int| 0 <= j < l.spec_summands().len() implies (#[trigger] l.spec_summands()[j]).1.applies(
                    &s,
                ) by {}
            }
        }
    }
    o
}

} // verus!
