//! A first schedule, trip by trip: every trip that lacks seats gets the
//! vehicle that can still reach it and has been busy the longest, or a new
//! vehicle if there is none.

use vstd::prelude::*;
use std::sync::Arc;
use crate::base_types::{Idx, NodeIdx, VehicleIdx, VehicleTypeIdx};
use crate::chain::covers_something;
use crate::config::Config;
use crate::network::Network;
use crate::objective::{EvaluatedSolution, Indicator, Objective};
use crate::path::Path;
use crate::schedule::add_path::{add_path_fault, after_add_path};
use crate::schedule::depots::with_nearest_end_depots;
use crate::schedule::model::{formations_ok, ScheduleModel};
use crate::schedule::modifications::spawn_outcome;
use crate::schedule::queries::{lemma_unserved_zero, unserved, unserved_at};
use crate::schedule::steps::with_vehicle;
use crate::schedule::{Schedule, ScheduleError};
use crate::segment::Segment;
use crate::time::{time_rank, DateTime};
use crate::tour::displaced;
use crate::train_formation::{seats_sum, Vehicle};
use crate::vehicle_types::VehicleTypes;

verus! {

pub struct Greedy<I> {
    vehicles: Arc<VehicleTypes>,
    network: Arc<Network>,
    config: Arc<Config>,
    objective: Arc<Objective<I>>,
}

/// The last trip or slot of the tour of vehicle `k`.
pub open spec fn last_stop(m: ScheduleModel, k: Idx) -> NodeIdx {
    m.tours[k].nodes[m.tours[k].nodes.len() - 2]
}

/// Vehicle `k` can take `trip`: it has seats, and its last trip or slot
/// reaches the trip.
pub open spec fn can_take(m: ScheduleModel, nw: &Network, k: Idx, trip: NodeIdx) -> bool {
    &&& m.vehicles.contains_key(k)
    &&& m.vehicles[k].seats > 0
    &&& nw.reaches(last_stop(m, k), trip)
}

/// Vehicle `k` is no better a choice for `trip` than vehicle `v`: where it
/// can take the trip, it is free earlier, or at the same time with no
/// greater an id.
pub open spec fn no_better(m: ScheduleModel, nw: &Network, k: Idx, v: Idx, trip: NodeIdx) -> bool {
    can_take(m, nw, k, trip) ==> {
        let a = time_rank(nw.spec_end_time(last_stop(m, k)));
        let b = time_rank(nw.spec_end_time(last_stop(m, v)));
        a < b || (a == b && k <= v)
    }
}

/// Vehicle `v` is the one that takes `trip`.
pub open spec fn is_pick(m: ScheduleModel, nw: &Network, v: Idx, trip: NodeIdx) -> bool {
    &&& can_take(m, nw, v, trip)
    &&& forall|k: Idx| no_better(m, nw, k, v, trip)
}

/// No two vehicles are the one that takes a trip.
pub proof fn lemma_pick_unique(m: ScheduleModel, nw: &Network, a: Idx, b: Idx, trip: NodeIdx)
    requires
        is_pick(m, nw, a, trip),
        is_pick(m, nw, b, trip),
    ensures
        a == b,
{
    assert(no_better(m, nw, a, b, trip));
    assert(no_better(m, nw, b, a, trip));
}

/// The first trip from `i` on that has fewer seats than passengers, by its
/// number; the number of trips if there is none.
pub open spec fn first_lacking(m: ScheduleModel, nw: &Network, i: int) -> int
    decreases nw.spec_services().len() - i,
{
    if i < 0 || i >= nw.spec_services().len() {
        nw.spec_services().len() as int
    } else if seats_sum(m.formations[NodeIdx::Service(i as Idx)]) < nw.spec_demand(
        NodeIdx::Service(i as Idx),
    ) {
        i
    } else {
        first_lacking(m, nw, i + 1)
    }
}

/// The vehicle that takes a trip into its tour: the one that is picked for
/// it, unless a node of its tour would have to give way.
pub open spec fn spec_taker(m: ScheduleModel, nw: &Network, trip: NodeIdx) -> Option<Idx> {
    if exists|k: Idx| can_take(m, nw, k, trip) {
        let v = choose|v: Idx| is_pick(m, nw, v, trip);
        if covers_something(displaced(nw, m.tours[v].nodes, trip, trip)) {
            None
        } else {
            Some(v)
        }
    } else {
        None
    }
}

/// The next step towards a schedule in which every passenger has a seat:
/// the first trip that lacks seats goes into the tour of the vehicle that
/// takes it, or gets a new vehicle of the first type if no vehicle takes
/// it. None if no trip lacks seats; the error if the step cannot be made.
pub open spec fn greedy_next(m: ScheduleModel, nw: &Network, vt: &VehicleTypes) -> Option<
    Result<ScheduleModel, ScheduleError>,
> {
    let i = first_lacking(m, nw, 0);
    if i >= nw.spec_services().len() {
        None
    } else {
        let trip = NodeIdx::Service(i as Idx);
        Some(
            match spec_taker(m, nw, trip) {
                Some(k) => match add_path_fault(m, nw, VehicleIdx::Vehicle(k), seq![trip]) {
                    Some(e) => Err(e),
                    None => Ok(after_add_path(m, nw, k, seq![trip])),
                },
                None => if vt.ids().len() == 0 {
                    Err(ScheduleError::UnknownVehicleType(VehicleTypeIdx(0)))
                } else {
                    let t = vt.ids()[0];
                    match spawn_outcome(m, nw, vt, t, seq![trip]) {
                        Err(e) => Err(e),
                        Ok((vehicle, tour)) => if vehicle.seats == 0 {
                            Err(ScheduleError::NoSeats(t))
                        } else {
                            Ok(with_vehicle(m, vehicle, tour))
                        },
                    }
                },
            },
        )
    }
}

/// The schedule after step by step was made from `m` until no trip lacked
/// seats, or the error of the first step that could not be made. Every
/// step seats a passenger more, so no more steps are made than passengers
/// are without a seat: `fuel` bounds them.
pub open spec fn greedy_from(m: ScheduleModel, nw: &Network, vt: &VehicleTypes, fuel: int) -> Result<
    ScheduleModel,
    ScheduleError,
>
    decreases fuel,
{
    match greedy_next(m, nw, vt) {
        None => Ok(m),
        Some(Err(e)) => Err(e),
        Some(Ok(next)) => if fuel <= 0 {
            Ok(m)
        } else {
            greedy_from(next, nw, vt, fuel - 1)
        },
    }
}

/// The schedule without vehicles: every trip and slot has the empty
/// formation.
pub open spec fn no_vehicles(nw: &Network) -> ScheduleModel {
    ScheduleModel {
        vehicles: Map::empty(),
        tours: Map::empty(),
        dummy_tours: Map::empty(),
        formations: Map::new(|n: NodeIdx| nw.coverable(n), |n: NodeIdx| Seq::empty()),
        spawned: Map::total(|k: (Idx, Idx)| Set::empty()),
        despawned: Map::total(|k: (Idx, Idx)| Set::empty()),
        vehicle_ids: Seq::empty(),
        dummy_ids: Seq::empty(),
        counter: 0,
    }
}

/// What a greedy run gives for a network and vehicle types: the schedule
/// that the steps from the schedule without vehicles lead to, with every
/// vehicle at its nearest end depot; or the error of the step that failed.
pub open spec fn greedy_result(nw: &Network, vt: &VehicleTypes) -> Result<ScheduleModel, ScheduleError> {
    let start = no_vehicles(nw);
    match greedy_from(start, nw, vt, unserved(start, nw, nw.spec_services().len() as int)) {
        Ok(m) => Ok(with_nearest_end_depots(m, nw, m.vehicle_ids.len() as int)),
        Err(e) => Err(e),
    }
}

/// Fewer passengers are without a seat after a vehicle with seats came to
/// the formation of a trip that lacked seats, if all other formations have
/// the seats they had.
pub proof fn lemma_fewer_unserved(
    m: ScheduleModel,
    m2: ScheduleModel,
    nw: &Network,
    trip: Idx,
    n: int,
    count: int,
)
    requires
        0 <= n <= count <= 0x10000,
        seats_sum(m.formations[NodeIdx::Service(trip)]) < nw.spec_demand(NodeIdx::Service(trip)),
        seats_sum(m2.formations[NodeIdx::Service(trip)]) > seats_sum(
            m.formations[NodeIdx::Service(trip)],
        ),
        forall|i: Idx|
            i != trip && i < count ==> #[trigger] m2.formations[NodeIdx::Service(i)]
                == m.formations[NodeIdx::Service(i)],
    ensures
        unserved(m2, nw, n) <= unserved(m, nw, n),
        trip < n ==> unserved(m2, nw, n) < unserved(m, nw, n),
    decreases n,
{
    if n > 0 {
        lemma_fewer_unserved(m, m2, nw, trip, n - 1, count);
        let i = (n - 1) as Idx;
        if i != trip {
            assert(m2.formations[NodeIdx::Service(i)] == m.formations[NodeIdx::Service(i)]);
        }
    }
}

impl<I> Greedy<I> {
    pub closed spec fn spec_network(&self) -> Network {
        *self.network
    }

    pub closed spec fn spec_vehicle_types(&self) -> VehicleTypes {
        *self.vehicles
    }

    pub closed spec fn spec_objective(&self) -> Objective<I> {
        *self.objective
    }

    pub fn initialize(
        vehicles: Arc<VehicleTypes>,
        network: Arc<Network>,
        config: Arc<Config>,
        objective: Arc<Objective<I>>,
    ) -> (g: Greedy<I>)
        ensures
            g.spec_network() == *network,
            g.spec_vehicle_types() == *vehicles,
            g.spec_objective() == *objective,
    {
        Greedy { vehicles, network, config, objective }
    }

    /// The first trip that has fewer seats than passengers.
    pub fn first_uncovered(schedule: &Schedule) -> (r: Option<NodeIdx>)
        requires
            schedule.wf(),
        ensures
            match r {
                Some(n) => n is Service && schedule.spec_network().coverable(n) && seats_sum(
                    schedule@.formations[n],
                ) < schedule.spec_network().spec_demand(n) && forall|j: int|
                    0 <= j < n.idx() ==> seats_sum(schedule@.formations[NodeIdx::Service(j as Idx)])
                        >= #[trigger] schedule.spec_network().spec_demand(NodeIdx::Service(j as Idx)),
                None => unserved(
                    schedule@,
                    &schedule.spec_network(),
                    schedule.spec_network().spec_services().len() as int,
                ) == 0,
            },
            match r {
                Some(n) => n == NodeIdx::Service(
                    first_lacking(schedule@, &schedule.spec_network(), 0) as Idx,
                ) && first_lacking(schedule@, &schedule.spec_network(), 0)
                    < schedule.spec_network().spec_services().len(),
                None => first_lacking(schedule@, &schedule.spec_network(), 0)
                    == schedule.spec_network().spec_services().len(),
            },
    {
        let nw = schedule.get_network();
        let n = nw.number_of_service_nodes();
        assert(n <= 0x10000) by {
            assert(schedule.spec_network().wf());
        }
        let mut i: usize = 0;
        while i < n
            invariant
                schedule.wf(),
                *nw == schedule.spec_network(),
                i <= n <= 0x10000,
                n == nw.spec_services().len(),
                forall|j: int|
                    0 <= j < i ==> seats_sum(schedule@.formations[NodeIdx::Service(j as Idx)])
                        >= #[trigger] nw.spec_demand(NodeIdx::Service(j as Idx)),
                first_lacking(schedule@, nw, 0) == first_lacking(schedule@, nw, i as int),
            decreases n - i,
        {
            let node = NodeIdx::Service(i as Idx);
            if !schedule.is_fully_covered(node) {
                assert(first_lacking(schedule@, nw, i as int) == i);
                return Some(node);
            }
            assert(first_lacking(schedule@, nw, i as int) == first_lacking(schedule@, nw, i + 1));
            i += 1;
        }
        proof {
            lemma_unserved_zero(schedule@, nw, n as int);
        }
        None
    }

    /// The vehicle that takes a trip: of the vehicles with seats whose last
    /// trip or slot reaches the trip, the one whose last trip or slot ends
    /// the latest, and of several such the one with the greatest id. None
    /// exactly where no vehicle can take the trip.
    pub fn pick_vehicle(schedule: &Schedule, trip: NodeIdx) -> (r: Option<(VehicleIdx, Vehicle)>)
        requires
            schedule.wf(),
            schedule.spec_network().contains(trip),
        ensures
            r is None <==> forall|k: Idx|
                !can_take(schedule@, &schedule.spec_network(), k, trip),
            r matches Some((v, vehicle)) ==> schedule.spec_is_vehicle(v) && vehicle
                == schedule@.vehicles[v.idx()] && is_pick(
                schedule@,
                &schedule.spec_network(),
                v.idx(),
                trip,
            ),
    {
        let nw = schedule.get_network();
        let ids = schedule.vehicles_iter();
        let mut best: Option<(VehicleIdx, Vehicle, DateTime)> = None;
        let mut i: usize = 0;
        while i < ids.len()
            invariant
                schedule.wf(),
                *nw == schedule.spec_network(),
                nw.contains(trip),
                ids@ == schedule@.vehicle_ids,
                i <= ids.len(),
                best is None ==> forall|j: int|
                    0 <= j < i ==> !can_take(schedule@, nw, (#[trigger] ids@[j]).idx(), trip),
                best matches Some((v, vehicle, t)) ==> schedule.spec_is_vehicle(v) && vehicle
                    == schedule@.vehicles[v.idx()] && can_take(schedule@, nw, v.idx(), trip) && t
                    == nw.spec_end_time(last_stop(schedule@, v.idx())) && forall|j: int|
                    0 <= j < i ==> no_better(schedule@, nw, (#[trigger] ids@[j]).idx(), v.idx(), trip),
            decreases ids.len() - i,
        {
            let v = ids[i];
            proof {
                assert(schedule@.vehicle_ids[i as int] == v);
                assert(schedule@.vehicles.dom().contains(v.idx()));
                assert(schedule@.vehicles.contains_key(v.idx()));
                assert(schedule@.tours.contains_key(v.idx()));
                assert(!v.is_dummy());
            }
            let vehicle = match schedule.get_vehicle(v) {
                Ok(x) => x,
                Err(_) => {
                    i += 1;
                    continue ;
                },
            };
            let tour = match schedule.tour_of(v) {
                Ok(t) => t,
                Err(_) => {
                    i += 1;
                    continue ;
                },
            };
            let last = tour.last_non_depot(nw).unwrap();
            assert(last == last_stop(schedule@, v.idx()));
            if vehicle.seats > 0 && nw.can_reach(last, trip) {
                let ends = nw.end_time(last);
                let later = match best {
                    Some((_, _, t)) => t.le(ends),
                    None => true,
                };
                if later {
                    proof {
                        assert forall|j: int| 0 <= j < i + 1 implies no_better(
                            schedule@,
                            nw,
                            (#[trigger] ids@[j]).idx(),
                            v.idx(),
                            trip,
                        ) by {
                            if j < i {
                                assert(ids@[j].idx() < ids@[i as int].idx());
                                if let Some((w, _, _)) = best {
                                    assert(no_better(schedule@, nw, ids@[j].idx(), w.idx(), trip));
                                }
                            }
                        }
                    }
                    best = Some((v, vehicle, ends));
                }
            }
            i += 1;
        }
        proof {
            assert forall|k: Idx| can_take(schedule@, nw, k, trip) implies match best {
                Some((v, _, _)) => no_better(schedule@, nw, k, v.idx(), trip),
                None => false,
            } by {
                assert(schedule@.vehicles.dom().contains(k));
                let j = choose|j: int|
                    0 <= j < ids@.len() && (#[trigger] schedule@.vehicle_ids[j]).idx() == k;
                assert(ids@[j].idx() == k);
            }
        }
        match best {
            Some((v, vehicle, _)) => Some((v, vehicle)),
            None => None,
        }
    }

    /// The schedule that comes of the empty one by giving every trip that
    /// lacks seats a vehicle, again and again, and every vehicle its nearest
    /// end depot at the end; with its value. In it no passenger is without a
    /// seat. Fails where a vehicle is needed and none can be spawned.
    pub fn solve(&self) -> (r: Result<EvaluatedSolution<Schedule>, ScheduleError>) where
        I: Indicator<Schedule>,

        requires
            self.spec_network().wf(),
            self.spec_vehicle_types().wf(),
            forall|s: Schedule| #[trigger] s.wf() ==> self.spec_objective().applies(&s),
        ensures
            r matches Ok(e) ==> {
                &&& e.spec_solution().wf()
                &&& e.spec_solution().spec_network() == self.spec_network()
                &&& e.spec_solution().spec_vehicle_types() == self.spec_vehicle_types()
                &&& e.spec_value() == self.spec_objective().value_of(&e.spec_solution())
                &&& unserved(
                    e.spec_solution()@,
                    &self.spec_network(),
                    self.spec_network().spec_services().len() as int,
                ) == 0
            },
            match greedy_result(&self.spec_network(), &self.spec_vehicle_types()) {
                Ok(m) => r matches Ok(e) && e.spec_solution()@ == m,
                Err(e) => r matches Err(x) && x == e,
            },
    {
        let ghost nw = self.spec_network();
        let ghost vt = self.spec_vehicle_types();
        let ghost count = nw.spec_services().len() as int;
        let mut schedule = Schedule::empty(
            self.vehicles.clone(),
            self.network.clone(),
            self.config.clone(),
        );
        assert(count <= 0x10000) by {
            assert(nw.wf());
        }
        let ghost start = no_vehicles(&nw);
        proof {
            assert(schedule@.formations =~= start.formations);
            assert(schedule@.spawned =~= start.spawned);
            assert(schedule@.despawned =~= start.despawned);
            assert(schedule@ == start);
            lemma_unserved_zero(start, &nw, count);
        }
        let ghost whole = greedy_from(start, &nw, &vt, unserved(start, &nw, count));
        let ghost mut fuel: int = unserved(start, &nw, count);
        loop
            invariant
                schedule.wf(),
                schedule.spec_network() == nw,
                schedule.spec_vehicle_types() == self.spec_vehicle_types(),
                nw == self.spec_network(),
                vt == self.spec_vehicle_types(),
                nw.wf(),
                count == nw.spec_services().len(),
                count <= 0x10000,
                start == no_vehicles(&nw),
                whole == greedy_from(start, &nw, &vt, unserved(start, &nw, count)),
                whole == greedy_from(schedule@, &nw, &vt, fuel),
                unserved(schedule@, &nw, count) <= fuel,
            ensures
                schedule.wf(),
                schedule.spec_network() == nw,
                schedule.spec_vehicle_types() == self.spec_vehicle_types(),
                unserved(schedule@, &nw, count) == 0,
                whole == Ok::<ScheduleModel, ScheduleError>(schedule@),
            decreases unserved(schedule@, &nw, count),
        {
            let ghost m = schedule@;
            proof {
                lemma_unserved_zero(m, &nw, count);
            }
            let trip = match Self::first_uncovered(&schedule) {
                Some(t) => t,
                None => {
                    assert(greedy_next(m, &nw, &vt) is None);
                    break ;
                },
            };
            proof {
                let i = trip.idx() as int;
                assert(trip == NodeIdx::Service(i as Idx));
                assert(seats_sum(m.formations[NodeIdx::Service(i as Idx)]) < nw.spec_demand(
                    NodeIdx::Service(i as Idx),
                ));
                assert(unserved(m, &nw, count) > 0);
                assert(fuel > 0);
            }
            let taker = match Self::pick_vehicle(&schedule, trip) {
                Some((v, vehicle)) => {
                    proof {
                        let c = choose|c: Idx| is_pick(m, &nw, c, trip);
                        lemma_pick_unique(m, &nw, v.idx(), c, trip);
                    }
                    match schedule.conflict(Segment::new(trip, trip), v) {
                        Ok(None) => Some((v, vehicle)),
                        _ => None,
                    }
                },
                None => None,
            };
            proof {
                assert(spec_taker(m, &nw, trip) == match taker {
                    Some((v, _)) => Some(v.idx()),
                    None => None,
                });
            }
            let next = match taker {
                Some((v, vehicle)) => {
                    let path = Path::new_from_single_node(trip, schedule.get_network());
                    assert(v == VehicleIdx::Vehicle(v.idx()));
                    let next = match schedule.add_path_to_vehicle_tour(v, path) {
                        Ok(s) => s,
                        Err(e) => {
                            proof {
                                assert(greedy_next(m, &nw, &vt) == Some(
                                    Err::<ScheduleModel, ScheduleError>(e),
                                ));
                            }
                            return Err(e);
                        },
                    };
                    proof {
                        assert(greedy_next(m, &nw, &vt) == Some(
                            Ok::<ScheduleModel, ScheduleError>(next@),
                        ));
                    }
                    proof {
                        let k = v.idx();
                        let p = seq![trip];
                        let gone = displaced(&nw, m.tours[k].nodes, p[0], p.last());
                        assert(!covers_something(gone));
                        assert(p[0] == trip && p.last() == trip);
                        assert forall|n: NodeIdx| !(gone.contains(n) && !n.is_depot()) by {
                            if gone.contains(n) && !n.is_depot() {
                                let w = choose|w: int| 0 <= w < gone.len() && gone[w] == n;
                                assert(!gone[w].is_depot());
                            }
                        }
                        assert(m.formations.contains_key(trip));
                        assert(p.contains(trip)) by {
                            assert(p[0] == trip);
                        }
                        assert(next@.formations[trip] == m.formations[trip].push(vehicle));
                        assert(m.formations[trip].push(vehicle).drop_last() =~= m.formations[trip]);
                        assert forall|i: Idx| i != trip.idx() && i < count implies #[trigger] next@.formations[NodeIdx::Service(
                            i,
                        )] == m.formations[NodeIdx::Service(i)] by {
                            let n = NodeIdx::Service(i);
                            assert(nw.coverable(n));
                            assert(m.formations.contains_key(n));
                            if p.contains(n) {
                                let w = choose|w: int| 0 <= w < p.len() && p[w] == n;
                            }
                        }
                        lemma_fewer_unserved(m, next@, &nw, trip.idx(), count, count);
                    }
                    next
                },
                None => {
                    let types = self.vehicles.iter();
                    if types.len() == 0 {
                        proof {
                            assert(greedy_next(m, &nw, &vt) == Some(
                                Err::<ScheduleModel, ScheduleError>(
                                    ScheduleError::UnknownVehicleType(VehicleTypeIdx(0)),
                                ),
                            ));
                        }
                        return Err(ScheduleError::UnknownVehicleType(VehicleTypeIdx(0)));
                    }
                    let t = types[0];
                    let mut nodes: Vec<NodeIdx> = Vec::new();
                    nodes.push(trip);
                    let ghost given = nodes@;
                    assert(given =~= seq![trip]);
                    let next = match schedule.spawn_vehicle_for_path(t, nodes) {
                        Ok(s) => s,
                        Err(e) => {
                            proof {
                                assert(greedy_next(m, &nw, &vt) == Some(
                                    Err::<ScheduleModel, ScheduleError>(e),
                                ));
                            }
                            return Err(e);
                        },
                    };
                    let seats = match next.get_vehicle(VehicleIdx::Vehicle(schedule.counter())) {
                        Ok(v) => v.seats,
                        Err(_) => 0,
                    };
                    proof {
                        let out = spawn_outcome(m, &nw, &vt, t, given);
                        let (vehicle, tour) = out->Ok_0;
                        assert(next@.vehicles[vehicle.id.idx()] == vehicle);
                        assert(next@.vehicles.contains_key(vehicle.id.idx()));
                        assert(seats == vehicle.seats);
                    }
                    if seats == 0 {
                        proof {
                            assert(greedy_next(m, &nw, &vt) == Some(
                                Err::<ScheduleModel, ScheduleError>(ScheduleError::NoSeats(t)),
                            ));
                        }
                        return Err(ScheduleError::NoSeats(t));
                    }
                    proof {
                        assert(greedy_next(m, &nw, &vt) == Some(
                            Ok::<ScheduleModel, ScheduleError>(next@),
                        ));
                    }
                    proof {
                        let out = spawn_outcome(
                            m,
                            &nw,
                            &self.spec_vehicle_types(),
                            t,
                            given,
                        );
                        let (vehicle, tour) = out->Ok_0;
                        assert(given =~= seq![trip]);
                        assert(tour.len() == 3 && tour[1] == trip && tour[0].is_depot()
                            && tour[2].is_depot());
                        assert(m.formations.contains_key(trip));
                        assert(tour.contains(trip)) by {
                            assert(tour[1] == trip);
                        }
                        assert(next@.formations[trip] == m.formations[trip].push(vehicle));
                        assert(m.formations[trip].push(vehicle).drop_last() =~= m.formations[trip]);
                        assert forall|i: Idx| i != trip.idx() && i < count implies #[trigger] next@.formations[NodeIdx::Service(
                            i,
                        )] == m.formations[NodeIdx::Service(i)] by {
                            let n = NodeIdx::Service(i);
                            assert(nw.coverable(n));
                            assert(m.formations.contains_key(n));
                            if tour.contains(n) {
                                let w = choose|w: int| 0 <= w < tour.len() && tour[w] == n;
                            }
                        }
                        lemma_fewer_unserved(m, next@, &nw, trip.idx(), count, count);
                    }
                    next
                },
            };
            proof {
                lemma_unserved_zero(next@, &nw, count);
                assert(greedy_from(m, &nw, &vt, fuel) == greedy_from(next@, &nw, &vt, fuel - 1));
                fuel = fuel - 1;
            }
            schedule = next;
        }
        let ghost before = schedule@;
        let schedule = match schedule.reassign_end_depots_greedily() {
            Ok(s) => s,
            Err(e) => {
                return Err(e);
            },
        };
        proof {
            crate::schedule::depots::lemma_with_nearest_end_depots(
                before,
                &nw,
                &self.spec_vehicle_types(),
                before.vehicle_ids.len() as int,
            );
            lemma_same_unserved(before, schedule@, &nw, count);
        }
        Ok(self.objective.evaluate(schedule))
    }
}

/// Two schedules with the same formations leave the same passengers without
/// a seat.
pub proof fn lemma_same_unserved(m: ScheduleModel, m2: ScheduleModel, nw: &Network, n: int)
    requires
        m.formations == m2.formations,
    ensures
        unserved(m, nw, n) == unserved(m2, nw, n),
    decreases n,
{
    if n > 0 {
        lemma_same_unserved(m, m2, nw, n - 1);
    }
}

} // verus!
