//! The neighbours of a schedule: the schedules that come of it by one move.

use vstd::prelude::*;
use crate::base_types::{Idx, NodeIdx, VehicleIdx, VehicleTypeIdx};
use crate::local_search::LocalSearchable;
use crate::network::Network;
use crate::schedule::fit::{after_fit, fit_fault};
use crate::schedule::model::ScheduleModel;
use crate::schedule::modifications::spawn_outcome;
use crate::schedule::reassign_model::tour_in;
use crate::schedule::steps::{with_vehicle, without_dummy};
use crate::vehicle_types::VehicleTypes;
use crate::schedule::Schedule;
use crate::tour::TourModel;
use crate::segment::Segment;

verus! {

/// The segment from the first trip or slot of a tour to its last.
pub open spec fn whole_segment(t: TourModel) -> Segment {
    if t.dummy {
        Segment { start: t.nodes[0], end: t.nodes.last() }
    } else {
        Segment { start: t.nodes[1], end: t.nodes[t.nodes.len() - 2] }
    }
}

/// `s` comes of `m` when a new vehicle of type `t` takes the tour of the
/// dummy `d` over.
pub open spec fn by_replacing(
    m: ScheduleModel,
    nw: &Network,
    vt: &VehicleTypes,
    d: Idx,
    t: VehicleTypeIdx,
    s: ScheduleModel,
) -> bool {
    &&& m.dummy_tours.contains_key(d)
    &&& spawn_outcome(without_dummy(m, d), nw, vt, t, m.dummy_tours[d].nodes) matches Ok((v, tour))
    &&& s == with_vehicle(without_dummy(m, d), v, tour)
}

/// `s` comes of `m` when the vehicle `receiver` takes over what fits of the
/// whole tour of `provider`.
pub open spec fn by_fitting(
    m: ScheduleModel,
    nw: &Network,
    provider: VehicleIdx,
    receiver: VehicleIdx,
    s: ScheduleModel,
) -> bool {
    &&& receiver is Vehicle
    &&& fit_fault(m, nw, whole_segment(tour_in(m, provider)), provider, receiver) is None
    &&& s == after_fit(m, nw, whole_segment(tour_in(m, provider)), provider, receiver)
}

/// `s` comes of `m` by one move.
pub open spec fn one_move(m: ScheduleModel, nw: &Network, vt: &VehicleTypes, s: ScheduleModel) -> bool {
    ||| exists|d: Idx, t: VehicleTypeIdx| by_replacing(m, nw, vt, d, t, s)
    ||| exists|provider: VehicleIdx, receiver: VehicleIdx| by_fitting(m, nw, provider, receiver, s)
}

/// A neighbour of `this`: a consistent schedule on the same network that
/// comes of it by one move.
pub open spec fn neighbour(this: &Schedule, s: &Schedule) -> bool {
    &&& s.wf()
    &&& s.same_frame(this)
    &&& one_move(this@, &this.spec_network(), &this.spec_vehicle_types(), s@)
}

impl Schedule {
    /// The segment that names the whole tour of a vehicle or dummy, from its
    /// first trip or slot to its last.
    pub fn whole_tour(&self, vehicle: VehicleIdx) -> (r: Option<Segment>)
        requires
            self.wf(),
        ensures
            r.is_some() == (self.spec_is_vehicle(vehicle) || self.spec_is_dummy(vehicle)),
            r matches Some(s) ==> s == whole_segment(tour_in(self@, vehicle)),
    {
        proof {
            self.lemma_same_keys();
        }
        match self.tour_of(vehicle) {
            Ok(tour) => {
                proof {
                    if vehicle is Vehicle {
                        assert(self@.tours.contains_key(vehicle.idx()));
                    }
                }
                let first = tour.first_non_depot(&self.network).unwrap();
                let last = tour.last_non_depot(&self.network).unwrap();
                Some(Segment::new(first, last))
            },
            Err(_) => None,
        }
    }
}

/// The schedule in which a new vehicle of type `t` has taken the tour of
/// the dummy `d` over, if one can be spawned for it.
pub open spec fn replaced(
    m: ScheduleModel,
    nw: &Network,
    vt: &VehicleTypes,
    d: VehicleIdx,
    t: VehicleTypeIdx,
) -> Option<ScheduleModel> {
    match spawn_outcome(without_dummy(m, d.idx()), nw, vt, t, m.dummy_tours[d.idx()].nodes) {
        Ok((v, tour)) => Some(with_vehicle(without_dummy(m, d.idx()), v, tour)),
        Err(_) => None,
    }
}

/// The schedule in which `receiver` has taken over what fits of the whole
/// tour of `provider`, if that can be done.
pub open spec fn fitted(m: ScheduleModel, nw: &Network, provider: VehicleIdx, receiver: VehicleIdx) -> Option<
    ScheduleModel,
> {
    let segment = whole_segment(tour_in(m, provider));
    if fit_fault(m, nw, segment, provider, receiver) is None {
        Some(after_fit(m, nw, segment, provider, receiver))
    } else {
        None
    }
}

/// A list of neighbours with the outcome of one more move, if it succeeded.
pub open spec fn with_move(list: Seq<ScheduleModel>, outcome: Option<ScheduleModel>) -> Seq<ScheduleModel> {
    match outcome {
        Some(s) => list.push(s),
        None => list,
    }
}

/// The neighbours by replacing a dummy: for the first `d` dummies with
/// all types, and for the next dummy with the first `t` types.
pub open spec fn replace_moves(m: ScheduleModel, nw: &Network, vt: &VehicleTypes, d: int, t: int) -> Seq<
    ScheduleModel,
>
    decreases d, t,
{
    if t > 0 {
        with_move(
            replace_moves(m, nw, vt, d, t - 1),
            replaced(m, nw, vt, m.dummy_ids[d], vt.ids()[t - 1]),
        )
    } else if d > 0 {
        replace_moves(m, nw, vt, d - 1, vt.ids().len() as int)
    } else {
        Seq::empty()
    }
}

/// The neighbours by fitting a dummy's tour into a vehicle's: for the first
/// `d` dummies with all vehicles, and for the next dummy with the first
/// `v` vehicles.
pub open spec fn dummy_fits(m: ScheduleModel, nw: &Network, d: int, v: int) -> Seq<ScheduleModel>
    decreases d, v,
{
    if v > 0 {
        with_move(dummy_fits(m, nw, d, v - 1), fitted(m, nw, m.dummy_ids[d], m.vehicle_ids[v - 1]))
    } else if d > 0 {
        dummy_fits(m, nw, d - 1, m.vehicle_ids.len() as int)
    } else {
        Seq::empty()
    }
}

/// The neighbours by fitting a vehicle's tour into another's: for the first
/// `p` vehicles as providers with all others, and for the next provider
/// with those of the first `v` vehicles that are not the provider itself.
pub open spec fn vehicle_fits(m: ScheduleModel, nw: &Network, p: int, v: int) -> Seq<ScheduleModel>
    decreases p, v,
{
    if v > 0 {
        if v - 1 == p {
            vehicle_fits(m, nw, p, v - 1)
        } else {
            with_move(
                vehicle_fits(m, nw, p, v - 1),
                fitted(m, nw, m.vehicle_ids[p], m.vehicle_ids[v - 1]),
            )
        }
    } else if p > 0 {
        vehicle_fits(m, nw, p - 1, m.vehicle_ids.len() as int)
    } else {
        Seq::empty()
    }
}

/// The neighbours of a schedule in their order: by replacing a dummy, by
/// fitting a dummy's tour into a vehicle's, by fitting a vehicle's tour
/// into another's.
pub open spec fn moves(m: ScheduleModel, nw: &Network, vt: &VehicleTypes) -> Seq<ScheduleModel> {
    replace_moves(m, nw, vt, m.dummy_ids.len() as int, 0) + dummy_fits(
        m,
        nw,
        m.dummy_ids.len() as int,
        0,
    ) + vehicle_fits(m, nw, m.vehicle_ids.len() as int, 0)
}

/// What the contracts see of a list of schedules.
pub open spec fn views(list: Seq<Schedule>) -> Seq<ScheduleModel> {
    Seq::new(list.len(), |i: int| list[i]@)
}

impl LocalSearchable for Schedule {
    open spec fn valid(&self) -> bool {
        self.wf()
    }

    open spec fn neighbours_are(&self, list: &Vec<Schedule>) -> bool {
        &&& forall|i: int| 0 <= i < list@.len() ==> neighbour(self, #[trigger] &list@[i])
        &&& views(list@) == moves(self@, &self.spec_network(), &self.spec_vehicle_types())
    }

    /// The neighbours of a schedule, in this order: for every dummy and
    /// every vehicle type, the schedule in which a new vehicle of the type
    /// has taken the dummy's tour over; for every dummy and every vehicle,
    /// the schedule in which the vehicle has taken over what fits of the
    /// dummy's tour; and for every two vehicles, the schedule in which the
    /// second has taken over what fits of the first one's tour. A move that
    /// fails gives no neighbour.
    fn neighborhood(&self) -> (r: Vec<Schedule>)
        ensures
            forall|i: int| 0 <= i < r@.len() ==> neighbour(self, #[trigger] &r@[i]),
            views(r@) == moves(self@, &self.spec_network(), &self.spec_vehicle_types()),
    {
        let ghost m = self@;
        let ghost nw = self.spec_network();
        let ghost vt = self.spec_vehicle_types();
        let mut r: Vec<Schedule> = Vec::new();
        let dummies = self.dummy_iter();
        let vehicles = self.vehicles_iter();
        let types = self.vehicle_types.iter();
        proof {
            assert(views(r@) =~= replace_moves(m, &nw, &vt, 0, 0));
        }
        let mut d: usize = 0;
        while d < dummies.len()
            invariant
                self.wf(),
                m == self@,
                nw == self.spec_network(),
                vt == self.spec_vehicle_types(),
                dummies@ == m.dummy_ids,
                types@ == vt.ids(),
                d <= dummies.len(),
                forall|i: int| 0 <= i < r@.len() ==> neighbour(self, #[trigger] &r@[i]),
                views(r@) == replace_moves(m, &nw, &vt, d as int, 0),
            decreases dummies.len() - d,
        {
            let mut t: usize = 0;
            while t < types.len()
                invariant
                    self.wf(),
                    m == self@,
                    nw == self.spec_network(),
                    vt == self.spec_vehicle_types(),
                    dummies@ == m.dummy_ids,
                    types@ == vt.ids(),
                    d < dummies.len(),
                    t <= types.len(),
                    forall|i: int| 0 <= i < r@.len() ==> neighbour(self, #[trigger] &r@[i]),
                    views(r@) == replace_moves(m, &nw, &vt, d as int, t as int),
                decreases types.len() - t,
            {
                let ghost before = r@;
                proof {
                    assert(m.dummy_ids[d as int].is_dummy());
                    assert(m.dummy_tours.dom().contains(m.dummy_ids[d as int].idx()));
                    assert(self.spec_is_dummy(dummies@[d as int]));
                }
                match self.spawn_vehicle_to_replace_dummy_tour(dummies[d], types[t]) {
                    Ok(s) => {
                        proof {
                            assert(by_replacing(
                                self@,
                                &self.spec_network(),
                                &self.spec_vehicle_types(),
                                dummies[d as int].idx(),
                                types[t as int],
                                s@,
                            ));
                        }
                        r.push(s);
                        proof {
                            assert(views(r@) =~= views(before).push(s@));
                        }
                    },
                    Err(_) => {},
                }
                proof {
                    assert(views(r@) == with_move(
                        views(before),
                        replaced(m, &nw, &vt, m.dummy_ids[d as int], vt.ids()[t as int]),
                    ));
                    assert(views(r@) == replace_moves(m, &nw, &vt, d as int, t + 1));
                }
                t += 1;
            }
            proof {
                assert(replace_moves(m, &nw, &vt, d + 1, 0) == replace_moves(
                    m,
                    &nw,
                    &vt,
                    d as int,
                    vt.ids().len() as int,
                ));
            }
            d += 1;
        }
        let ghost first = r@;
        proof {
            assert(views(first) + dummy_fits(m, &nw, 0, 0) =~= views(first));
        }
        let mut d: usize = 0;
        while d < dummies.len()
            invariant
                self.wf(),
                m == self@,
                nw == self.spec_network(),
                dummies@ == m.dummy_ids,
                d <= dummies.len(),
                vehicles@ == self@.vehicle_ids,
                forall|i: int| 0 <= i < r@.len() ==> neighbour(self, #[trigger] &r@[i]),
                views(r@) == views(first) + dummy_fits(m, &nw, d as int, 0),
            decreases dummies.len() - d,
        {
            proof {
                assert(m.dummy_ids[d as int].is_dummy());
                assert(m.dummy_tours.dom().contains(m.dummy_ids[d as int].idx()));
                assert(self.spec_is_dummy(dummies@[d as int]));
            }
            match self.whole_tour(dummies[d]) {
                Some(segment) => {
                    let mut v: usize = 0;
                    while v < vehicles.len()
                        invariant
                            self.wf(),
                            m == self@,
                            nw == self.spec_network(),
                            dummies@ == m.dummy_ids,
                            d < dummies.len(),
                            v <= vehicles.len(),
                            vehicles@ == self@.vehicle_ids,
                            segment == whole_segment(tour_in(self@, dummies@[d as int])),
                            forall|i: int| 0 <= i < r@.len() ==> neighbour(self, #[trigger] &r@[i]),
                            views(r@) == views(first) + dummy_fits(m, &nw, d as int, v as int),
                        decreases vehicles.len() - v,
                    {
                        let ghost before = r@;
                        match self.fit_reassign(segment, dummies[d], vehicles[v]) {
                            Ok(s) => {
                                proof {
                                    assert(!self@.vehicle_ids[v as int].is_dummy());
                                    assert(by_fitting(
                                        self@,
                                        &self.spec_network(),
                                        dummies[d as int],
                                        vehicles[v as int],
                                        s@,
                                    ));
                                }
                                r.push(s);
                                proof {
                                    assert(views(r@) =~= views(before).push(s@));
                                }
                            },
                            Err(_) => {},
                        }
                        proof {
                            let outcome = fitted(m, &nw, m.dummy_ids[d as int], m.vehicle_ids[v as int]);
                            assert(views(r@) == with_move(views(before), outcome));
                            assert(dummy_fits(m, &nw, d as int, v + 1) == with_move(
                                dummy_fits(m, &nw, d as int, v as int),
                                outcome,
                            ));
                            assert(views(r@) =~= views(first) + dummy_fits(m, &nw, d as int, v + 1));
                        }
                        v += 1;
                    }
                },
                None => {},
            }
            proof {
                assert(dummy_fits(m, &nw, d + 1, 0) == dummy_fits(
                    m,
                    &nw,
                    d as int,
                    m.vehicle_ids.len() as int,
                ));
            }
            d += 1;
        }
        let ghost second = r@;
        proof {
            assert(views(second) + vehicle_fits(m, &nw, 0, 0) =~= views(second));
        }
        let mut p: usize = 0;
        while p < vehicles.len()
            invariant
                self.wf(),
                m == self@,
                nw == self.spec_network(),
                p <= vehicles.len(),
                vehicles@ == self@.vehicle_ids,
                forall|i: int| 0 <= i < r@.len() ==> neighbour(self, #[trigger] &r@[i]),
                views(r@) == views(second) + vehicle_fits(m, &nw, p as int, 0),
            decreases vehicles.len() - p,
        {
            proof {
                assert(!m.vehicle_ids[p as int].is_dummy());
                assert(m.vehicles.dom().contains(m.vehicle_ids[p as int].idx()));
                assert(self.spec_is_vehicle(vehicles@[p as int]));
            }
            match self.whole_tour(vehicles[p]) {
                Some(segment) => {
                    let mut v: usize = 0;
                    while v < vehicles.len()
                        invariant
                            self.wf(),
                            m == self@,
                            nw == self.spec_network(),
                            p < vehicles.len(),
                            v <= vehicles.len(),
                            vehicles@ == self@.vehicle_ids,
                            segment == whole_segment(tour_in(self@, vehicles@[p as int])),
                            forall|i: int| 0 <= i < r@.len() ==> neighbour(self, #[trigger] &r@[i]),
                            views(r@) == views(second) + vehicle_fits(m, &nw, p as int, v as int),
                        decreases vehicles.len() - v,
                    {
                        let ghost before = r@;
                        if v != p {
                            match self.fit_reassign(segment, vehicles[p], vehicles[v]) {
                                Ok(s) => {
                                    proof {
                                        assert(!self@.vehicle_ids[v as int].is_dummy());
                                        assert(by_fitting(
                                            self@,
                                            &self.spec_network(),
                                            vehicles[p as int],
                                            vehicles[v as int],
                                            s@,
                                        ));
                                    }
                                    r.push(s);
                                    proof {
                                        assert(views(r@) =~= views(before).push(s@));
                                    }
                                },
                                Err(_) => {},
                            }
                            proof {
                                let outcome = fitted(
                                    m,
                                    &nw,
                                    m.vehicle_ids[p as int],
                                    m.vehicle_ids[v as int],
                                );
                                assert(views(r@) == with_move(views(before), outcome));
                                assert(vehicle_fits(m, &nw, p as int, v + 1) == with_move(
                                    vehicle_fits(m, &nw, p as int, v as int),
                                    outcome,
                                ));
                                assert(views(r@) =~= views(second) + vehicle_fits(
                                    m,
                                    &nw,
                                    p as int,
                                    v + 1,
                                ));
                            }
                        } else {
                            proof {
                                assert(vehicle_fits(m, &nw, p as int, v + 1) == vehicle_fits(
                                    m,
                                    &nw,
                                    p as int,
                                    v as int,
                                ));
                            }
                        }
                        v += 1;
                    }
                },
                None => {},
            }
            proof {
                assert(vehicle_fits(m, &nw, p + 1, 0) == vehicle_fits(
                    m,
                    &nw,
                    p as int,
                    m.vehicle_ids.len() as int,
                ));
            }
            p += 1;
        }
        proof {
            assert(views(second) == views(first) + dummy_fits(m, &nw, m.dummy_ids.len() as int, 0));
            assert(views(first) == replace_moves(m, &nw, &vt, m.dummy_ids.len() as int, 0));
        }
        r
    }
}

} // verus!
