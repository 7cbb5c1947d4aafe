//! Transitions: how the vehicles of a schedule follow each other from one
//! day to the next, in cycles, and how far the cycles are past maintenance.

use vstd::prelude::*;
use crate::base_types::{Idx, MaintenanceCounter, VehicleIdx};
use crate::clusters::{cluster, cluster_views, clusters_of, clusters_part, in_clusters, index_sum};
use crate::network::Network;
use crate::schedule::model::ScheduleModel;
use crate::schedule::modifications::copy_ids;
use crate::schedule::Schedule;
use crate::tour::{clamp_counter, counter_sum};

verus! {

/// Vehicles that take each other's tours over, day after day, in a cycle.
pub struct TransitionCycle {
    cycle: Vec<VehicleIdx>,
    maintenance_violation: MaintenanceCounter,
}

impl TransitionCycle {
    pub closed spec fn spec_cycle(&self) -> Seq<VehicleIdx> {
        self.cycle@
    }

    pub closed spec fn spec_violation(&self) -> MaintenanceCounter {
        self.maintenance_violation
    }

    pub fn new(cycle: Vec<VehicleIdx>, maintenance_violation: MaintenanceCounter) -> (c: TransitionCycle)
        ensures
            c.spec_cycle() == cycle@,
            c.spec_violation() == maintenance_violation,
    {
        TransitionCycle { cycle, maintenance_violation }
    }

    /// The vehicles of the cycle in their order.
    pub fn cycle(&self) -> (r: &Vec<VehicleIdx>)
        ensures
            r@ == self.spec_cycle(),
    {
        &self.cycle
    }

    pub fn maintenance_violation(&self) -> (r: MaintenanceCounter)
        ensures
            r == self.spec_violation(),
    {
        self.maintenance_violation
    }
}

impl Clone for TransitionCycle {
    fn clone(&self) -> (r: TransitionCycle)
        ensures
            r.spec_cycle() == self.spec_cycle(),
            r.spec_violation() == self.spec_violation(),
    {
        TransitionCycle {
            cycle: copy_ids(&self.cycle),
            maintenance_violation: self.maintenance_violation,
        }
    }
}

pub struct Transition {
    cycles: Vec<TransitionCycle>,
    total_maintenance_violation: MaintenanceCounter,
}

/// The maintenance counter of a vehicle of a schedule.
pub open spec fn counter_of(m: ScheduleModel, nw: &Network, v: VehicleIdx) -> int {
    clamp_counter(counter_sum(nw, m.tours[v.idx()].nodes, m.tours[v.idx()].nodes.len() as int)) as int
}

/// The maintenance counters of the first `n` vehicles of a cycle together.
pub open spec fn cycle_counter(m: ScheduleModel, nw: &Network, cycle: Seq<VehicleIdx>, n: int) -> int
    decreases n,
{
    if n <= 0 {
        0
    } else {
        cycle_counter(m, nw, cycle, n - 1) + counter_of(m, nw, cycle[n - 1])
    }
}

/// How far a counter is past maintenance: not at all if it is below zero.
pub open spec fn violation_of(counter: int) -> MaintenanceCounter {
    if counter <= 0 {
        0
    } else {
        clamp_counter(counter)
    }
}

/// The violations of the first `n` cycles together.
pub open spec fn violations(cycles: Seq<TransitionCycle>, n: int) -> int
    decreases n,
{
    if n <= 0 {
        0
    } else {
        violations(cycles, n - 1) + cycles[n - 1].spec_violation()
    }
}

/// Whether a vehicle stands in one of the cycles.
pub open spec fn in_cycles(cycles: Seq<TransitionCycle>, v: VehicleIdx) -> bool {
    exists|c: int, p: int|
        0 <= c < cycles.len() && 0 <= p < cycles[c].spec_cycle().len()
            && #[trigger] cycles[c].spec_cycle()[p] == v
}

/// Whether cycles are a transition of a schedule: every vehicle of the
/// schedule stands in exactly one cycle, once, and nothing else does; and
/// every cycle is as far past maintenance as its vehicles are together.
pub open spec fn cycles_ok(cycles: Seq<TransitionCycle>, m: ScheduleModel, nw: &Network) -> bool {
    &&& forall|c: int, p: int|
        0 <= c < cycles.len() && 0 <= p < cycles[c].spec_cycle().len() ==> {
            let v = #[trigger] cycles[c].spec_cycle()[p];
            v is Vehicle && m.vehicles.contains_key(v.idx())
        }
    &&& forall|c: int, p: int, d: int, q: int|
        0 <= c < cycles.len() && 0 <= p < cycles[c].spec_cycle().len() && 0 <= d < cycles.len()
            && 0 <= q < cycles[d].spec_cycle().len() && (c != d || p != q)
            ==> #[trigger] cycles[c].spec_cycle()[p] != #[trigger] cycles[d].spec_cycle()[q]
    &&& forall|i: int| 0 <= i < m.vehicle_ids.len() ==> in_cycles(cycles, #[trigger] m.vehicle_ids[i])
    &&& forall|c: int|
        0 <= c < cycles.len() ==> (#[trigger] cycles[c]).spec_violation() == violation_of(
            cycle_counter(m, nw, cycles[c].spec_cycle(), cycles[c].spec_cycle().len() as int),
        )
}

impl Transition {
    pub closed spec fn spec_cycles(&self) -> Seq<TransitionCycle> {
        self.cycles@
    }

    pub closed spec fn spec_total(&self) -> MaintenanceCounter {
        self.total_maintenance_violation
    }

    /// Whether this is a transition of a schedule, with the violations of
    /// its cycles summed up.
    pub open spec fn wf(&self, schedule: &Schedule) -> bool {
        &&& cycles_ok(self.spec_cycles(), schedule@, &schedule.spec_network())
        &&& self.spec_total() == clamp_counter(
            violations(self.spec_cycles(), self.spec_cycles().len() as int),
        )
    }

    /// The cycles of the transition.
    pub fn cycles(&self) -> (r: &Vec<TransitionCycle>)
        ensures
            r@ == self.spec_cycles(),
    {
        &self.cycles
    }

    /// How far the cycles are past maintenance, all together.
    pub fn maintenance_violation(&self) -> (r: MaintenanceCounter)
        ensures
            r == self.spec_total(),
    {
        self.total_maintenance_violation
    }

    /// The counters of the vehicles of a cycle together, as far as they can
    /// be had.
    fn counter_of_cycle(cycle: &Vec<VehicleIdx>, schedule: &Schedule) -> (r: Option<i128>)
        requires
            schedule.wf(),
        ensures
            r matches Some(x) ==> x == cycle_counter(
                schedule@,
                &schedule.spec_network(),
                cycle@,
                cycle@.len() as int,
            ) && forall|p: int|
                0 <= p < cycle@.len() ==> (#[trigger] cycle@[p]) is Vehicle
                    && schedule@.vehicles.contains_key(cycle@[p].idx()),
            r is None ==> (exists|p: int|
                0 <= p < cycle@.len() && !((#[trigger] cycle@[p]) is Vehicle
                    && schedule@.vehicles.contains_key(cycle@[p].idx()))) || exists|
                p: int,
                q: int,
            | 0 <= p < q < cycle@.len() && #[trigger] cycle@[p] == #[trigger] cycle@[q],
            r is Some ==> cycle@.len() <= 0x10000,
            r is None ==> cycle@.len() > 0x10000 || exists|p: int|
                0 <= p < cycle@.len() && !((#[trigger] cycle@[p]) is Vehicle
                    && schedule@.vehicles.contains_key(cycle@[p].idx())),
    {
        let ghost m = schedule@;
        let ghost nw = schedule.spec_network();
        let mut total: i128 = 0;
        let mut p: usize = 0;
        if cycle.len() > 0x10000 {
            proof {
                lemma_long_cycle(cycle@, m);
            }
            return None;
        }
        while p < cycle.len()
            invariant
                schedule.wf(),
                m == schedule@,
                nw == schedule.spec_network(),
                p <= cycle@.len() <= 0x10000,
                total == cycle_counter(m, &nw, cycle@, p as int),
                -(p * 0x8000_0000_0000_0000) <= total <= p * 0x8000_0000_0000_0000,
                forall|j: int|
                    0 <= j < p ==> (#[trigger] cycle@[j]) is Vehicle && m.vehicles.contains_key(
                        cycle@[j].idx(),
                    ),
            decreases cycle.len() - p,
        {
            let v = cycle[p];
            if !schedule.is_vehicle(v) {
                return None;
            }
            proof {
                schedule.lemma_same_keys();
                assert(m.tours.contains_key(v.idx()));
            }
            let tour = match schedule.tour_of(v) {
                Ok(t) => t,
                Err(_) => {
                    proof {
                        assert(false);
                    }
                    return None;
                },
            };
            let c = tour.maintenance_counter(schedule.get_network());
            assert(p * 0x8000_0000_0000_0000 <= 0x10000 * 0x8000_0000_0000_0000) by (nonlinear_arith)
                requires
                    0 <= p <= 0x10000,
            ;
            total = total + c as i128;
            p += 1;
        }
        Some(total)
    }

    /// The cycle of some vehicles of a schedule in their order, with how far
    /// it is past maintenance: as far as the counters of its vehicles are
    /// above zero together. None if something in it is no vehicle of the
    /// schedule, or if it is longer than there are vehicle numbers.
    pub fn cycle_of(cycle: Vec<VehicleIdx>, schedule: &Schedule) -> (r: Option<TransitionCycle>)
        requires
            schedule.wf(),
        ensures
            r is Some <==> cycle@.len() <= 0x10000 && forall|p: int|
                0 <= p < cycle@.len() ==> (#[trigger] cycle@[p]) is Vehicle
                    && schedule@.vehicles.contains_key(cycle@[p].idx()),
            r matches Some(c) ==> c.spec_cycle() == cycle@ && c.spec_violation() == violation_of(
                cycle_counter(schedule@, &schedule.spec_network(), cycle@, cycle@.len() as int),
            ),
    {
        match Self::counter_of_cycle(&cycle, schedule) {
            Some(s) => {
                let violation: MaintenanceCounter = if s <= 0 {
                    0
                } else if s > MaintenanceCounter::MAX as i128 {
                    MaintenanceCounter::MAX
                } else {
                    s as MaintenanceCounter
                };
                Some(TransitionCycle::new(cycle, violation))
            },
            None => None,
        }
    }

    /// Whether this is a transition of the schedule.
    pub fn verify_consistency(&self, schedule: &Schedule) -> (b: bool)
        requires
            schedule.wf(),
        ensures
            b == self.wf(schedule),
    {
        let ghost m = schedule@;
        let ghost nw = schedule.spec_network();
        let ghost cycles = self.spec_cycles();
        // the vehicles of every cycle, and how far the cycle is past maintenance
        let mut sum: i128 = 0;
        let mut c: usize = 0;
        while c < self.cycles.len()
            invariant
                schedule.wf(),
                m == schedule@,
                nw == schedule.spec_network(),
                cycles == self.spec_cycles(),
                c <= cycles.len(),
                sum == violations(cycles, c as int),
                0 <= sum <= c * 0x7fff_ffff_ffff_ffff,
                forall|a: int, p: int|
                    0 <= a < c && 0 <= p < cycles[a].spec_cycle().len() ==> {
                        let v = #[trigger] cycles[a].spec_cycle()[p];
                        v is Vehicle && m.vehicles.contains_key(v.idx())
                    },
                forall|a: int|
                    0 <= a < c ==> (#[trigger] cycles[a]).spec_violation() == violation_of(
                        cycle_counter(m, &nw, cycles[a].spec_cycle(), cycles[a].spec_cycle().len() as int),
                    ),
            decreases self.cycles.len() - c,
        {
            let cycle = &self.cycles[c];
            let counter = match Self::counter_of_cycle(&cycle.cycle, schedule) {
                Some(x) => x,
                None => {
                    proof {
                        let members = cycles[c as int].spec_cycle();
                        if exists|p: int|
                            0 <= p < members.len() && !((#[trigger] members[p]) is Vehicle
                                && m.vehicles.contains_key(members[p].idx())) {
                            let p = choose|p: int|
                                0 <= p < members.len() && !((#[trigger] members[p]) is Vehicle
                                    && m.vehicles.contains_key(members[p].idx()));
                            assert(cycles[c as int].spec_cycle()[p] == members[p]);
                        } else {
                            let (p, q) = choose|p: int, q: int|
                                0 <= p < q < members.len() && #[trigger] members[p]
                                    == #[trigger] members[q];
                            assert(cycles[c as int].spec_cycle()[p] == cycles[c as int].spec_cycle()[q]);
                        }
                        assert(!cycles_ok(cycles, m, &nw));
                    }
                    return false;
                },
            };
            let violation: MaintenanceCounter = if counter <= 0 {
                0
            } else if counter > MaintenanceCounter::MAX as i128 {
                MaintenanceCounter::MAX
            } else {
                counter as MaintenanceCounter
            };
            if cycle.maintenance_violation != violation {
                assert(cycles[c as int].spec_violation() != violation_of(
                    cycle_counter(
                        m,
                        &nw,
                        cycles[c as int].spec_cycle(),
                        cycles[c as int].spec_cycle().len() as int,
                    ),
                ));
                return false;
            }
            assert((c + 1) * 0x7fff_ffff_ffff_ffff <= 0x1_0000_0000_0000_0000
                * 0x7fff_ffff_ffff_ffff) by (nonlinear_arith)
                requires
                    0 <= c + 1 <= 0x1_0000_0000_0000_0000,
            ;
            sum = sum + cycle.maintenance_violation as i128;
            c += 1;
        }
        let total: MaintenanceCounter = if sum > MaintenanceCounter::MAX as i128 {
            MaintenanceCounter::MAX
        } else if sum < MaintenanceCounter::MIN as i128 {
            MaintenanceCounter::MIN
        } else {
            sum as MaintenanceCounter
        };
        if total != self.total_maintenance_violation {
            return false;
        }
        // no vehicle twice
        let mut c: usize = 0;
        while c < self.cycles.len()
            invariant
                cycles == self.spec_cycles(),
                c <= cycles.len(),
                forall|a: int, p: int, d: int, q: int|
                    0 <= a < c && 0 <= p < cycles[a].spec_cycle().len() && 0 <= d < cycles.len()
                        && 0 <= q < cycles[d].spec_cycle().len() && (a != d || p != q)
                        ==> #[trigger] cycles[a].spec_cycle()[p] != #[trigger] cycles[d].spec_cycle()[q],
            decreases self.cycles.len() - c,
        {
            let mut p: usize = 0;
            while p < self.cycles[c].cycle.len()
                invariant
                    cycles == self.spec_cycles(),
                    c < cycles.len(),
                    p <= cycles[c as int].spec_cycle().len(),
                    forall|e: int, d: int, q: int|
                        0 <= e < p && 0 <= d < cycles.len() && 0 <= q < cycles[d].spec_cycle().len()
                            && (c != d || e != q) ==> #[trigger] cycles[c as int].spec_cycle()[e]
                            != #[trigger] cycles[d].spec_cycle()[q],
                decreases self.cycles[c as int].cycle.len() - p,
            {
                let v = self.cycles[c].cycle[p];
                let mut d: usize = 0;
                while d < self.cycles.len()
                    invariant
                        cycles == self.spec_cycles(),
                        c < cycles.len(),
                        p < cycles[c as int].spec_cycle().len(),
                        v == cycles[c as int].spec_cycle()[p as int],
                        d <= cycles.len(),
                        forall|a: int, q: int|
                            0 <= a < d && 0 <= q < cycles[a].spec_cycle().len() && (c != a || p
                                != q) ==> v != #[trigger] cycles[a].spec_cycle()[q],
                    decreases self.cycles.len() - d,
                {
                    let mut q: usize = 0;
                    while q < self.cycles[d].cycle.len()
                        invariant
                            cycles == self.spec_cycles(),
                            c < cycles.len(),
                            d < cycles.len(),
                            p < cycles[c as int].spec_cycle().len(),
                            v == cycles[c as int].spec_cycle()[p as int],
                            q <= cycles[d as int].spec_cycle().len(),
                            forall|e: int|
                                0 <= e < q && (c != d || p != e) ==> v
                                    != #[trigger] cycles[d as int].spec_cycle()[e],
                        decreases self.cycles[d as int].cycle.len() - q,
                    {
                        if (c != d || p != q) && self.cycles[d].cycle[q] == v {
                            assert(cycles[c as int].spec_cycle()[p as int]
                                == cycles[d as int].spec_cycle()[q as int]);
                            return false;
                        }
                        q += 1;
                    }
                    d += 1;
                }
                p += 1;
            }
            c += 1;
        }
        // every vehicle in a cycle
        let ids = schedule.vehicles_iter();
        let mut i: usize = 0;
        while i < ids.len()
            invariant
                cycles == self.spec_cycles(),
                m == schedule@,
                ids@ == m.vehicle_ids,
                i <= ids.len(),
                forall|j: int| 0 <= j < i ==> in_cycles(cycles, #[trigger] m.vehicle_ids[j]),
            decreases ids.len() - i,
        {
            let v = ids[i];
            let mut found = false;
            let mut d: usize = 0;
            while d < self.cycles.len() && !found
                invariant
                    cycles == self.spec_cycles(),
                    d <= cycles.len(),
                    found ==> in_cycles(cycles, v),
                    !found ==> forall|a: int, q: int|
                        0 <= a < d && 0 <= q < cycles[a].spec_cycle().len() ==> v
                            != #[trigger] cycles[a].spec_cycle()[q],
                decreases self.cycles.len() - d,
            {
                let mut q: usize = 0;
                while q < self.cycles[d].cycle.len() && !found
                    invariant
                        cycles == self.spec_cycles(),
                        d < cycles.len(),
                        q <= cycles[d as int].spec_cycle().len(),
                        found ==> in_cycles(cycles, v),
                        !found ==> forall|e: int|
                            0 <= e < q ==> v != #[trigger] cycles[d as int].spec_cycle()[e],
                    decreases self.cycles[d as int].cycle.len() - q,
                {
                    if self.cycles[d].cycle[q] == v {
                        assert(cycles[d as int].spec_cycle()[q as int] == v);
                        found = true;
                    }
                    q += 1;
                }
                d += 1;
            }
            if !found {
                assert(!in_cycles(cycles, m.vehicle_ids[i as int]));
                return false;
            }
            i += 1;
        }
        true
    }

    /// The transition in which every vehicle follows itself: one cycle for
    /// each vehicle, in the order of the ids.
    pub fn one_cylce_per_vehicle(schedule: &Schedule) -> (t: Transition)
        requires
            schedule.wf(),
        ensures
            t.wf(schedule),
            t.spec_cycles().len() == schedule@.vehicle_ids.len(),
            forall|i: int|
                0 <= i < t.spec_cycles().len() ==> (#[trigger] t.spec_cycles()[i]).spec_cycle()
                    == seq![schedule@.vehicle_ids[i]],
    {
        let ghost m = schedule@;
        let ghost nw = schedule.spec_network();
        let ids = schedule.vehicles_iter();
        let mut cycles: Vec<TransitionCycle> = Vec::new();
        let mut sum: i128 = 0;
        let mut i: usize = 0;
        proof {
            if ids@.len() > 0 {
                crate::schedule::queries::lemma_few_ids(m.vehicle_ids, 0);
            }
        }
        while i < ids.len()
            invariant
                schedule.wf(),
                m == schedule@,
                nw == schedule.spec_network(),
                ids@ == m.vehicle_ids,
                i <= ids.len() <= 0x10000,
                cycles@.len() == i,
                sum == violations(cycles@, i as int),
                0 <= sum <= i * 0x8000_0000_0000_0000,
                forall|j: int|
                    0 <= j < i ==> (#[trigger] cycles@[j]).spec_cycle() == seq![m.vehicle_ids[j]],
                forall|j: int|
                    0 <= j < i ==> (#[trigger] cycles@[j]).spec_violation() == violation_of(
                        cycle_counter(m, &nw, cycles@[j].spec_cycle(), 1),
                    ),
            decreases ids.len() - i,
        {
            let v = ids[i];
            proof {
                assert(m.vehicle_ids[i as int] == v);
                assert(m.vehicles.dom().contains(v.idx()));
                assert(m.vehicles.contains_key(v.idx()));
                assert(m.tours.contains_key(v.idx()));
                assert(!v.is_dummy());
            }
            let tour = match schedule.tour_of(v) {
                Ok(t) => t,
                Err(_) => {
                    proof {
                        assert(false);
                    }
                    i += 1;
                    continue ;
                },
            };
            let counter = tour.maintenance_counter(schedule.get_network());
            let violation: MaintenanceCounter = if counter <= 0 {
                0
            } else {
                counter
            };
            let mut members: Vec<VehicleIdx> = Vec::new();
            members.push(v);
            proof {
                assert(members@ =~= seq![v]);
                assert(cycle_counter(m, &nw, members@, 0) == 0);
                assert(cycle_counter(m, &nw, members@, 1) == counter_of(m, &nw, v));
            }
            let ghost before = cycles@;
            cycles.push(TransitionCycle::new(members, violation));
            proof {
                assert(cycles@.drop_last() =~= before);
                lemma_violations_prefix(cycles@, before, i as int);
                assert(i * 0x8000_0000_0000_0000 <= 0x10000 * 0x8000_0000_0000_0000) by (nonlinear_arith)
                    requires
                        0 <= i <= 0x10000,
                ;
            }
            sum = sum + violation as i128;
            i += 1;
        }
        let total: MaintenanceCounter = if sum > MaintenanceCounter::MAX as i128 {
            MaintenanceCounter::MAX
        } else {
            sum as MaintenanceCounter
        };
        let t = Transition { cycles, total_maintenance_violation: total };
        proof {
            let cs = t.spec_cycles();
            assert forall|c: int, p: int, d: int, q: int|
                0 <= c < cs.len() && 0 <= p < cs[c].spec_cycle().len() && 0 <= d < cs.len() && 0
                    <= q < cs[d].spec_cycle().len() && (c != d || p != q) implies #[trigger] cs[c].spec_cycle()[p]
                != #[trigger] cs[d].spec_cycle()[q] by {
                if c < d {
                    assert(m.vehicle_ids[c].idx() < m.vehicle_ids[d].idx());
                } else {
                    assert(m.vehicle_ids[d].idx() < m.vehicle_ids[c].idx());
                }
            }
            assert forall|j: int| 0 <= j < m.vehicle_ids.len() implies in_cycles(
                cs,
                #[trigger] m.vehicle_ids[j],
            ) by {
                assert(cs[j].spec_cycle()[0] == m.vehicle_ids[j]);
            }
            assert forall|c: int, p: int| 0 <= c < cs.len() && 0 <= p < cs[c].spec_cycle().len() implies {
                let v = #[trigger] cs[c].spec_cycle()[p];
                v is Vehicle && m.vehicles.contains_key(v.idx())
            } by {
                assert(m.vehicles.dom().contains(m.vehicle_ids[c].idx()));
                assert(!m.vehicle_ids[c].is_dummy());
            }
        }
        t
    }

    /// The maintenance counters of the vehicles of a schedule, in the order
    /// of the ids.
    pub fn counters(schedule: &Schedule) -> (r: Vec<MaintenanceCounter>)
        requires
            schedule.wf(),
        ensures
            r@.len() == schedule@.vehicle_ids.len(),
            forall|i: int|
                0 <= i < r@.len() ==> #[trigger] r@[i] == counter_of(
                    schedule@,
                    &schedule.spec_network(),
                    schedule@.vehicle_ids[i],
                ),
    {
        let nw = schedule.get_network();
        let ids = schedule.vehicles_iter();
        let mut counters: Vec<MaintenanceCounter> = Vec::new();
        let mut i: usize = 0;
        while i < ids.len()
            invariant
                schedule.wf(),
                *nw == schedule.spec_network(),
                ids@ == schedule@.vehicle_ids,
                i <= ids.len(),
                counters@.len() == i,
                forall|j: int|
                    0 <= j < i ==> #[trigger] counters@[j] == counter_of(
                        schedule@,
                        &schedule.spec_network(),
                        schedule@.vehicle_ids[j],
                    ),
            decreases ids.len() - i,
        {
            proof {
                let v = ids@[i as int];
                assert(schedule@.vehicle_ids[i as int] == v);
                assert(schedule@.vehicles.dom().contains(v.idx()));
                assert(schedule@.vehicles.contains_key(v.idx()));
                assert(schedule@.tours.contains_key(v.idx()));
                assert(!v.is_dummy());
            }
            let c = match schedule.tour_of(ids[i]) {
                Ok(tour) => tour.maintenance_counter(nw),
                Err(_) => 0,
            };
            counters.push(c);
            i += 1;
        }
        counters
    }

    /// The vehicles of a cluster, by their ids.
    fn members(ids: &Vec<VehicleIdx>, cluster: &Vec<usize>) -> (r: Vec<VehicleIdx>)
        requires
            forall|p: int| 0 <= p < cluster@.len() ==> (#[trigger] cluster@[p]) < ids@.len(),
        ensures
            r@.len() == cluster@.len(),
            forall|p: int| 0 <= p < r@.len() ==> #[trigger] r@[p] == ids@[cluster@[p] as int],
    {
        let mut r: Vec<VehicleIdx> = Vec::new();
        let mut p: usize = 0;
        while p < cluster.len()
            invariant
                p <= cluster@.len(),
                r@.len() == p,
                forall|q: int| 0 <= q < cluster@.len() ==> (#[trigger] cluster@[q]) < ids@.len(),
                forall|q: int| 0 <= q < p ==> #[trigger] r@[q] == ids@[cluster@[q] as int],
            decreases cluster.len() - p,
        {
            assert(cluster@[p as int] < ids@.len());
            r.push(ids[cluster[p]]);
            p += 1;
        }
        r
    }

    /// A transition of the schedule whose cycles are built around the
    /// vehicles that have distance to spare before their next maintenance:
    /// each of them starts a cycle. Every other vehicle, the ones furthest
    /// past maintenance first, joins the cycle with the most to spare that
    /// it does not push past maintenance, or the one that is furthest past
    /// it if there is no such cycle. If no vehicle has distance to spare,
    /// all vehicles are one cycle. The cycles come in the order in which
    /// they were started, their vehicles in the order in which they joined.
    pub fn one_cluster_per_maintenance(schedule: &Schedule) -> (t: Transition)
        requires
            schedule.wf(),
        ensures
            t.wf(schedule),
            clustered(t.spec_cycles(), schedule@, &schedule.spec_network()),
            cycles_as_clustered(
                t.spec_cycles(),
                schedule@.vehicle_ids,
                clusters_of(counters_of(schedule@, &schedule.spec_network())),
            ),
    {
        let ghost m = schedule@;
        let ghost nw = schedule.spec_network();
        let ids = schedule.vehicles_iter();
        let counters = Self::counters(schedule);
        proof {
            assert(counters@ =~= counters_of(m, &nw));
        }
        proof {
            if ids@.len() > 0 {
                crate::schedule::queries::lemma_few_ids(m.vehicle_ids, 0);
            }
        }
        let (clusters, sums) = cluster(&counters);
        let mut cycles: Vec<TransitionCycle> = Vec::new();
        let mut total: i128 = 0;
        let mut k: usize = 0;
        while k < clusters.len()
            invariant
                k <= clusters@.len(),
                sums@.len() == clusters@.len(),
                ids@ == m.vehicle_ids,
                counters@.len() == ids@.len(),
                clusters_part(clusters@, ids@.len() as int),
                cycles@.len() == k,
                total == violations(cycles@, k as int),
                0 <= total <= k * 0x7fff_ffff_ffff_ffff,
                forall|j: int|
                    0 <= j < k ==> {
                        &&& (#[trigger] cycles@[j]).spec_cycle().len() == clusters@[j]@.len()
                        &&& cycles@[j].spec_violation() == violation_of(sums@[j] as int)
                        &&& forall|p: int|
                            0 <= p < clusters@[j]@.len() ==> #[trigger] cycles@[j].spec_cycle()[p]
                                == ids@[clusters@[j]@[p] as int]
                    },
            decreases clusters.len() - k,
        {
            proof {
                assert forall|p: int| 0 <= p < clusters@[k as int]@.len() implies (
                #[trigger] clusters@[k as int]@[p]) < ids@.len() by {}
            }
            let members = Self::members(&ids, &clusters[k]);
            let s = sums[k];
            let violation: MaintenanceCounter = if s <= 0 {
                0
            } else if s > MaintenanceCounter::MAX as i128 {
                MaintenanceCounter::MAX
            } else {
                s as MaintenanceCounter
            };
            let ghost before = cycles@;
            cycles.push(TransitionCycle::new(members, violation));
            proof {
                assert(cycles@.drop_last() =~= before);
                lemma_violations_prefix(cycles@, before, k as int);
                assert(k * 0x7fff_ffff_ffff_ffff + 0x7fff_ffff_ffff_ffff == (k + 1)
                    * 0x7fff_ffff_ffff_ffff) by (nonlinear_arith);
                assert((k + 1) * 0x7fff_ffff_ffff_ffff <= 0x1_0000_0000_0000_0000
                    * 0x7fff_ffff_ffff_ffff) by (nonlinear_arith)
                    requires
                        0 <= k + 1 <= 0x1_0000_0000_0000_0000,
                ;
            }
            total = total + violation as i128;
            k += 1;
        }
        let total: MaintenanceCounter = if total > MaintenanceCounter::MAX as i128 {
            MaintenanceCounter::MAX
        } else {
            total as MaintenanceCounter
        };
        let t = Transition { cycles, total_maintenance_violation: total };
        proof {
            let cs = t.spec_cycles();
            let n = ids@.len() as int;
            let by_spec = clusters_of(counters_of(m, &nw));
            assert(cluster_views(clusters@) == by_spec);
            assert forall|k: int| 0 <= k < by_spec.len() implies (#[trigger] cs[k]).spec_cycle().len()
                == by_spec[k].len() && forall|p: int|
                0 <= p < by_spec[k].len() ==> #[trigger] cs[k].spec_cycle()[p]
                    == m.vehicle_ids[by_spec[k][p] as int] by {
                assert(by_spec[k] == clusters@[k]@);
            }
            assert forall|c: int, p: int| 0 <= c < cs.len() && 0 <= p < cs[c].spec_cycle().len() implies {
                let v = #[trigger] cs[c].spec_cycle()[p];
                v is Vehicle && m.vehicles.contains_key(v.idx())
            } by {
                let i = clusters@[c]@[p] as int;
                assert(cs[c].spec_cycle()[p] == m.vehicle_ids[i]);
                assert(m.vehicles.dom().contains(m.vehicle_ids[i].idx()));
                assert(!m.vehicle_ids[i].is_dummy());
            }
            assert forall|c: int, p: int, d: int, q: int|
                0 <= c < cs.len() && 0 <= p < cs[c].spec_cycle().len() && 0 <= d < cs.len() && 0
                    <= q < cs[d].spec_cycle().len() && (c != d || p != q) implies #[trigger] cs[c].spec_cycle()[p]
                != #[trigger] cs[d].spec_cycle()[q] by {
                let i = clusters@[c]@[p] as int;
                let j = clusters@[d]@[q] as int;
                assert(i != j);
                if i < j {
                    assert(m.vehicle_ids[i].idx() < m.vehicle_ids[j].idx());
                } else {
                    assert(m.vehicle_ids[j].idx() < m.vehicle_ids[i].idx());
                }
            }
            assert forall|i: int| 0 <= i < m.vehicle_ids.len() implies in_cycles(
                cs,
                #[trigger] m.vehicle_ids[i],
            ) by {
                assert(in_clusters(clusters@, i));
                let (c, p) = choose|c: int, p: int|
                    0 <= c < clusters@.len() && 0 <= p < clusters@[c]@.len()
                        && #[trigger] clusters@[c]@[p] == i;
                assert(cs[c].spec_cycle()[p] == m.vehicle_ids[i]);
            }
            assert forall|c: int| 0 <= c < cs.len() implies (#[trigger] cs[c]).spec_violation()
                == violation_of(
                cycle_counter(m, &nw, cs[c].spec_cycle(), cs[c].spec_cycle().len() as int),
            ) by {
                lemma_cluster_counter(
                    m,
                    &nw,
                    counters@,
                    clusters@[c]@,
                    cs[c].spec_cycle(),
                    cs[c].spec_cycle().len() as int,
                );
            }
            assert forall|c: int, p: int|
                0 <= c < cs.len() && 1 <= p < cs[c].spec_cycle().len() implies counter_of(
                m,
                &nw,
                #[trigger] cs[c].spec_cycle()[p],
            ) >= 0 by {
                let i = clusters@[c]@[p] as int;
                assert(cs[c].spec_cycle()[p] == m.vehicle_ids[i]);
                assert(counters@[i] >= 0);
            }
            if cs.len() > 1 {
                assert forall|c: int| 0 <= c < cs.len() implies counter_of(
                    m,
                    &nw,
                    (#[trigger] cs[c]).spec_cycle()[0],
                ) < 0 by {
                    assert(clusters@[c]@.len() >= 1);
                    let i = clusters@[c]@[0] as int;
                    assert(cs[c].spec_cycle()[0] == m.vehicle_ids[i]);
                    assert(counters@[i] < 0);
                }
            }
        }
        t
    }
}

/// The maintenance counters of the vehicles of a schedule, in the order of
/// the ids.
pub open spec fn counters_of(m: ScheduleModel, nw: &Network) -> Seq<MaintenanceCounter> {
    Seq::new(
        m.vehicle_ids.len(),
        |i: int|
            clamp_counter(
                counter_sum(
                    nw,
                    m.tours[m.vehicle_ids[i].idx()].nodes,
                    m.tours[m.vehicle_ids[i].idx()].nodes.len() as int,
                ),
            ),
    )
}

/// Whether the cycles are the clusters given, in their order, with every
/// vehicle named by its id.
pub open spec fn cycles_as_clustered(
    cycles: Seq<TransitionCycle>,
    ids: Seq<VehicleIdx>,
    clusters: Seq<Seq<usize>>,
) -> bool {
    &&& cycles.len() == clusters.len()
    &&& forall|k: int|
        0 <= k < clusters.len() ==> (#[trigger] cycles[k]).spec_cycle().len() == clusters[k].len()
            && forall|p: int|
            0 <= p < clusters[k].len() ==> #[trigger] cycles[k].spec_cycle()[p]
                == ids[clusters[k][p] as int]
}

/// Whether the cycles are built around the vehicles with distance to spare
/// before their next maintenance: no cycle is empty, only the first vehicle
/// of a cycle has distance to spare, and the first vehicle of every cycle
/// has, unless there is no more than one cycle.
pub open spec fn clustered(cycles: Seq<TransitionCycle>, m: ScheduleModel, nw: &Network) -> bool {
    &&& forall|c: int| 0 <= c < cycles.len() ==> (#[trigger] cycles[c]).spec_cycle().len() >= 1
    &&& forall|c: int, p: int|
        0 <= c < cycles.len() && 1 <= p < cycles[c].spec_cycle().len() ==> counter_of(
            m,
            nw,
            #[trigger] cycles[c].spec_cycle()[p],
        ) >= 0
    &&& (cycles.len() <= 1 || forall|c: int|
        0 <= c < cycles.len() ==> counter_of(m, nw, (#[trigger] cycles[c]).spec_cycle()[0]) < 0)
}

/// The counters of a cluster add up to the counter of the cycle of its
/// vehicles.
proof fn lemma_cluster_counter(
    m: ScheduleModel,
    nw: &Network,
    counters: Seq<MaintenanceCounter>,
    cluster: Seq<usize>,
    cycle: Seq<VehicleIdx>,
    n: int,
)
    requires
        0 <= n <= cluster.len(),
        n <= cycle.len(),
        counters.len() == m.vehicle_ids.len(),
        forall|i: int|
            0 <= i < counters.len() ==> #[trigger] counters[i] == counter_of(m, nw, m.vehicle_ids[i]),
        forall|p: int|
            0 <= p < n ==> (#[trigger] cluster[p]) < counters.len() && cycle[p]
                == m.vehicle_ids[cluster[p] as int],
    ensures
        index_sum(counters, cluster, n) == cycle_counter(m, nw, cycle, n),
    decreases n,
{
    if n > 0 {
        lemma_cluster_counter(m, nw, counters, cluster, cycle, n - 1);
        assert(cluster[n - 1] < counters.len());
    }
}

/// The violations of cycles are those of a list that starts with the same
/// cycles.
pub proof fn lemma_violations_prefix(longer: Seq<TransitionCycle>, shorter: Seq<TransitionCycle>, n: int)
    requires
        0 <= n <= shorter.len() <= longer.len(),
        forall|i: int| 0 <= i < shorter.len() ==> longer[i] == shorter[i],
    ensures
        violations(longer, n) == violations(shorter, n),
    decreases n,
{
    if n > 0 {
        lemma_violations_prefix(longer, shorter, n - 1);
    }
}

/// A cycle with more members than there are vehicle numbers holds
/// something that is no vehicle of the schedule, or a vehicle twice.
proof fn lemma_long_cycle(cycle: Seq<VehicleIdx>, m: ScheduleModel)
    requires
        cycle.len() > 0x10000,
    ensures
        (exists|p: int|
            0 <= p < cycle.len() && !((#[trigger] cycle[p]) is Vehicle && m.vehicles.contains_key(
                cycle[p].idx(),
            ))) || exists|p: int, q: int|
            0 <= p < q < cycle.len() && #[trigger] cycle[p] == #[trigger] cycle[q],
{
    if forall|p: int, q: int| 0 <= p < q < cycle.len() ==> #[trigger] cycle[p] != #[trigger] cycle[q] {
        if forall|p: int| 0 <= p < cycle.len() ==> (#[trigger] cycle[p]) is Vehicle {
            let q = Seq::new(cycle.len(), |i: int| cycle[i].idx());
            assert forall|i: int, j: int| 0 <= i < q.len() && 0 <= j < q.len() && i != j implies q[i]
                != q[j] by {
                assert(cycle[i] is Vehicle);
                assert(cycle[j] is Vehicle);
                if i < j {
                    assert(cycle[i] != cycle[j]);
                } else {
                    assert(cycle[j] != cycle[i]);
                }
            }
            crate::base_types::lemma_distinct_ids_few(q);
        } else {
            let p = choose|p: int| 0 <= p < cycle.len() && !((#[trigger] cycle[p]) is Vehicle);
            assert(!(cycle[p] is Vehicle && m.vehicles.contains_key(cycle[p].idx())));
        }
    }
}

} // verus!
