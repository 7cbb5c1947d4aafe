//! A first schedule from a flow: every trip wants as many vehicles as it
//! takes to seat its passengers, a vehicle is a unit of flow from a depot
//! over trips to a depot, and the flow that runs the fewest metres empty
//! makes the tours.

use vstd::prelude::*;
use std::sync::Arc;
use crate::base_types::{DepotIdx, Idx, NodeIdx, PassengerCount, VehicleTypeIdx};
use crate::config::Config;
use crate::distance::Distance;
use crate::flow::{first_flowing, sent_flow, total_flow, unit_taken, FlowArc, FlowNetwork};
use crate::greedy::no_vehicles;
use crate::schedule::model::ScheduleModel;
use crate::schedule::modifications::spawn_outcome;
use crate::schedule::steps::with_vehicle;
use crate::network::Network;
use crate::objective::{EvaluatedSolution, Indicator, Objective};
use crate::schedule::queries::unserved;
use crate::schedule::Schedule;
use crate::vehicle_types::VehicleTypes;

verus! {

/// No schedule was found that seats every passenger: so many are left
/// without a seat in the best that was found.
#[derive(Debug, Clone, Copy, PartialEq, Eq, Structural)]
pub struct InfeasibleInstance(pub u64);

/// What an arc of the flow network stands for.
#[derive(Debug, Clone, Copy, PartialEq, Eq, Structural)]
pub enum ArcTag {
    /// A vehicle is taken out of a depot.
    Source(Idx),
    /// A vehicle runs from a depot to its first trip.
    Start(Idx, Idx),
    /// A vehicle covers a trip.
    Cover(Idx),
    /// A vehicle runs from one trip to the next.
    Link(Idx, Idx),
    /// A vehicle runs from its last trip to a depot.
    End(Idx, Idx),
    /// A vehicle is put away in a depot.
    Sink(Idx),
}

/// What covering a trip is worth: more than any way through the network
/// costs.
pub const REWARD: i64 = 0x4_0000_0000_0000;

/// The largest cost of one empty run.
pub const COST_LIMIT: u64 = 0x4000_0000;

/// What a node out of which so much may flow can let go at most.
pub const PLENTY: u64 = 0x100_0000_0000;

/// How many vehicles with so many seats it takes to seat so many
/// passengers; none if the vehicles have no seats.
pub open spec fn vehicles_needed(demand: PassengerCount, seats: PassengerCount) -> int {
    if seats == 0 || demand == 0 {
        0
    } else {
        (demand + seats - 1) / (seats as int)
    }
}

pub fn required_vehicles(demand: PassengerCount, seats: PassengerCount) -> (r: u64)
    ensures
        r == vehicles_needed(demand, seats),
        r <= demand,
{
    if seats == 0 || demand == 0 {
        0
    } else {
        let sum = demand as u64 + seats as u64 - 1;
        let r = sum / seats as u64;
        proof {
            assert(sum / (seats as u64) <= demand) by (nonlinear_arith)
                requires
                    sum == demand + seats - 1,
                    seats >= 1,
                    demand >= 1,
            ;
        }
        r
    }
}

/// The cost of an empty run: its metres, and the limit for a run that is
/// longer or cannot be made.
pub open spec fn cost_of(d: Distance) -> i64 {
    match d {
        Distance::Distance(m) => if m <= COST_LIMIT {
            m as i64
        } else {
            COST_LIMIT as i64
        },
        Distance::Infinity => COST_LIMIT as i64,
    }
}

pub fn run_cost(d: Distance) -> (c: i64)
    ensures
        0 <= c <= COST_LIMIT,
        c == cost_of(d),
{
    match d {
        Distance::Distance(m) => if m <= COST_LIMIT {
            m as i64
        } else {
            COST_LIMIT as i64
        },
        Distance::Infinity => COST_LIMIT as i64,
    }
}

pub struct MinCostFlowSolver<I> {
    vehicles: Arc<VehicleTypes>,
    network: Arc<Network>,
    config: Arc<Config>,
    objective: Arc<Objective<I>>,
}

/// The room that a depot has for vehicles of the first `n` types together,
/// and no more than plenty.
pub open spec fn room_of(nw: &Network, types: Seq<VehicleTypeIdx>, depot: Idx, n: int) -> int
    decreases n,
{
    if n <= 0 {
        0
    } else {
        let sum = room_of(nw, types, depot, n - 1) + nw.spec_capacity_of(DepotIdx(depot), types[n - 1]);
        if sum > PLENTY {
            PLENTY as int
        } else {
            sum
        }
    }
}

/// How many vehicles of the type that fits it best a trip needs to seat
/// its passengers; none if there are no types.
pub open spec fn slots_needed(nw: &Network, vt: &VehicleTypes, trip: Idx) -> int {
    let demand = nw.spec_demand(NodeIdx::Service(trip));
    let t = vt.spec_best_for(demand);
    if vt.ids().len() > 0 && vt.types().contains_key(t.0) {
        vehicles_needed(demand, vt.types()[t.0].spec_seats())
    } else {
        0
    }
}

/// Whether an arc can stand in the flow network of an instance: its depots
/// and trips are there, and the first trip of a link reaches the second.
pub open spec fn tag_ok(nw: &Network, tag: ArcTag) -> bool {
    let n = nw.spec_services().len();
    let depots = nw.spec_depots().len();
    match tag {
        ArcTag::Source(d) => d < depots,
        ArcTag::Sink(d) => d < depots,
        ArcTag::Cover(i) => i < n,
        ArcTag::Start(d, i) => d < depots && i < n,
        ArcTag::End(i, d) => d < depots && i < n,
        ArcTag::Link(i, j) => i < n && j < n && nw.reaches(NodeIdx::Service(i), NodeIdx::Service(j)),
    }
}

/// The arc of the flow network that stands for something, without flow.
/// Node 0 is the source and node 1 the sink; trip `i` has the nodes
/// `2 + 2i`, where vehicles come, and `3 + 2i`, where they go; behind the
/// trips come the depots as places to start, then the depots as places to
/// end. As many vehicles can leave a depot as it has room for, and as many
/// cover a trip as it needs; covering a trip is rewarded, an empty run
/// costs its metres.
pub open spec fn arc_of(nw: &Network, vt: &VehicleTypes, tag: ArcTag) -> FlowArc {
    let n = nw.spec_services().len();
    let depots = nw.spec_depots().len();
    match tag {
        ArcTag::Source(d) => FlowArc {
            from: 0,
            to: (2 + 2 * n + d) as usize,
            capacity: room_of(nw, vt.ids(), d, vt.ids().len() as int) as u64,
            cost: 0,
            flow: 0,
        },
        ArcTag::Sink(d) => FlowArc {
            from: (2 + 2 * n + depots + d) as usize,
            to: 1,
            capacity: PLENTY,
            cost: 0,
            flow: 0,
        },
        ArcTag::Cover(i) => FlowArc {
            from: (2 + 2 * i) as usize,
            to: (3 + 2 * i) as usize,
            capacity: slots_needed(nw, vt, i) as u64,
            cost: (-REWARD) as i64,
            flow: 0,
        },
        ArcTag::Start(d, i) => FlowArc {
            from: (2 + 2 * n + d) as usize,
            to: (2 + 2 * i) as usize,
            capacity: PLENTY,
            cost: cost_of(nw.spec_dead_head_distance(NodeIdx::StartDepot(d), NodeIdx::Service(i))),
            flow: 0,
        },
        ArcTag::End(i, d) => FlowArc {
            from: (3 + 2 * i) as usize,
            to: (2 + 2 * n + depots + d) as usize,
            capacity: PLENTY,
            cost: cost_of(nw.spec_dead_head_distance(NodeIdx::Service(i), NodeIdx::EndDepot(d))),
            flow: 0,
        },
        ArcTag::Link(i, j) => FlowArc {
            from: (3 + 2 * i) as usize,
            to: (2 + 2 * j) as usize,
            capacity: PLENTY,
            cost: cost_of(nw.spec_dead_head_distance(NodeIdx::Service(i), NodeIdx::Service(j))),
            flow: 0,
        },
    }
}

/// Whether every arc is the arc of what it stands for.
#[verifier::opaque]
pub open spec fn arcs_as_tagged(nw: &Network, vt: &VehicleTypes, arcs: Seq<FlowArc>, tags: Seq<ArcTag>) -> bool {
    &&& arcs.len() == tags.len()
    &&& forall|k: int|
        0 <= k < arcs.len() ==> tag_ok(nw, #[trigger] tags[k]) && arcs[k] == arc_of(nw, vt, tags[k])
}

/// The arcs out of and into the first `d` depots: for each depot the arc
/// out of it, then the arc into it.
pub open spec fn depot_tags(d: int) -> Seq<ArcTag>
    decreases d,
{
    if d <= 0 {
        Seq::empty()
    } else {
        depot_tags(d - 1).push(ArcTag::Source((d - 1) as Idx)).push(ArcTag::Sink((d - 1) as Idx))
    }
}

/// The arcs between trip `i` and the first `d` depots: for each depot the
/// arc from it to the trip, then the arc from the trip to it.
pub open spec fn run_tags(i: Idx, d: int) -> Seq<ArcTag>
    decreases d,
{
    if d <= 0 {
        Seq::empty()
    } else {
        run_tags(i, d - 1).push(ArcTag::Start((d - 1) as Idx, i)).push(ArcTag::End(i, (d - 1) as Idx))
    }
}

/// The arcs from trip `i` to those of the first `j` trips that it reaches.
pub open spec fn link_tags(nw: &Network, i: Idx, j: int) -> Seq<ArcTag>
    decreases j,
{
    if j <= 0 {
        Seq::empty()
    } else if nw.reaches(NodeIdx::Service(i), NodeIdx::Service((j - 1) as Idx)) {
        link_tags(nw, i, j - 1).push(ArcTag::Link(i, (j - 1) as Idx))
    } else {
        link_tags(nw, i, j - 1)
    }
}

/// The arcs of trip `i`: the arc through it, the arcs between it and every
/// depot, and the arcs to the trips that it reaches.
pub open spec fn one_trip_tags(nw: &Network, i: Idx) -> Seq<ArcTag> {
    seq![ArcTag::Cover(i)] + run_tags(i, nw.spec_depots().len() as int) + link_tags(
        nw,
        i,
        nw.spec_services().len() as int,
    )
}

/// The arcs of the first `i` trips.
pub open spec fn trip_tags(nw: &Network, i: int) -> Seq<ArcTag>
    decreases i,
{
    if i <= 0 {
        Seq::empty()
    } else {
        trip_tags(nw, i - 1) + one_trip_tags(nw, (i - 1) as Idx)
    }
}

/// What the arcs of the flow network of an instance stand for, in their
/// order: the arcs of the depots, then the arcs of the trips.
pub open spec fn network_tags(nw: &Network) -> Seq<ArcTag> {
    depot_tags(nw.spec_depots().len() as int) + trip_tags(nw, nw.spec_services().len() as int)
}

/// A list that has grown by one tag holds what it held, and that tag.
proof fn lemma_in_push(before: Seq<ArcTag>, added: ArcTag, tag: ArcTag)
    ensures
        before.push(added).contains(tag) <==> before.contains(tag) || tag == added,
{
    let after = before.push(added);
    if before.contains(tag) {
        let k = choose|k: int| 0 <= k < before.len() && before[k] == tag;
        assert(after[k] == tag);
    }
    if tag == added {
        assert(after[before.len() as int] == tag);
    }
    if after.contains(tag) {
        let k = choose|k: int| 0 <= k < after.len() && after[k] == tag;
        if k < before.len() {
            assert(before[k] == tag);
        }
    }
}

/// Two lists one after the other hold what either holds.
proof fn lemma_in_both(a: Seq<ArcTag>, b: Seq<ArcTag>, tag: ArcTag)
    ensures
        (a + b).contains(tag) <==> a.contains(tag) || b.contains(tag),
{
    let both = a + b;
    if a.contains(tag) {
        let k = choose|k: int| 0 <= k < a.len() && a[k] == tag;
        assert(both[k] == tag);
    }
    if b.contains(tag) {
        let k = choose|k: int| 0 <= k < b.len() && b[k] == tag;
        assert(both[a.len() + k] == tag);
    }
    if both.contains(tag) {
        let k = choose|k: int| 0 <= k < both.len() && both[k] == tag;
        if k < a.len() {
            assert(a[k] == tag);
        } else {
            assert(b[k - a.len()] == tag);
        }
    }
}

proof fn lemma_depot_tags(d: int, e: int)
    requires
        0 <= e < d <= 0x10000,
    ensures
        depot_tags(d).contains(ArcTag::Source(e as Idx)),
        depot_tags(d).contains(ArcTag::Sink(e as Idx)),
    decreases d,
{
    let last_out = ArcTag::Source((d - 1) as Idx);
    let last_in = ArcTag::Sink((d - 1) as Idx);
    let shorter = depot_tags(d - 1);
    lemma_in_push(shorter.push(last_out), last_in, ArcTag::Source(e as Idx));
    lemma_in_push(shorter.push(last_out), last_in, ArcTag::Sink(e as Idx));
    lemma_in_push(shorter, last_out, ArcTag::Source(e as Idx));
    lemma_in_push(shorter, last_out, ArcTag::Sink(e as Idx));
    if e < d - 1 {
        lemma_depot_tags(d - 1, e);
    }
}

proof fn lemma_run_tags(i: Idx, d: int, e: int)
    requires
        0 <= e < d <= 0x10000,
    ensures
        run_tags(i, d).contains(ArcTag::Start(e as Idx, i)),
        run_tags(i, d).contains(ArcTag::End(i, e as Idx)),
    decreases d,
{
    let last_out = ArcTag::Start((d - 1) as Idx, i);
    let last_in = ArcTag::End(i, (d - 1) as Idx);
    let shorter = run_tags(i, d - 1);
    lemma_in_push(shorter.push(last_out), last_in, ArcTag::Start(e as Idx, i));
    lemma_in_push(shorter.push(last_out), last_in, ArcTag::End(i, e as Idx));
    lemma_in_push(shorter, last_out, ArcTag::Start(e as Idx, i));
    lemma_in_push(shorter, last_out, ArcTag::End(i, e as Idx));
    if e < d - 1 {
        lemma_run_tags(i, d - 1, e);
    }
}

proof fn lemma_link_tags(nw: &Network, i: Idx, j: int, e: int)
    requires
        0 <= e < j <= 0x10000,
        nw.reaches(NodeIdx::Service(i), NodeIdx::Service(e as Idx)),
    ensures
        link_tags(nw, i, j).contains(ArcTag::Link(i, e as Idx)),
    decreases j,
{
    let shorter = link_tags(nw, i, j - 1);
    if e < j - 1 {
        lemma_link_tags(nw, i, j - 1, e);
    }
    if nw.reaches(NodeIdx::Service(i), NodeIdx::Service((j - 1) as Idx)) {
        lemma_in_push(shorter, ArcTag::Link(i, (j - 1) as Idx), ArcTag::Link(i, e as Idx));
    }
}

proof fn lemma_trip_tags(nw: &Network, n: int, i: int, tag: ArcTag)
    requires
        0 <= i < n <= 0x10000,
        one_trip_tags(nw, i as Idx).contains(tag),
    ensures
        trip_tags(nw, n).contains(tag),
    decreases n,
{
    lemma_in_both(trip_tags(nw, n - 1), one_trip_tags(nw, (n - 1) as Idx), tag);
    if i < n - 1 {
        lemma_trip_tags(nw, n - 1, i, tag);
    }
}

/// The flow network of an instance has an arc for everything that can
/// stand in it: out of and into every depot, through every trip, between
/// every depot and every trip, and from every trip to every trip that it
/// reaches.
pub proof fn lemma_every_run_has_an_arc(nw: &Network, tag: ArcTag)
    requires
        nw.spec_depots().len() <= 0x10000,
        nw.spec_services().len() <= 0x10000,
        tag_ok(nw, tag),
    ensures
        network_tags(nw).contains(tag),
{
    let depots = nw.spec_depots().len() as int;
    let n = nw.spec_services().len() as int;
    lemma_in_both(depot_tags(depots), trip_tags(nw, n), tag);
    match tag {
        ArcTag::Source(d) => {
            lemma_depot_tags(depots, d as int);
        },
        ArcTag::Sink(d) => {
            lemma_depot_tags(depots, d as int);
        },
        ArcTag::Cover(i) => {
            let first = seq![ArcTag::Cover(i)];
            assert(first[0] == tag);
            lemma_in_both(first, run_tags(i, depots), tag);
            lemma_in_both(first + run_tags(i, depots), link_tags(nw, i, n), tag);
            lemma_trip_tags(nw, n, i as int, tag);
        },
        ArcTag::Start(d, i) => {
            let first = seq![ArcTag::Cover(i)];
            lemma_run_tags(i, depots, d as int);
            lemma_in_both(first, run_tags(i, depots), tag);
            lemma_in_both(first + run_tags(i, depots), link_tags(nw, i, n), tag);
            lemma_trip_tags(nw, n, i as int, tag);
        },
        ArcTag::End(i, d) => {
            let first = seq![ArcTag::Cover(i)];
            lemma_run_tags(i, depots, d as int);
            lemma_in_both(first, run_tags(i, depots), tag);
            lemma_in_both(first + run_tags(i, depots), link_tags(nw, i, n), tag);
            lemma_trip_tags(nw, n, i as int, tag);
        },
        ArcTag::Link(i, j) => {
            let first = seq![ArcTag::Cover(i)];
            lemma_link_tags(nw, i, n, j as int);
            lemma_in_both(first + run_tags(i, depots), link_tags(nw, i, n), tag);
            lemma_trip_tags(nw, n, i as int, tag);
        },
    }
}

/// What a unit of flow stands for, as far as it was followed: the depot
/// at which a vehicle starts, the trips that it covers in their order, and
/// the depot at which it ends.
pub struct TourRead {
    pub start: Option<Idx>,
    pub trips: Seq<NodeIdx>,
    pub end: Option<Idx>,
}

/// What a unit stands for after it ran over an arc with the tag `tag`: an
/// arc out of a depot names the depot to start at, an arc into a depot the
/// depot to end at, and an arc through a trip one more trip.
pub open spec fn read_on(read: TourRead, tag: ArcTag) -> TourRead {
    match tag {
        ArcTag::Source(d) => TourRead { start: Some(d), ..read },
        ArcTag::Start(d, _) => TourRead { start: Some(d), ..read },
        ArcTag::Cover(s) => TourRead { trips: read.trips.push(NodeIdx::Service(s)), ..read },
        ArcTag::Link(_, _) => read,
        ArcTag::End(_, d) => TourRead { end: Some(d), ..read },
        ArcTag::Sink(d) => TourRead { end: Some(d), ..read },
    }
}

/// The arcs and what was read after a unit of flow was followed and taken
/// out from node `at` on: at every node over the first arc out of it that
/// carries flow, until the sink, node 1, is reached or no arc out of the
/// node carries flow. Every step takes a unit of flow away, so there are no
/// more steps than the arcs carry flow together: `fuel` bounds them.
pub open spec fn tour_from(arcs: Seq<FlowArc>, tags: Seq<ArcTag>, at: int, read: TourRead, fuel: int) -> (
    Seq<FlowArc>,
    TourRead,
)
    decreases fuel,
{
    let i = first_flowing(arcs, at, 0);
    if at == 1 || i >= arcs.len() || fuel <= 0 {
        (arcs, read)
    } else {
        tour_from(unit_taken(arcs, i), tags, arcs[i].to as int, read_on(read, tags[i]), fuel - 1)
    }
}

/// The arcs after one unit of flow was followed from the source, node 0,
/// and taken out, and what the unit stands for.
pub open spec fn tour_taken(arcs: Seq<FlowArc>, tags: Seq<ArcTag>) -> (Seq<FlowArc>, TourRead) {
    tour_from(
        arcs,
        tags,
        0,
        TourRead { start: None, trips: Seq::empty(), end: None },
        total_flow(arcs, arcs.len() as int),
    )
}

/// The most passengers that any of the first `n` trips of a tour has;
/// what the network does not hold has none.
pub open spec fn most_passengers(nw: &Network, trips: Seq<NodeIdx>, n: int) -> PassengerCount
    decreases n,
{
    if n <= 0 {
        0
    } else {
        let most = most_passengers(nw, trips, n - 1);
        if nw.contains(trips[n - 1]) && nw.spec_demand(trips[n - 1]) > most {
            nw.spec_demand(trips[n - 1])
        } else {
            most
        }
    }
}

/// The nodes of the tour that a unit of flow stands for: the depot to
/// start at if it names one, its trips, and the depot to end at if it
/// names one.
pub open spec fn nodes_read(read: TourRead) -> Seq<NodeIdx> {
    (match read.start {
        Some(d) => seq![NodeIdx::StartDepot(d)],
        None => Seq::empty(),
    }) + read.trips + (match read.end {
        Some(d) => seq![NodeIdx::EndDepot(d)],
        None => Seq::empty(),
    })
}

/// The schedule after a vehicle was spawned for the tour that a unit of
/// flow stands for: a vehicle of the type that fits the trip with the most
/// passengers best, with the depots that the flow names or, if it cannot
/// be spawned with them, with the best depots for its trips. A unit
/// without trips gets no vehicle, and none is spawned that cannot be.
pub open spec fn with_tour_read(m: ScheduleModel, nw: &Network, vt: &VehicleTypes, read: TourRead) -> ScheduleModel {
    if read.trips.len() == 0 || vt.ids().len() == 0 {
        m
    } else {
        let t = vt.spec_best_for(most_passengers(nw, read.trips, read.trips.len() as int));
        match spawn_outcome(m, nw, vt, t, nodes_read(read)) {
            Ok((v, tour)) => with_vehicle(m, v, tour),
            Err(_) => match spawn_outcome(m, nw, vt, t, read.trips) {
                Ok((v, tour)) => with_vehicle(m, v, tour),
                Err(_) => m,
            },
        }
    }
}

/// The schedule after unit by unit of the flow was taken out at the
/// source and a vehicle spawned for each, in the order taken, until no
/// arc out of the source carried flow. Every unit taken out leaves less
/// flow: `fuel` bounds the units.
pub open spec fn decoded(
    arcs: Seq<FlowArc>,
    tags: Seq<ArcTag>,
    m: ScheduleModel,
    nw: &Network,
    vt: &VehicleTypes,
    fuel: int,
) -> ScheduleModel
    decreases fuel,
{
    if first_flowing(arcs, 0, 0) >= arcs.len() || fuel <= 0 {
        m
    } else {
        let taken = tour_taken(arcs, tags);
        decoded(taken.0, tags, with_tour_read(m, nw, vt, taken.1), nw, vt, fuel - 1)
    }
}

/// The arcs of the flow network of an instance, without flow.
pub open spec fn network_arcs(nw: &Network, vt: &VehicleTypes) -> Seq<FlowArc> {
    Seq::new(network_tags(nw).len(), |k: int| arc_of(nw, vt, network_tags(nw)[k]))
}

/// The most units of flow that the solver sends.
pub const UNITS: u64 = 0xffff_ffff_ffff;

/// What the flow makes of an instance: the schedule decoded from the flow
/// that was sent through its network from the source, node 0, to the sink,
/// node 1, unit by unit for as long as a unit more made the flow cheaper;
/// or, if that schedule leaves passengers without a seat, their number.
pub open spec fn flow_outcome(nw: &Network, vt: &VehicleTypes) -> Result<ScheduleModel, u64> {
    let tags = network_tags(nw);
    let nodes = 2 + 2 * nw.spec_services().len() + 2 * nw.spec_depots().len();
    let sent = sent_flow(network_arcs(nw, vt), nodes as int, 0, 1, UNITS as int).0;
    let m = decoded(sent, tags, no_vehicles(nw), nw, vt, total_flow(sent, sent.len() as int));
    let left = unserved(m, nw, nw.spec_services().len() as int);
    if left > 0 {
        Err(left as u64)
    } else {
        Ok(m)
    }
}

impl<I> MinCostFlowSolver<I> {
    pub closed spec fn spec_network(&self) -> Network {
        *self.network
    }

    pub closed spec fn spec_vehicle_types(&self) -> VehicleTypes {
        *self.vehicles
    }

    pub closed spec fn spec_objective(&self) -> Objective<I> {
        *self.objective
    }

    pub fn initialize(
        vehicles: Arc<VehicleTypes>,
        network: Arc<Network>,
        config: Arc<Config>,
        objective: Arc<Objective<I>>,
    ) -> (s: MinCostFlowSolver<I>)
        ensures
            s.spec_network() == *network,
            s.spec_vehicle_types() == *vehicles,
            s.spec_objective() == *objective,
    {
        MinCostFlowSolver { vehicles, network, config, objective }
    }

    /// The room that a depot has for vehicles of all types together, and no
    /// more than plenty.
    pub fn depot_room(&self, depot: Idx) -> (r: u64)
        requires
            self.spec_vehicle_types().wf(),
        ensures
            r == room_of(
                &self.spec_network(),
                self.spec_vehicle_types().ids(),
                depot,
                self.spec_vehicle_types().ids().len() as int,
            ),
    {
        let types = self.vehicles.iter();
        let mut room: u64 = 0;
        let mut t: usize = 0;
        while t < types.len()
            invariant
                t <= types.len(),
                types@ == self.spec_vehicle_types().ids(),
                room == room_of(&self.spec_network(), types@, depot, t as int),
                room <= PLENTY,
            decreases types.len() - t,
        {
            let c = self.network.capacity_of(DepotIdx(depot), types[t]) as u64;
            room = if room + c > PLENTY {
                PLENTY
            } else {
                room + c
            };
            t += 1;
        }
        room
    }

    /// Adds the arc of what a tag stands for.
    fn add_tagged(&self, flow: &mut FlowNetwork, tags: &mut Vec<ArcTag>, tag: ArcTag, arc: FlowArc)
        requires
            old(flow).wf(),
            arcs_as_tagged(
                &self.spec_network(),
                &self.spec_vehicle_types(),
                old(flow).spec_arcs(),
                old(tags)@,
            ),
            tag_ok(&self.spec_network(), tag),
            arc == arc_of(&self.spec_network(), &self.spec_vehicle_types(), tag),
            arc.from < old(flow).spec_nodes(),
            arc.to < old(flow).spec_nodes(),
        ensures
            final(flow).wf(),
            final(flow).spec_nodes() == old(flow).spec_nodes(),
            final(flow).spec_arcs() == old(flow).spec_arcs().push(arc),
            final(tags)@ == old(tags)@.push(tag),
            arcs_as_tagged(
                &self.spec_network(),
                &self.spec_vehicle_types(),
                final(flow).spec_arcs(),
                final(tags)@,
            ),
    {
        proof {
            reveal(arcs_as_tagged);
        }
        flow.add_arc(arc.from, arc.to, arc.capacity, arc.cost);
        tags.push(tag);
    }

    /// Adds the arcs of one trip: the arc through it, the arcs between it
    /// and every depot, and the arcs to the trips that it reaches.
    fn add_trip(&self, flow: &mut FlowNetwork, tags: &mut Vec<ArcTag>, i: usize)
        requires
            self.spec_network().wf(),
            self.spec_vehicle_types().wf(),
            old(flow).wf(),
            i < self.spec_network().spec_services().len(),
            old(flow).spec_nodes() == 2 + 2 * self.spec_network().spec_services().len() + 2
                * self.spec_network().spec_depots().len(),
            arcs_as_tagged(
                &self.spec_network(),
                &self.spec_vehicle_types(),
                old(flow).spec_arcs(),
                old(tags)@,
            ),
        ensures
            final(flow).wf(),
            final(flow).spec_nodes() == old(flow).spec_nodes(),
            arcs_as_tagged(
                &self.spec_network(),
                &self.spec_vehicle_types(),
                final(flow).spec_arcs(),
                final(tags)@,
            ),
            final(tags)@ == old(tags)@ + one_trip_tags(&self.spec_network(), i as Idx),
    {
        let nw: &Network = &self.network;
        let n = nw.number_of_service_nodes();
        let depots = nw.number_of_depots();
        assert(n <= 0x10000 && depots <= 0x10000) by {
            assert(nw.wf());
        }
        let ghost at_start = tags@;
        let trip = NodeIdx::Service(i as Idx);
        // through the trip, as often as it needs a vehicle
        let demand = nw.demand(trip);
        let needed = if self.vehicles.iter().len() > 0 {
            let t = self.vehicles.best_for(demand);
            match self.vehicles.get(t) {
                Some(vt) => required_vehicles(demand, vt.seats()),
                None => 0,
            }
        } else {
            0
        };
        self.add_tagged(
            flow,
            tags,
            ArcTag::Cover(i as Idx),
            FlowArc { from: 2 + 2 * i, to: 3 + 2 * i, capacity: needed, cost: -REWARD, flow: 0 },
        );
        proof {
            assert(tags@ =~= at_start + seq![ArcTag::Cover(i as Idx)] + run_tags(i as Idx, 0));
        }
        // from the depots to the trip, and from the trip to the depots
        let mut d: usize = 0;
        while d < depots
            invariant
                d <= depots <= 0x10000,
                i < n <= 0x10000,
                *nw == self.spec_network(),
                nw.wf(),
                n == nw.spec_services().len(),
                depots == nw.spec_depots().len(),
                trip == NodeIdx::Service(i as Idx),
                flow.wf(),
                flow.spec_nodes() == 2 + 2 * n + 2 * depots,
                arcs_as_tagged(nw, &self.spec_vehicle_types(), flow.spec_arcs(), tags@),
                tags@ == at_start + seq![ArcTag::Cover(i as Idx)] + run_tags(i as Idx, d as int),
            decreases depots - d,
        {
            let ghost before = tags@;
            let out = run_cost(
                nw.dead_head_distance_between(NodeIdx::StartDepot(d as Idx), trip),
            );
            self.add_tagged(
                flow,
                tags,
                ArcTag::Start(d as Idx, i as Idx),
                FlowArc { from: 2 + 2 * n + d, to: 2 + 2 * i, capacity: PLENTY, cost: out, flow: 0 },
            );
            let back = run_cost(
                nw.dead_head_distance_between(trip, NodeIdx::EndDepot(d as Idx)),
            );
            self.add_tagged(
                flow,
                tags,
                ArcTag::End(i as Idx, d as Idx),
                FlowArc {
                    from: 3 + 2 * i,
                    to: 2 + 2 * n + depots + d,
                    capacity: PLENTY,
                    cost: back,
                    flow: 0,
                },
            );
            proof {
                assert(run_tags(i as Idx, d + 1) == run_tags(i as Idx, d as int).push(
                    ArcTag::Start(d as Idx, i as Idx),
                ).push(ArcTag::End(i as Idx, d as Idx)));
                assert(tags@ =~= at_start + seq![ArcTag::Cover(i as Idx)] + run_tags(i as Idx, d + 1));
            }
            d += 1;
        }
        let ghost with_runs = tags@;
        proof {
            assert(tags@ =~= with_runs + link_tags(nw, i as Idx, 0));
        }
        // from the trip to every trip that it reaches
        let mut j: usize = 0;
        while j < n
            invariant
                j <= n <= 0x10000,
                i < n,
                depots <= 0x10000,
                *nw == self.spec_network(),
                nw.wf(),
                n == nw.spec_services().len(),
                depots == nw.spec_depots().len(),
                trip == NodeIdx::Service(i as Idx),
                flow.wf(),
                flow.spec_nodes() == 2 + 2 * n + 2 * depots,
                arcs_as_tagged(nw, &self.spec_vehicle_types(), flow.spec_arcs(), tags@),
                tags@ == with_runs + link_tags(nw, i as Idx, j as int),
            decreases n - j,
        {
            let next = NodeIdx::Service(j as Idx);
            if nw.can_reach(trip, next) {
                let cost = run_cost(nw.dead_head_distance_between(trip, next));
                self.add_tagged(
                    flow,
                    tags,
                    ArcTag::Link(i as Idx, j as Idx),
                    FlowArc { from: 3 + 2 * i, to: 2 + 2 * j, capacity: PLENTY, cost, flow: 0 },
                );
            }
            proof {
                assert(tags@ =~= with_runs + link_tags(nw, i as Idx, j + 1));
            }
            j += 1;
        }
        proof {
            assert(tags@ =~= at_start + one_trip_tags(nw, i as Idx));
        }
    }

    /// The flow network of the instance, without flow, and what each of its
    /// arcs stands for: an arc out of every depot and one into it, then for
    /// every trip the arc through it, the arcs between it and every depot,
    /// and an arc to every trip that it reaches.
    pub fn build_flow_network(&self) -> (r: (FlowNetwork, Vec<ArcTag>))
        requires
            self.spec_network().wf(),
            self.spec_vehicle_types().wf(),
        ensures
            r.0.wf(),
            r.0.spec_nodes() == 2 + 2 * self.spec_network().spec_services().len() + 2
                * self.spec_network().spec_depots().len(),
            arcs_as_tagged(&self.spec_network(), &self.spec_vehicle_types(), r.0.spec_arcs(), r.1@),
            r.1@ == network_tags(&self.spec_network()),
            forall|tag: ArcTag| #[trigger] tag_ok(&self.spec_network(), tag) ==> r.1@.contains(tag),
    {
        let nw: &Network = &self.network;
        let n = nw.number_of_service_nodes();
        let depots = nw.number_of_depots();
        assert(n <= 0x10000 && depots <= 0x10000) by {
            assert(nw.wf());
        }
        let nodes = 2 + 2 * n + 2 * depots;
        let mut flow = FlowNetwork::new(nodes);
        let mut tags: Vec<ArcTag> = Vec::new();
        let mut rooms: Vec<u64> = Vec::new();
        let mut d: usize = 0;
        while d < depots
            invariant
                d <= depots <= 0x10000,
                self.spec_vehicle_types().wf(),
                rooms@.len() == d,
                forall|e: int|
                    0 <= e < d ==> #[trigger] rooms@[e] == room_of(
                        &self.spec_network(),
                        self.spec_vehicle_types().ids(),
                        e as Idx,
                        self.spec_vehicle_types().ids().len() as int,
                    ),
            decreases depots - d,
        {
            rooms.push(self.depot_room(d as Idx));
            d += 1;
        }
        proof {
            assert(tags@ =~= depot_tags(0));
            assert(arcs_as_tagged(nw, &self.spec_vehicle_types(), flow.spec_arcs(), tags@)) by {
                reveal(arcs_as_tagged);
            }
        }
        // out of the depots, and into them
        let mut d: usize = 0;
        while d < depots
            invariant
                d <= depots <= 0x10000,
                n <= 0x10000,
                nodes == 2 + 2 * n + 2 * depots,
                *nw == self.spec_network(),
                n == nw.spec_services().len(),
                depots == nw.spec_depots().len(),
                flow.wf(),
                flow.spec_nodes() == nodes,
                rooms@.len() == depots,
                forall|e: int|
                    0 <= e < depots ==> #[trigger] rooms@[e] == room_of(
                        &self.spec_network(),
                        self.spec_vehicle_types().ids(),
                        e as Idx,
                        self.spec_vehicle_types().ids().len() as int,
                    ),
                arcs_as_tagged(nw, &self.spec_vehicle_types(), flow.spec_arcs(), tags@),
                tags@ == depot_tags(d as int),
            decreases depots - d,
        {
            let room = rooms[d];
            self.add_tagged(
                &mut flow,
                &mut tags,
                ArcTag::Source(d as Idx),
                FlowArc { from: 0, to: 2 + 2 * n + d, capacity: room, cost: 0, flow: 0 },
            );
            self.add_tagged(
                &mut flow,
                &mut tags,
                ArcTag::Sink(d as Idx),
                FlowArc { from: 2 + 2 * n + depots + d, to: 1, capacity: PLENTY, cost: 0, flow: 0 },
            );
            proof {
                assert(depot_tags(d + 1) == depot_tags(d as int).push(ArcTag::Source(d as Idx)).push(
                    ArcTag::Sink(d as Idx),
                ));
            }
            d += 1;
        }
        let ghost with_depots = tags@;
        proof {
            assert(tags@ =~= with_depots + trip_tags(nw, 0));
        }
        let mut i: usize = 0;
        while i < n
            invariant
                i <= n <= 0x10000,
                depots <= 0x10000,
                nodes == 2 + 2 * n + 2 * depots,
                *nw == self.spec_network(),
                nw.wf(),
                n == nw.spec_services().len(),
                depots == nw.spec_depots().len(),
                self.spec_vehicle_types().wf(),
                flow.wf(),
                flow.spec_nodes() == nodes,
                arcs_as_tagged(nw, &self.spec_vehicle_types(), flow.spec_arcs(), tags@),
                with_depots == depot_tags(depots as int),
                tags@ == with_depots + trip_tags(nw, i as int),
            decreases n - i,
        {
            self.add_trip(&mut flow, &mut tags, i);
            proof {
                assert(trip_tags(nw, i + 1) == trip_tags(nw, i as int) + one_trip_tags(nw, i as Idx));
                assert(tags@ =~= with_depots + trip_tags(nw, i + 1));
            }
            i += 1;
        }
        proof {
            assert forall|tag: ArcTag| #[trigger] tag_ok(nw, tag) implies network_tags(nw).contains(
                tag,
            ) by {
                lemma_every_run_has_an_arc(nw, tag);
            }
        }
        (flow, tags)
    }

    /// Takes one unit of flow out of the network, from the source on as far
    /// as it goes: at every node over the first arc out of it that carries
    /// flow, until the sink is reached or no arc carries flow. Says what
    /// the unit stands for: the depot at which a vehicle starts, the trips
    /// that it covers and the depot at which it ends, as the tags of the
    /// arcs on the way name them.
    pub fn take_tour(flow: &mut FlowNetwork, tags: &Vec<ArcTag>) -> (r: (Option<Idx>, Vec<NodeIdx>, Option<Idx>))
        requires
            old(flow).wf(),
            tags@.len() == old(flow).spec_arcs().len(),
            old(flow).spec_nodes() >= 2,
        ensures
            final(flow).wf(),
            final(flow).spec_nodes() == old(flow).spec_nodes(),
            final(flow).spec_arcs().len() == old(flow).spec_arcs().len(),
            total_flow(final(flow).spec_arcs(), final(flow).spec_arcs().len() as int) <= total_flow(
                old(flow).spec_arcs(),
                old(flow).spec_arcs().len() as int,
            ),
            (exists|i: int|
                0 <= i < old(flow).spec_arcs().len() && (#[trigger] old(flow).spec_arcs()[i]).from
                    == 0 && old(flow).spec_arcs()[i].flow > 0) ==> total_flow(
                final(flow).spec_arcs(),
                final(flow).spec_arcs().len() as int,
            ) < total_flow(old(flow).spec_arcs(), old(flow).spec_arcs().len() as int),
            final(flow).spec_arcs() == tour_taken(old(flow).spec_arcs(), tags@).0,
            r.0 == tour_taken(old(flow).spec_arcs(), tags@).1.start,
            r.1@ == tour_taken(old(flow).spec_arcs(), tags@).1.trips,
            r.2 == tour_taken(old(flow).spec_arcs(), tags@).1.end,
    {
        let ghost before = flow.spec_arcs();
        let ghost whole = tour_taken(before, tags@);
        let ghost mut fuel: int = total_flow(before, before.len() as int);
        let mut start: Option<Idx> = None;
        let mut end: Option<Idx> = None;
        let mut trips: Vec<NodeIdx> = Vec::new();
        let mut at: usize = 0;
        let mut first = true;
        proof {
            assert(trips@ =~= Seq::empty());
        }
        loop
            invariant
                flow.wf(),
                flow.spec_nodes() == old(flow).spec_nodes(),
                flow.spec_arcs().len() == before.len(),
                tags@.len() == before.len(),
                before == old(flow).spec_arcs(),
                total_flow(flow.spec_arcs(), flow.spec_arcs().len() as int) <= total_flow(
                    before,
                    before.len() as int,
                ),
                first ==> at == 0 && flow.spec_arcs() == before,
                !first ==> total_flow(flow.spec_arcs(), flow.spec_arcs().len() as int) < total_flow(
                    before,
                    before.len() as int,
                ),
                fuel == total_flow(flow.spec_arcs(), flow.spec_arcs().len() as int),
                whole == tour_taken(before, tags@),
                whole == tour_from(
                    flow.spec_arcs(),
                    tags@,
                    at as int,
                    TourRead { start, trips: trips@, end },
                    fuel,
                ),
            ensures
                flow.wf(),
                flow.spec_nodes() == old(flow).spec_nodes(),
                flow.spec_arcs().len() == before.len(),
                total_flow(flow.spec_arcs(), flow.spec_arcs().len() as int) <= total_flow(
                    before,
                    before.len() as int,
                ),
                (exists|i: int|
                    0 <= i < before.len() && (#[trigger] before[i]).from == 0 && before[i].flow > 0)
                    ==> total_flow(flow.spec_arcs(), flow.spec_arcs().len() as int) < total_flow(
                    before,
                    before.len() as int,
                ),
                whole == (flow.spec_arcs(), TourRead { start, trips: trips@, end }),
            decreases total_flow(flow.spec_arcs(), flow.spec_arcs().len() as int),
        {
            if at == 1 {
                break ;
            }
            let i = match flow.flowing_out_of(at) {
                Some(i) => i,
                None => {
                    break ;
                },
            };
            let ghost earlier = flow.spec_arcs();
            let ghost read = TourRead { start, trips: trips@, end };
            let to = flow.arcs()[i].to;
            flow.take_unit(i);
            proof {
                crate::flow::lemma_total_flow_not_negative(
                    flow.spec_arcs(),
                    flow.spec_arcs().len() as int,
                );
                assert(fuel > 0);
                assert(flow.spec_arcs() == unit_taken(earlier, i as int));
                assert(tour_from(earlier, tags@, at as int, read, fuel) == tour_from(
                    unit_taken(earlier, i as int),
                    tags@,
                    earlier[i as int].to as int,
                    read_on(read, tags@[i as int]),
                    fuel - 1,
                ));
                fuel = fuel - 1;
            }
            match tags[i] {
                ArcTag::Source(d) => {
                    start = Some(d);
                },
                ArcTag::Start(d, _) => {
                    start = Some(d);
                },
                ArcTag::Cover(s) => {
                    trips.push(NodeIdx::Service(s));
                },
                ArcTag::Link(_, _) => {},
                ArcTag::End(_, d) => {
                    end = Some(d);
                },
                ArcTag::Sink(d) => {
                    end = Some(d);
                },
            }
            proof {
                assert((TourRead { start, trips: trips@, end }) == read_on(read, tags@[i as int]));
            }
            at = to;
            first = false;
        }
        (start, trips, end)
    }

    /// The most passengers that any trip of a tour has.
    pub fn most_on(&self, trips: &Vec<NodeIdx>) -> (most: PassengerCount)
        ensures
            most == most_passengers(&self.spec_network(), trips@, trips@.len() as int),
    {
        let mut most: PassengerCount = 0;
        let mut k: usize = 0;
        while k < trips.len()
            invariant
                k <= trips.len(),
                most == most_passengers(&self.spec_network(), trips@, k as int),
            decreases trips.len() - k,
        {
            let trip = trips[k];
            if self.network.has_node(trip) {
                let demand = self.network.demand(trip);
                if demand > most {
                    most = demand;
                }
            }
            k += 1;
        }
        most
    }

    /// The nodes of the tour that a unit of flow stands for.
    pub fn nodes_of(start: Option<Idx>, trips: &Vec<NodeIdx>, end: Option<Idx>) -> (nodes: Vec<NodeIdx>)
        ensures
            nodes@ == nodes_read(TourRead { start, trips: trips@, end }),
    {
        let mut nodes: Vec<NodeIdx> = Vec::new();
        match start {
            Some(d) => {
                nodes.push(NodeIdx::StartDepot(d));
            },
            None => {},
        }
        let ghost front = nodes@;
        proof {
            assert(nodes@ =~= front + trips@.subrange(0, 0));
        }
        let mut k: usize = 0;
        while k < trips.len()
            invariant
                k <= trips.len(),
                nodes@ == front + trips@.subrange(0, k as int),
            decreases trips.len() - k,
        {
            nodes.push(trips[k]);
            proof {
                assert(nodes@ =~= front + trips@.subrange(0, k + 1));
            }
            k += 1;
        }
        match end {
            Some(d) => {
                nodes.push(NodeIdx::EndDepot(d));
            },
            None => {},
        }
        proof {
            assert(trips@.subrange(0, trips@.len() as int) =~= trips@);
            assert(nodes@ =~= nodes_read(TourRead { start, trips: trips@, end }));
        }
        nodes
    }

    /// The schedule after a vehicle was spawned for the tour that a unit of
    /// flow stands for.
    pub fn spawn_for_tour(&self, schedule: Schedule, start: Option<Idx>, trips: Vec<NodeIdx>, end: Option<Idx>) -> (r:
        Schedule)
        requires
            schedule.wf(),
            schedule.spec_network() == self.spec_network(),
            schedule.spec_vehicle_types() == self.spec_vehicle_types(),
            self.spec_vehicle_types().wf(),
        ensures
            r.wf(),
            r.spec_network() == self.spec_network(),
            r.spec_vehicle_types() == self.spec_vehicle_types(),
            r@ == with_tour_read(
                schedule@,
                &self.spec_network(),
                &self.spec_vehicle_types(),
                TourRead { start, trips: trips@, end },
            ),
    {
        if trips.len() == 0 || self.vehicles.iter().len() == 0 {
            return schedule;
        }
        // the type that seats the passengers of all trips of the tour
        let most = self.most_on(&trips);
        let vehicle_type = self.vehicles.best_for(most);
        let nodes = Self::nodes_of(start, &trips, end);
        match schedule.spawn_vehicle_for_path(vehicle_type, nodes) {
            Ok(s) => s,
            Err(_) => {
                // the depots of the flow have no room for this type: any
                // depot will do
                match schedule.spawn_vehicle_for_path(vehicle_type, trips) {
                    Ok(s) => s,
                    Err(_) => schedule,
                }
            },
        }
    }

    /// The schedule that the flow makes, with its value, if it seats every
    /// passenger: the flow is sent through the network of the instance unit
    /// by unit for as long as a unit more makes it cheaper, and every unit
    /// becomes the tour of a vehicle, in the order in which the units are
    /// taken out at the source. Fails with the number of passengers without
    /// a seat if that schedule leaves any.
    pub fn solve(&self) -> (r: Result<EvaluatedSolution<Schedule>, InfeasibleInstance>) where
        I: Indicator<Schedule>,

        requires
            self.spec_network().wf(),
            self.spec_vehicle_types().wf(),
            forall|s: Schedule| #[trigger] s.wf() ==> self.spec_objective().applies(&s),
        ensures
            match r {
                Ok(e) => {
                    &&& e.spec_solution().wf()
                    &&& e.spec_solution().spec_network() == self.spec_network()
                    &&& e.spec_solution().spec_vehicle_types() == self.spec_vehicle_types()
                    &&& e.spec_value() == self.spec_objective().value_of(&e.spec_solution())
                    &&& unserved(
                        e.spec_solution()@,
                        &self.spec_network(),
                        self.spec_network().spec_services().len() as int,
                    ) == 0
                },
                Err(e) => e.0 > 0,
            },
            match flow_outcome(&self.spec_network(), &self.spec_vehicle_types()) {
                Ok(m) => r matches Ok(e) && e.spec_solution()@ == m,
                Err(left) => r matches Err(e) && e == InfeasibleInstance(left) && left > 0,
            },
    {
        let ghost nw = self.spec_network();
        let ghost vt = self.spec_vehicle_types();
        let (mut flow, tags) = self.build_flow_network();
        proof {
            assert(flow.spec_arcs() =~= network_arcs(&nw, &vt)) by {
                reveal(arcs_as_tagged);
            }
            assert(tags@.len() == flow.spec_arcs().len()) by {
                reveal(arcs_as_tagged);
            }
        }
        flow.send_while_cheaper(0, 1, UNITS);
        let ghost sent = flow.spec_arcs();
        let mut schedule = Schedule::empty(
            self.vehicles.clone(),
            self.network.clone(),
            self.config.clone(),
        );
        proof {
            let start = no_vehicles(&nw);
            assert(schedule@.formations =~= start.formations);
            assert(schedule@.spawned =~= start.spawned);
            assert(schedule@.despawned =~= start.despawned);
            assert(schedule@ == start);
            crate::flow::lemma_total_flow_not_negative(sent, sent.len() as int);
        }
        let ghost whole = decoded(
            sent,
            tags@,
            no_vehicles(&nw),
            &nw,
            &vt,
            total_flow(sent, sent.len() as int),
        );
        let ghost mut fuel: int = total_flow(sent, sent.len() as int);
        loop
            invariant
                flow.wf(),
                flow.spec_nodes() >= 2,
                tags@.len() == flow.spec_arcs().len(),
                schedule.wf(),
                nw == self.spec_network(),
                vt == self.spec_vehicle_types(),
                schedule.spec_network() == self.spec_network(),
                schedule.spec_vehicle_types() == self.spec_vehicle_types(),
                self.spec_vehicle_types().wf(),
                total_flow(flow.spec_arcs(), flow.spec_arcs().len() as int) <= fuel,
                whole == decoded(flow.spec_arcs(), tags@, schedule@, &nw, &vt, fuel),
            ensures
                schedule.wf(),
                schedule.spec_network() == self.spec_network(),
                schedule.spec_vehicle_types() == self.spec_vehicle_types(),
                whole == schedule@,
            decreases total_flow(flow.spec_arcs(), flow.spec_arcs().len() as int),
        {
            let ghost m = schedule@;
            let ghost arcs = flow.spec_arcs();
            let out = flow.flowing_out_of(0);
            if out.is_none() {
                break ;
            }
            proof {
                let i = out->Some_0 as int;
                assert(arcs[i].from == 0 && arcs[i].flow > 0);
            }
            let (start, trips, end) = Self::take_tour(&mut flow, &tags);
            let ghost read = TourRead { start, trips: trips@, end };
            proof {
                crate::flow::lemma_total_flow_not_negative(
                    flow.spec_arcs(),
                    flow.spec_arcs().len() as int,
                );
                assert(fuel > 0);
                assert(tour_taken(arcs, tags@).1 == read);
                assert(decoded(arcs, tags@, m, &nw, &vt, fuel) == decoded(
                    flow.spec_arcs(),
                    tags@,
                    with_tour_read(m, &nw, &vt, read),
                    &nw,
                    &vt,
                    fuel - 1,
                ));
                fuel = fuel - 1;
            }
            schedule = self.spawn_for_tour(schedule, start, trips, end);
        }
        let unserved_passengers = schedule.number_of_unserved_passengers();
        if unserved_passengers > 0 {
            Err(InfeasibleInstance(unserved_passengers))
        } else {
            Ok(self.objective.evaluate(schedule))
        }
    }
}

} // verus!
