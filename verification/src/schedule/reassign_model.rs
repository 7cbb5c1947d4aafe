//! What a schedule is after a segment went from one tour to another, and
//! the proof that it is consistent.

use vstd::prelude::*;
use crate::base_types::{Idx, NodeIdx, VehicleIdx};
use crate::chain::covers_something;
use crate::network::Network;
use crate::schedule::fleet::{fleet_ok, lemma_retired, lemma_retoured, retired, retoured};
use crate::schedule::model::{capacity_ok, counter_ok, dummies_ok, formations_ok, ids_ok, schedule_ok, tours_ok, usage_ok, vehicles_ok, ScheduleModel};
use crate::schedule::steps::{lemma_ids_with, lemma_ids_without, without_dummy};
use crate::schedule::transfer::{holds_after, lemma_transferred_formations, transferred_formations};
use crate::schedule::ScheduleError;
use crate::segment::Segment;
use crate::tour::{displaced, is_dummy_tour, is_tour, is_vehicle_tour, removal_fault, segment_range, with_path, without_range, TourModel};
use crate::tour_laws::{lemma_common_nodes_displaced, lemma_grown_tour, lemma_shrunk_tour, lemma_with_path_nodes, lemma_without_range_nodes};
use crate::train_formation::Vehicle;
use crate::vehicle_types::VehicleTypes;

verus! {

/// The number of a real vehicle; none for a dummy.
pub open spec fn real_idx(v: VehicleIdx) -> Option<Idx> {
    match v {
        VehicleIdx::Vehicle(k) => Some(k),
        VehicleIdx::Dummy(_) => None,
    }
}

/// A real vehicle as the schedule holds it; none for a dummy.
pub open spec fn real_vehicle(m: ScheduleModel, v: VehicleIdx) -> Option<Vehicle> {
    match v {
        VehicleIdx::Vehicle(k) => Some(m.vehicles[k]),
        VehicleIdx::Dummy(_) => None,
    }
}

/// Whether the schedule has this vehicle or dummy.
pub open spec fn known(m: ScheduleModel, v: VehicleIdx) -> bool {
    match v {
        VehicleIdx::Vehicle(k) => m.vehicles.contains_key(k),
        VehicleIdx::Dummy(k) => m.dummy_tours.contains_key(k),
    }
}

/// The tour of a vehicle or dummy of the schedule.
pub open spec fn tour_in(m: ScheduleModel, v: VehicleIdx) -> TourModel {
    match v {
        VehicleIdx::Vehicle(k) => m.tours[k],
        VehicleIdx::Dummy(k) => m.dummy_tours[k],
    }
}

/// The schedule in which a vehicle or dummy has the tour `nodes`, or has
/// left if there is none. A real vehicle gets the best depots for its tour.
/// The formations are as they were.
pub open spec fn with_tour(m: ScheduleModel, nw: &Network, v: VehicleIdx, nodes: Option<Seq<NodeIdx>>) -> ScheduleModel {
    match (v, nodes) {
        (VehicleIdx::Vehicle(k), Some(s)) => retoured(m, nw, k, s),
        (VehicleIdx::Vehicle(k), None) => retired(m, k),
        (VehicleIdx::Dummy(k), Some(s)) => ScheduleModel {
            dummy_tours: m.dummy_tours.insert(k, TourModel { nodes: s, dummy: true }),
            ..m
        },
        (VehicleIdx::Dummy(k), None) => without_dummy(m, k),
    }
}

/// The schedule with one more dummy, which gets the next number.
pub open spec fn with_new_dummy(m: ScheduleModel, nodes: Seq<NodeIdx>) -> ScheduleModel {
    ScheduleModel {
        dummy_tours: m.dummy_tours.insert(m.counter as Idx, TourModel { nodes, dummy: true }),
        dummy_ids: m.dummy_ids.push(VehicleIdx::Dummy(m.counter as Idx)),
        counter: m.counter + 1,
        ..m
    }
}

/// The nodes that go from the provider to the receiver.
pub open spec fn moved_nodes(m: ScheduleModel, segment: Segment, provider: VehicleIdx) -> Seq<NodeIdx> {
    let tp = tour_in(m, provider).nodes;
    let (i, j) = segment_range(tp, segment)->Some_0;
    tp.subrange(i, j + 1)
}

/// The nodes that are left to the provider.
pub open spec fn rest_nodes(m: ScheduleModel, segment: Segment, provider: VehicleIdx) -> Seq<NodeIdx> {
    let tp = tour_in(m, provider).nodes;
    let (i, j) = segment_range(tp, segment)->Some_0;
    without_range(tp, i, j)
}

/// The nodes of the receiver that give way to what comes.
pub open spec fn replaced_nodes(
    m: ScheduleModel,
    nw: &Network,
    segment: Segment,
    provider: VehicleIdx,
    receiver: VehicleIdx,
) -> Seq<NodeIdx> {
    let moved = moved_nodes(m, segment, provider);
    displaced(nw, tour_in(m, receiver).nodes, moved[0], moved.last())
}

/// Why a segment cannot go from the provider to the receiver, if it cannot.
pub open spec fn override_fault(
    m: ScheduleModel,
    nw: &Network,
    segment: Segment,
    provider: VehicleIdx,
    receiver: VehicleIdx,
) -> Option<ScheduleError> {
    if provider == receiver {
        Some(ScheduleError::SameVehicle(provider))
    } else if !known(m, provider) {
        Some(ScheduleError::UnknownVehicle(provider))
    } else if !known(m, receiver) {
        Some(ScheduleError::UnknownVehicle(receiver))
    } else if removal_fault(nw, tour_in(m, provider).nodes, segment) is Some {
        Some(
            ScheduleError::TourInfeasible(
                removal_fault(nw, tour_in(m, provider).nodes, segment)->Some_0,
            ),
        )
    } else if covers_something(replaced_nodes(m, nw, segment, provider, receiver)) && m.counter
        > 0xffff {
        Some(ScheduleError::OutOfIds)
    } else {
        None
    }
}

/// Whether `n` is among the nodes that are left to a provider.
pub open spec fn left_with(rest: Option<Seq<NodeIdx>>, n: NodeIdx) -> bool {
    rest is Some && rest->Some_0.contains(n)
}

/// The schedule after the nodes `moved` went from the provider, to whom
/// `rest` is left, to the receiver, whose tour is `grown` now and whose nodes
/// `replaced` gave way.
pub open spec fn transfer_result(
    m: ScheduleModel,
    nw: &Network,
    provider: VehicleIdx,
    receiver: VehicleIdx,
    rest: Option<Seq<NodeIdx>>,
    grown: Seq<NodeIdx>,
    moved: Seq<NodeIdx>,
    replaced: Seq<NodeIdx>,
) -> ScheduleModel {
    let m1 = with_tour(m, nw, provider, rest);
    let m2 = with_tour(m1, nw, receiver, Some(grown));
    ScheduleModel {
        formations: transferred_formations(
            m.formations,
            moved,
            replaced,
            real_idx(provider),
            real_vehicle(m, receiver),
        ),
        ..m2
    }
}

/// The schedule after a segment went from the provider to the receiver,
/// before the nodes that gave way got a dummy.
pub open spec fn after_transfer(
    m: ScheduleModel,
    nw: &Network,
    segment: Segment,
    provider: VehicleIdx,
    receiver: VehicleIdx,
) -> ScheduleModel {
    let moved = moved_nodes(m, segment, provider);
    let rest = rest_nodes(m, segment, provider);
    transfer_result(
        m,
        nw,
        provider,
        receiver,
        if covers_something(rest) {
            Some(rest)
        } else {
            None
        },
        with_path(nw, tour_in(m, receiver).nodes, moved),
        moved,
        replaced_nodes(m, nw, segment, provider, receiver),
    )
}

/// The schedule after a segment went from the provider to the receiver,
/// and the dummy that the nodes that gave way got, if a trip or slot is
/// among them.
pub open spec fn after_override(
    m: ScheduleModel,
    nw: &Network,
    segment: Segment,
    provider: VehicleIdx,
    receiver: VehicleIdx,
) -> (ScheduleModel, Option<VehicleIdx>) {
    let replaced = replaced_nodes(m, nw, segment, provider, receiver);
    let m3 = after_transfer(m, nw, segment, provider, receiver);
    if covers_something(replaced) {
        (with_new_dummy(m3, replaced), Some(VehicleIdx::Dummy(m.counter as Idx)))
    } else {
        (m3, None)
    }
}

/// The parts of a consistent schedule that are no part of the fleet.
pub open spec fn rest_ok(m: ScheduleModel, nw: &Network) -> bool {
    &&& dummies_ok(m, nw)
    &&& ids_ok(m.dummy_ids, m.dummy_tours.dom(), true)
    &&& forall|k: Idx| #[trigger] m.dummy_tours.contains_key(k) ==> k < m.counter
}

/// A schedule whose fleet, dummies and formations are consistent is
/// consistent, and the other way round.
pub proof fn lemma_schedule_ok_parts(m: ScheduleModel, nw: &Network, vt: &VehicleTypes)
    ensures
        schedule_ok(m, nw, vt) <==> (fleet_ok(m, nw, vt) && rest_ok(m, nw) && formations_ok(m, nw)),
{
}

/// The dummies stay consistent when a vehicle or dummy gets a tour of its
/// kind or leaves, and the fleet does too.
pub proof fn lemma_with_tour_ok(m: ScheduleModel, nw: &Network, vt: &VehicleTypes, v: VehicleIdx, nodes: Option<Seq<NodeIdx>>)
    requires
        nw.wf(),
        fleet_ok(m, nw, vt),
        rest_ok(m, nw),
        known(m, v),
        nodes matches Some(s) ==> is_tour(nw, TourModel { nodes: s, dummy: v.is_dummy() }),
        nodes matches Some(s) ==> (v is Vehicle ==> s[0] == tour_in(m, v).nodes[0]),
    ensures
        fleet_ok(with_tour(m, nw, v, nodes), nw, vt),
        rest_ok(with_tour(m, nw, v, nodes), nw),
        with_tour(m, nw, v, nodes).counter == m.counter,
        with_tour(m, nw, v, nodes).formations == m.formations,
        forall|x: VehicleIdx| x != v && known(m, x) ==> known(with_tour(m, nw, v, nodes), x) && tour_in(
            with_tour(m, nw, v, nodes),
            x,
        ) == tour_in(m, x),
        forall|x: Idx| VehicleIdx::Vehicle(x) != v && #[trigger] m.vehicles.contains_key(x) ==> with_tour(m, nw, v, nodes).vehicles.contains_key(x),
        forall|x: Idx| #[trigger] with_tour(m, nw, v, nodes).vehicles.contains_key(x) ==> m.vehicles.contains_key(x) && with_tour(m, nw, v, nodes).vehicles[x] == m.vehicles[x],
        known(with_tour(m, nw, v, nodes), v) == nodes.is_some(),
{
    let m2 = with_tour(m, nw, v, nodes);
    match (v, nodes) {
        (VehicleIdx::Vehicle(k), Some(s)) => {
            lemma_retoured(m, nw, vt, k, s);
        },
        (VehicleIdx::Vehicle(k), None) => {
            lemma_retired(m, nw, vt, k);
        },
        (VehicleIdx::Dummy(k), Some(s)) => {
            assert(m2.dummy_tours.dom() =~= m.dummy_tours.dom());
            assert forall|x: Idx| #[trigger] m2.dummy_tours.contains_key(x) implies m2.dummy_tours[x].dummy
                && is_dummy_tour(nw, m2.dummy_tours[x].nodes) && x < m2.counter by {
                assert(m.dummy_tours.contains_key(x));
            }
        },
        (VehicleIdx::Dummy(k), None) => {
            lemma_ids_without(m.dummy_ids, m.dummy_tours.dom(), true, VehicleIdx::Dummy(k));
            assert(m2.dummy_tours.dom() =~= m.dummy_tours.dom().remove(k));
            assert forall|x: Idx| #[trigger] m2.dummy_tours.contains_key(x) implies m2.dummy_tours[x].dummy
                && is_dummy_tour(nw, m2.dummy_tours[x].nodes) && x < m2.counter by {
                assert(m.dummy_tours.contains_key(x));
            }
        },
    }
}

/// A consistent schedule stays consistent with one more dummy.
pub proof fn lemma_with_new_dummy_ok(m: ScheduleModel, nw: &Network, vt: &VehicleTypes, nodes: Seq<NodeIdx>)
    requires
        schedule_ok(m, nw, vt),
        m.counter <= 0xffff,
        is_dummy_tour(nw, nodes),
    ensures
        schedule_ok(with_new_dummy(m, nodes), nw, vt),
{
    let m2 = with_new_dummy(m, nodes);
    let k = m.counter as Idx;
    assert(!m.dummy_tours.contains_key(k));
    assert forall|x: Idx| m.dummy_tours.dom().contains(x) implies x < VehicleIdx::Dummy(k).idx() by {
        assert(m.dummy_tours.contains_key(x));
    }
    lemma_ids_with(m.dummy_ids, m.dummy_tours.dom(), true, VehicleIdx::Dummy(k));
    assert(m2.dummy_tours.dom() =~= m.dummy_tours.dom().insert(k));
    assert(dummies_ok(m2, nw)) by {
        assert forall|x: Idx| #[trigger] m2.dummy_tours.contains_key(x) implies m2.dummy_tours[x].dummy
            && is_dummy_tour(nw, m2.dummy_tours[x].nodes) by {
            if x != k {
                assert(m.dummy_tours.contains_key(x));
            }
        }
    }
    assert(counter_ok(m2)) by {
        assert forall|x: Idx| #[trigger] m2.vehicles.contains_key(x) implies x < m2.counter by {
            assert(m.vehicles.contains_key(x));
        }
        assert forall|x: Idx| #[trigger] m2.dummy_tours.contains_key(x) implies x < m2.counter by {
            if x != k {
                assert(m.dummy_tours.contains_key(x));
            }
        }
    }
    assert(vehicles_ok(m2, vt));
    assert(tours_ok(m2, nw));
    assert(formations_ok(m2, nw));
    assert(usage_ok(m2));
    assert(capacity_ok(m2, nw));
}

/// A consistent schedule is consistent after nodes went from one tour to
/// another, if the new tours are tours, with the start depots that the old
/// ones had, and hold the nodes that they are to hold.
pub proof fn lemma_transfer_ok(
    m: ScheduleModel,
    nw: &Network,
    vt: &VehicleTypes,
    provider: VehicleIdx,
    receiver: VehicleIdx,
    rest: Option<Seq<NodeIdx>>,
    grown: Seq<NodeIdx>,
    moved: Seq<NodeIdx>,
    replaced: Seq<NodeIdx>,
)
    requires
        nw.wf(),
        schedule_ok(m, nw, vt),
        provider != receiver,
        known(m, provider),
        known(m, receiver),
        rest matches Some(s) ==> is_tour(nw, TourModel { nodes: s, dummy: provider.is_dummy() }),
        rest matches Some(s) ==> (provider is Vehicle ==> s[0] == tour_in(m, provider).nodes[0]),
        is_tour(nw, TourModel { nodes: grown, dummy: receiver.is_dummy() }),
        receiver is Vehicle ==> grown[0] == tour_in(m, receiver).nodes[0],
        forall|i: int| 0 <= i < moved.len() ==> nw.contains(#[trigger] moved[i]),
        forall|i: int| 0 <= i < replaced.len() ==> nw.contains(#[trigger] replaced[i]),
        forall|n: NodeIdx|
            !n.is_depot() ==> (#[trigger] grown.contains(n) <==> (moved.contains(n) || (tour_in(
                m,
                receiver,
            ).nodes.contains(n) && !replaced.contains(n)))),
        forall|n: NodeIdx|
            !n.is_depot() ==> (#[trigger] left_with(rest, n) <==> (tour_in(
                m,
                provider,
            ).nodes.contains(n) && !moved.contains(n))),
        forall|n: NodeIdx|
            #[trigger] moved.contains(n) && !n.is_depot() ==> tour_in(m, provider).nodes.contains(n),
        forall|n: NodeIdx|
            #[trigger] replaced.contains(n) && !n.is_depot() ==> tour_in(m, receiver).nodes.contains(
                n,
            ),
        forall|n: NodeIdx|
            #[trigger] moved.contains(n) && !n.is_depot() && tour_in(m, receiver).nodes.contains(n)
                ==> replaced.contains(n),
    ensures
        schedule_ok(
            transfer_result(m, nw, provider, receiver, rest, grown, moved, replaced),
            nw,
            vt,
        ),
        transfer_result(m, nw, provider, receiver, rest, grown, moved, replaced).counter
            == m.counter,
{
    lemma_schedule_ok_parts(m, nw, vt);
    let tp = tour_in(m, provider).nodes;
    let tr = tour_in(m, receiver).nodes;
    let m1 = with_tour(m, nw, provider, rest);
    lemma_with_tour_ok(m, nw, vt, provider, rest);
    assert(known(m1, receiver) && tour_in(m1, receiver) == tour_in(m, receiver));
    let m2 = with_tour(m1, nw, receiver, Some(grown));
    lemma_with_tour_ok(m1, nw, vt, receiver, Some(grown));
    let m3 = transfer_result(m, nw, provider, receiver, rest, grown, moved, replaced);
    assert(fleet_ok(m3, nw, vt));
    assert(rest_ok(m3, nw));
    let kp = real_idx(provider);
    let vr = real_vehicle(m, receiver);
    // the tours changed as the formations did
    assert forall|n: NodeIdx, k: Idx| nw.coverable(n) && m.tours.contains_key(k) implies ((
    m3.tours.contains_key(k) && m3.tours[k].nodes.contains(n)) <==> #[trigger] holds_after(
        m,
        moved,
        replaced,
        kp,
        vr,
        n,
        k,
    )) by {
        assert(m.vehicles.contains_key(k));
        if receiver == VehicleIdx::Vehicle(k) {
            lemma_retoured(m1, nw, vt, k, grown);
            assert(m3.tours[k] == m2.tours[k]);
            assert(m2.tours[k].nodes.contains(n) <==> grown.contains(n));
        } else if provider == VehicleIdx::Vehicle(k) {
            assert(left_with(rest, n) <==> (tp.contains(n) && !moved.contains(n)));
            if rest is Some {
                lemma_retoured(m, nw, vt, k, rest->Some_0);
                assert(m1.tours[k].nodes.contains(n) <==> rest->Some_0.contains(n));
                assert(tour_in(m2, provider) == tour_in(m1, provider));
            } else {
                assert(!m1.vehicles.contains_key(k));
                assert(!m2.vehicles.contains_key(k));
                assert(!m3.tours.contains_key(k));
            }
        } else {
            let x = VehicleIdx::Vehicle(k);
            assert(known(m, x));
            assert(known(m1, x) && tour_in(m1, x) == tour_in(m, x));
            assert(known(m2, x) && tour_in(m2, x) == tour_in(m1, x));
        }
    }
    assert forall|k: Idx|
        #[trigger] m.vehicles.contains_key(k) && !m3.vehicles.contains_key(k) implies kp == Some(
            k,
        ) by {
        if VehicleIdx::Vehicle(k) != provider {
            assert(m1.vehicles.contains_key(k));
            if VehicleIdx::Vehicle(k) != receiver {
                assert(m2.vehicles.contains_key(k));
            }
        }
    }
    assert forall|k: Idx| #[trigger] m3.vehicles.contains_key(k) implies m.vehicles.contains_key(k)
        && m3.vehicles[k] == m.vehicles[k] by {
        assert(m2.vehicles.contains_key(k));
        assert(m1.vehicles.contains_key(k));
    }
    assert forall|k: Idx| #[trigger] m3.tours.contains_key(k) <==> m3.vehicles.contains_key(k) by {}
    lemma_transferred_formations(m, m3, nw, vt, moved, replaced, kp, vr);
    lemma_schedule_ok_parts(m3, nw, vt);
}

/// A consistent schedule is consistent after a segment went from one tour
/// to another.
pub proof fn lemma_after_transfer_ok(
    m: ScheduleModel,
    nw: &Network,
    vt: &VehicleTypes,
    segment: Segment,
    provider: VehicleIdx,
    receiver: VehicleIdx,
)
    requires
        nw.wf(),
        schedule_ok(m, nw, vt),
        provider != receiver,
        known(m, provider),
        known(m, receiver),
        removal_fault(nw, tour_in(m, provider).nodes, segment) is None,
    ensures
        schedule_ok(after_transfer(m, nw, segment, provider, receiver), nw, vt),
        after_transfer(m, nw, segment, provider, receiver).counter == m.counter,
        is_dummy_tour(nw, replaced_nodes(m, nw, segment, provider, receiver)) || !covers_something(
            replaced_nodes(m, nw, segment, provider, receiver),
        ),
{
    let tp = tour_in(m, provider).nodes;
    let tr = tour_in(m, receiver).nodes;
    let moved = moved_nodes(m, segment, provider);
    let rest = rest_nodes(m, segment, provider);
    let replaced = replaced_nodes(m, nw, segment, provider, receiver);
    let grown = with_path(nw, tr, moved);
    let (i, j) = segment_range(tp, segment)->Some_0;
    assert(is_tour(nw, TourModel { nodes: tp, dummy: provider.is_dummy() })) by {
        match provider {
            VehicleIdx::Vehicle(k) => {
                assert(m.tours.contains_key(k));
            },
            VehicleIdx::Dummy(k) => {},
        }
    }
    assert(is_tour(nw, TourModel { nodes: tr, dummy: receiver.is_dummy() })) by {
        match receiver {
            VehicleIdx::Vehicle(k) => {
                assert(m.tours.contains_key(k));
            },
            VehicleIdx::Dummy(k) => {},
        }
    }
    lemma_shrunk_tour(nw, tp, segment, provider.is_dummy());
    lemma_grown_tour(nw, tr, moved, receiver.is_dummy());
    let next = if covers_something(rest) {
        Some(rest)
    } else {
        None
    };
    assert forall|n: NodeIdx| !n.is_depot() implies (#[trigger] grown.contains(n) <==> (
    moved.contains(n) || (tr.contains(n) && !replaced.contains(n)))) by {
        lemma_with_path_nodes(nw, tr, moved, n);
    }
    assert forall|n: NodeIdx| !n.is_depot() implies (#[trigger] left_with(next, n) <==> (
    tp.contains(n) && !moved.contains(n))) by {
        lemma_without_range_nodes(nw, tp, i, j, n);
    }
    assert forall|n: NodeIdx| #[trigger] moved.contains(n) && !n.is_depot() implies tp.contains(n) by {
        lemma_without_range_nodes(nw, tp, i, j, n);
    }
    assert forall|n: NodeIdx| #[trigger] replaced.contains(n) && !n.is_depot() implies tr.contains(
        n,
    ) by {
        lemma_with_path_nodes(nw, tr, moved, n);
    }
    assert forall|n: NodeIdx|
        #[trigger] moved.contains(n) && !n.is_depot() && tr.contains(n) implies replaced.contains(
            n,
        ) by {
        lemma_common_nodes_displaced(nw, tr, moved, n);
    }
    assert forall|x: int| 0 <= x < replaced.len() implies nw.contains(#[trigger] replaced[x]) by {}
    lemma_transfer_ok(m, nw, vt, provider, receiver, next, grown, moved, replaced);
    if covers_something(replaced) {
        assert(replaced.len() >= 1);
    }
}

/// A consistent schedule is consistent after a segment went from the
/// provider to the receiver and what gave way got a dummy.
pub proof fn lemma_after_override_ok(
    m: ScheduleModel,
    nw: &Network,
    vt: &VehicleTypes,
    segment: Segment,
    provider: VehicleIdx,
    receiver: VehicleIdx,
)
    requires
        nw.wf(),
        schedule_ok(m, nw, vt),
        override_fault(m, nw, segment, provider, receiver) is None,
    ensures
        schedule_ok(after_override(m, nw, segment, provider, receiver).0, nw, vt),
{
    lemma_after_transfer_ok(m, nw, vt, segment, provider, receiver);
    let replaced = replaced_nodes(m, nw, segment, provider, receiver);
    if covers_something(replaced) {
        lemma_with_new_dummy_ok(
            after_transfer(m, nw, segment, provider, receiver),
            nw,
            vt,
            replaced,
        );
    }
}

} // verus!
