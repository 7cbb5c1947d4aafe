//! Handing trips and slots over from one tour to another, as the formations
//! see it.

use vstd::prelude::*;
use crate::base_types::{Idx, NodeIdx, VehicleIdx};
use crate::network::Network;
use crate::schedule::formation_laws::{lemma_after_hand_over, lemma_members_after_hand_over};
use crate::schedule::model::{formations_ok, tours_ok, valid_members, vehicles_ok, ScheduleModel};
use crate::schedule::parts::handed_over;
use crate::schedule::steps::formations_after;
use crate::train_formation::{has_id, ids_distinct, Vehicle};
use crate::vehicle_types::VehicleTypes;

verus! {

/// The formations after the nodes `moved` went from a provider to a
/// receiver whose nodes `replaced` gave way. First the receiver leaves the
/// formations of the nodes that gave way; then, in the formation of every
/// node that moved, the provider leaves and the receiver comes. Of the two
/// only real vehicles are given: a dummy stands in no formation.
pub open spec fn transferred_formations(
    formations: Map<NodeIdx, Seq<Vehicle>>,
    moved: Seq<NodeIdx>,
    replaced: Seq<NodeIdx>,
    provider: Option<Idx>,
    receiver: Option<Vehicle>,
) -> Map<NodeIdx, Seq<Vehicle>> {
    let first = match receiver {
        Some(v) => formations_after(formations, replaced, Some(v.id.idx()), None),
        None => formations,
    };
    formations_after(first, moved, provider, receiver)
}

/// Whether vehicle `k` is to hold node `n` after the transfer.
pub open spec fn holds_after(
    m: ScheduleModel,
    moved: Seq<NodeIdx>,
    replaced: Seq<NodeIdx>,
    provider: Option<Idx>,
    receiver: Option<Vehicle>,
    n: NodeIdx,
    k: Idx,
) -> bool {
    if receiver matches Some(v) && v.id.idx() == k {
        moved.contains(n) || (m.tours[k].nodes.contains(n) && !replaced.contains(n))
    } else if provider == Some(k) {
        m.tours[k].nodes.contains(n) && !moved.contains(n)
    } else {
        m.tours[k].nodes.contains(n)
    }
}

/// The formations of a consistent schedule agree with its tours after a
/// transfer, if the tours changed as the formations did.
pub proof fn lemma_transferred_formations(
    m: ScheduleModel,
    m2: ScheduleModel,
    nw: &Network,
    vt: &VehicleTypes,
    moved: Seq<NodeIdx>,
    replaced: Seq<NodeIdx>,
    provider: Option<Idx>,
    receiver: Option<Vehicle>,
)
    requires
        nw.wf(),
        vehicles_ok(m, vt),
        tours_ok(m, nw),
        formations_ok(m, nw),
        m2.formations == transferred_formations(m.formations, moved, replaced, provider, receiver),
        receiver matches Some(v) ==> v.id is Vehicle && m.vehicles.contains_key(v.id.idx())
            && m.vehicles[v.id.idx()] == v && m2.vehicles.contains_key(v.id.idx()),
        provider matches Some(p) ==> m.vehicles.contains_key(p),
        provider matches Some(p) ==> (receiver matches Some(v) ==> v.id.idx() != p),
        forall|i: int| 0 <= i < moved.len() ==> nw.contains(#[trigger] moved[i]),
        forall|i: int| 0 <= i < replaced.len() ==> nw.contains(#[trigger] replaced[i]),
        // what moves was the provider's
        provider matches Some(p) ==> forall|n: NodeIdx|
            #[trigger] moved.contains(n) && !n.is_depot() ==> m.tours[p].nodes.contains(n),
        // what gives way was the receiver's
        receiver matches Some(v) ==> forall|n: NodeIdx|
            #[trigger] replaced.contains(n) && !n.is_depot() ==> m.tours[v.id.idx()].nodes.contains(n),
        // what moves and was the receiver's already gives way
        receiver matches Some(v) ==> forall|n: NodeIdx|
            #[trigger] moved.contains(n) && !n.is_depot() && m.tours[v.id.idx()].nodes.contains(n)
                ==> replaced.contains(n),
        // the vehicles are the old ones, but for the provider if it is gone
        forall|k: Idx| #[trigger]
            m2.vehicles.contains_key(k) ==> m.vehicles.contains_key(k) && m2.vehicles[k]
                == m.vehicles[k],
        forall|k: Idx|
            #[trigger] m.vehicles.contains_key(k) && !m2.vehicles.contains_key(k) ==> provider
                == Some(k),
        forall|k: Idx| #[trigger] m2.tours.contains_key(k) <==> m2.vehicles.contains_key(k),
        // the tours changed as the formations did
        forall|n: NodeIdx, k: Idx|
            nw.coverable(n) && m.tours.contains_key(k) ==> ((m2.tours.contains_key(k)
                && m2.tours[k].nodes.contains(n)) <==> #[trigger] holds_after(
                m,
                moved,
                replaced,
                provider,
                receiver,
                n,
                k,
            )),
    ensures
        formations_ok(m2, nw),
{
    assert forall|n: NodeIdx| #[trigger] m2.formations.contains_key(n) <==> nw.coverable(n) by {
        assert(m.formations.contains_key(n) <==> nw.coverable(n));
    }
    assert forall|n: NodeIdx| nw.coverable(n) implies {
        &&& valid_members(m2.vehicles, #[trigger] m2.formations[n])
        &&& ids_distinct(m2.formations[n])
        &&& forall|k: Idx|
            (#[trigger] has_id(m2.formations[n], VehicleIdx::Vehicle(k)) <==> (
            m2.tours.contains_key(k) && m2.tours[k].nodes.contains(n)))
    } by {
        assert(m.formations.contains_key(n));
        let f = m.formations[n];
        assert(valid_members(m.vehicles, f));
        assert(ids_distinct(f));
        let gives_way = receiver is Some && replaced.contains(n);
        let f1 = if gives_way {
            handed_over(f, Some(receiver->Some_0.id.idx()), None)
        } else {
            f
        };
        let moves = moved.contains(n);
        let f2 = if moves {
            handed_over(f1, provider, receiver)
        } else {
            f1
        };
        assert(m2.formations[n] == f2);
        // the receiver leaves where the node gave way
        if gives_way {
            let kr = receiver->Some_0.id.idx();
            assert(has_id(f, VehicleIdx::Vehicle(kr)) <==> (m.tours.contains_key(kr)
                && m.tours[kr].nodes.contains(n)));
            lemma_members_after_hand_over(m.vehicles, m.vehicles, f, Some(kr), None);
        }
        assert(valid_members(m.vehicles, f1));
        assert(ids_distinct(f1)) by {
            if gives_way {
                lemma_after_hand_over(f, Some(receiver->Some_0.id.idx()), None, VehicleIdx::Vehicle(0));
            }
        }
        assert forall|k: Idx|
            has_id(f1, VehicleIdx::Vehicle(k)) <==> (m.tours.contains_key(k)
                && m.tours[k].nodes.contains(n) && !(gives_way && receiver->Some_0.id.idx()
                == k)) by {
            assert(has_id(f, VehicleIdx::Vehicle(k)) <==> (m.tours.contains_key(k)
                && m.tours[k].nodes.contains(n)));
            if gives_way {
                lemma_after_hand_over(f, Some(receiver->Some_0.id.idx()), None, VehicleIdx::Vehicle(k));
            }
        }
        // where the node moved, the provider leaves and the receiver comes
        if moves {
            if provider is Some {
                let p = provider->Some_0;
                assert(m.tours.contains_key(p));
                assert(has_id(f1, VehicleIdx::Vehicle(p)));
            }
            if receiver is Some {
                let kr = receiver->Some_0.id.idx();
                assert(!has_id(f1, receiver->Some_0.id));
            }
        }
        assert(ids_distinct(f2)) by {
            if moves {
                lemma_after_hand_over(f1, provider, receiver, VehicleIdx::Vehicle(0));
            }
        }
        assert forall|k: Idx|
            (#[trigger] has_id(f2, VehicleIdx::Vehicle(k)) <==> (m2.tours.contains_key(k)
                && m2.tours[k].nodes.contains(n))) by {
            if moves {
                lemma_after_hand_over(f1, provider, receiver, VehicleIdx::Vehicle(k));
            }
            if m.tours.contains_key(k) {
                assert(holds_after(m, moved, replaced, provider, receiver, n, k) <==> (
                m2.tours.contains_key(k) && m2.tours[k].nodes.contains(n)));
            } else {
                assert(!m.vehicles.contains_key(k));
                assert(!m2.vehicles.contains_key(k));
                assert(!m2.tours.contains_key(k));
            }
        }
        assert(valid_members(m2.vehicles, f2)) by {
            assert forall|j: int| 0 <= j < f2.len() implies {
                &&& (#[trigger] f2[j]).id is Vehicle
                &&& m2.vehicles.contains_key(f2[j].id.idx())
                &&& m2.vehicles[f2[j].id.idx()] == f2[j]
            } by {
                if moves {
                    lemma_members_after_hand_over(m.vehicles, m.vehicles, f1, provider, receiver);
                }
                assert(valid_members(m.vehicles, f2));
                let x = f2[j].id.idx();
                assert(f2[j].id == VehicleIdx::Vehicle(x));
                assert(has_id(f2, VehicleIdx::Vehicle(x)));
                assert(m2.tours.contains_key(x));
            }
        }
    }
}

} // verus!
