//! The steps of which the operations on a schedule are made: handing nodes
//! over in the formations, moving a vehicle between depots in the books, and
//! finding the depot for a tour.

use vstd::prelude::*;
use crate::base_types::{DepotIdx, Idx, NodeIdx, VehicleIdx, VehicleTypeIdx};
use crate::distance::{distance_le, Distance};
use crate::network::Network;
use crate::persistent::{formation_entries, formation_map_clone, formation_map_get, formation_map_update, id_set_clone, id_set_len, id_set_new, id_set_update, id_set_without, usage_entries, usage_map_get, usage_map_update, DepotUse, DepotUseModel};
use crate::schedule::model::{despawned_by_key, formations_by_node, lemma_node_key_injective, node_key, spawned_by_key};
use crate::schedule::node_key_of;
use crate::train_formation::{has_id, lemma_position_of_id, position_of_id, TrainFormation, Vehicle};

verus! {

/// What becomes of a formation when a vehicle leaves it and another comes:
/// the one that comes takes the place of the one that leaves, or the tail if
/// none leaves.
pub open spec fn handed_over(f: Seq<Vehicle>, provider: Option<Idx>, receiver: Option<Vehicle>) -> Seq<
    Vehicle,
> {
    match (provider, receiver) {
        (Some(p), Some(r)) => f.update(position_of_id(f, VehicleIdx::Vehicle(p), 0), r),
        (None, Some(r)) => f.push(r),
        (Some(p), None) => f.remove(position_of_id(f, VehicleIdx::Vehicle(p), 0)),
        (None, None) => f,
    }
}

/// Whether no node stands twice in `nodes`.
pub open spec fn all_different(nodes: Seq<NodeIdx>) -> bool {
    forall|i: int, j: int|
        #![trigger nodes[i], nodes[j]]
        0 <= i < j < nodes.len() ==> nodes[i] != nodes[j]
}

/// Hands the trips and slots among `nodes` over in the formations: in the
/// formation of each of them `provider` leaves and `receiver` comes.
pub fn hand_over_formations(
    formations: &im::HashMap<u32, TrainFormation>,
    provider: Option<Idx>,
    receiver: Option<Vehicle>,
    nodes: &Vec<NodeIdx>,
) -> (r: im::HashMap<u32, TrainFormation>)
    requires
        all_different(nodes@),
        forall|i: int|
            0 <= i < nodes@.len() && !(#[trigger] nodes@[i]).is_depot() ==> formations_by_node(
                formation_entries(*formations),
            ).contains_key(nodes@[i]),
        provider matches Some(p) ==> forall|i: int|
            0 <= i < nodes@.len() && !(#[trigger] nodes@[i]).is_depot() ==> has_id(
                formations_by_node(formation_entries(*formations))[nodes@[i]],
                VehicleIdx::Vehicle(p),
            ),
    ensures
        forall|n: NodeIdx|
            formations_by_node(formation_entries(r)).contains_key(n) == formations_by_node(
                formation_entries(*formations),
            ).contains_key(n),
        forall|n: NodeIdx|
            #![trigger formations_by_node(formation_entries(r))[n]]
            formations_by_node(formation_entries(*formations)).contains_key(n)
                ==> formations_by_node(formation_entries(r))[n] == if nodes@.contains(n)
                && !n.is_depot() {
                handed_over(
                    formations_by_node(formation_entries(*formations))[n],
                    provider,
                    receiver,
                )
            } else {
                formations_by_node(formation_entries(*formations))[n]
            },
{
    let ghost old = formations_by_node(formation_entries(*formations));
    let mut cur = formation_map_clone(formations);
    let mut i: usize = 0;
    while i < nodes.len()
        invariant
            i <= nodes.len(),
            all_different(nodes@),
            old == formations_by_node(formation_entries(*formations)),
            forall|j: int|
                0 <= j < nodes@.len() && !(#[trigger] nodes@[j]).is_depot() ==> old.contains_key(
                    nodes@[j],
                ),
            provider matches Some(p) ==> forall|j: int|
                0 <= j < nodes@.len() && !(#[trigger] nodes@[j]).is_depot() ==> has_id(
                    old[nodes@[j]],
                    VehicleIdx::Vehicle(p),
                ),
            forall|n: NodeIdx|
                formations_by_node(formation_entries(cur)).contains_key(n) == old.contains_key(n),
            forall|n: NodeIdx|
                #![trigger formations_by_node(formation_entries(cur))[n]]
                old.contains_key(n) ==> formations_by_node(formation_entries(cur))[n] == if nodes@.subrange(
                    0,
                    i as int,
                ).contains(n) && !n.is_depot() {
                    handed_over(old[n], provider, receiver)
                } else {
                    old[n]
                },
        decreases nodes.len() - i,
    {
        let n = nodes[i];
        let ghost before = formation_entries(cur);
        let ghost prefix = nodes@.subrange(0, i as int);
        let ghost longer = nodes@.subrange(0, i + 1);
        proof {
            assert forall|x: NodeIdx| longer.contains(x) <==> (prefix.contains(x) || x == n) by {
                if prefix.contains(x) {
                    let j = choose|j: int| 0 <= j < prefix.len() && prefix[j] == x;
                    assert(longer[j] == x);
                }
                if x == n {
                    assert(longer[i as int] == x);
                }
                if longer.contains(x) {
                    let j = choose|j: int| 0 <= j < longer.len() && longer[j] == x;
                    if j < i {
                        assert(prefix[j] == x);
                    }
                }
            }
            if prefix.contains(n) {
                let j = choose|j: int| 0 <= j < prefix.len() && prefix[j] == n;
                assert(nodes@[j] == nodes@[i as int]);
            }
        }
        if !n.is_depot() {
            assert(old.contains_key(nodes@[i as int]));
            assert(formations_by_node(before).contains_key(n));
            assert(formations_by_node(before)[n] == old[n]);
            let f = formation_map_get(&cur, node_key_of(n)).unwrap();
            proof {
                if provider is Some {
                    assert(has_id(old[nodes@[i as int]], VehicleIdx::Vehicle(provider->Some_0)));
                    lemma_position_of_id(f@, VehicleIdx::Vehicle(provider->Some_0), 0);
                }
            }
            let g = match (provider, receiver) {
                (Some(p), Some(r)) => match f.replace(VehicleIdx::Vehicle(p), r) {
                    Ok(g) => g,
                    Err(_) => f.clone(),
                },
                (None, Some(r)) => f.add_at_tail(r),
                (Some(p), None) => match f.remove(VehicleIdx::Vehicle(p)) {
                    Ok(g) => g,
                    Err(_) => f.clone(),
                },
                (None, None) => f.clone(),
            };
            assert(g@ == handed_over(old[n], provider, receiver));
            cur = formation_map_update(&cur, node_key_of(n), g);
            proof {
                assert forall|x: NodeIdx|
                    formations_by_node(formation_entries(cur)).contains_key(x) == old.contains_key(
                        x,
                    ) by {
                    lemma_node_key_injective(x, n);
                }
                assert forall|x: NodeIdx|
                    #![trigger formations_by_node(formation_entries(cur))[x]]
                    old.contains_key(x) implies formations_by_node(formation_entries(cur))[x]
                        == if longer.contains(x) && !x.is_depot() {
                        handed_over(old[x], provider, receiver)
                    } else {
                        old[x]
                    } by {
                    lemma_node_key_injective(x, n);
                    if x != n {
                        assert(formations_by_node(formation_entries(cur))[x] == formations_by_node(
                            before,
                        )[x]);
                    }
                }
            }
        } else {
            proof {
                assert forall|x: NodeIdx|
                    #![trigger formations_by_node(formation_entries(cur))[x]]
                    old.contains_key(x) implies formations_by_node(formation_entries(cur))[x]
                        == if longer.contains(x) && !x.is_depot() {
                        handed_over(old[x], provider, receiver)
                    } else {
                        old[x]
                    } by {
                    assert(formations_by_node(formation_entries(cur))[x] == formations_by_node(
                        before,
                    )[x]);
                }
            }
        }
        i += 1;
    }
    proof {
        assert(nodes@.subrange(0, nodes@.len() as int) =~= nodes@);
    }
    cur
}

/// The set `s` with `k` put in or taken out.
pub open spec fn with_member(s: Set<Idx>, k: Idx, present: bool) -> Set<Idx> {
    if present {
        s.insert(k)
    } else {
        s.remove(k)
    }
}

/// Books that a vehicle starts (`start`) or ends at a depot, or that it no
/// longer does (`present` false).
pub fn book_vehicle(
    usage: &im::HashMap<(Idx, Idx), DepotUse>,
    key: (Idx, Idx),
    k: Idx,
    start: bool,
    present: bool,
) -> (r: im::HashMap<(Idx, Idx), DepotUse>)
    ensures
        spawned_by_key(usage_entries(r)) == if start {
            spawned_by_key(usage_entries(*usage)).insert(
                key,
                with_member(spawned_by_key(usage_entries(*usage))[key], k, present),
            )
        } else {
            spawned_by_key(usage_entries(*usage))
        },
        despawned_by_key(usage_entries(r)) == if start {
            despawned_by_key(usage_entries(*usage))
        } else {
            despawned_by_key(usage_entries(*usage)).insert(
                key,
                with_member(despawned_by_key(usage_entries(*usage))[key], k, present),
            )
        },
{
    let entry = match usage_map_get(usage, key) {
        Some(u) => u.clone(),
        None => DepotUse { spawned: id_set_new(), despawned: id_set_new() },
    };
    let changed = if start {
        let set = if present {
            id_set_update(&entry.spawned, k)
        } else {
            id_set_without(&entry.spawned, k)
        };
        DepotUse { spawned: set, despawned: entry.despawned }
    } else {
        let set = if present {
            id_set_update(&entry.despawned, k)
        } else {
            id_set_without(&entry.despawned, k)
        };
        DepotUse { spawned: entry.spawned, despawned: set }
    };
    let r = usage_map_update(usage, key, changed);
    proof {
        let s0 = spawned_by_key(usage_entries(*usage));
        let d0 = despawned_by_key(usage_entries(*usage));
        let s1 = spawned_by_key(usage_entries(r));
        let d1 = despawned_by_key(usage_entries(r));
        if start {
            assert(s1 =~= s0.insert(key, with_member(s0[key], k, present)));
            assert(d1 =~= d0);
        } else {
            assert(s1 =~= s0);
            assert(d1 =~= d0.insert(key, with_member(d0[key], k, present)));
        }
    }
    r
}

/// Whether one more vehicle of type `t` can start at depot `d`.
pub open spec fn has_room(spawned: Map<(Idx, Idx), Set<Idx>>, nw: &Network, t: Idx, d: Idx) -> bool {
    d < nw.spec_depots().len() && spawned[(d, t)].len() < nw.spec_capacity_of(
        DepotIdx(d),
        VehicleTypeIdx(t),
    )
}

/// Whether depot `a` at distance `da` is to be preferred to depot `b` at
/// distance `db`, or is `b` itself: the nearer one is, and of two equally
/// near the one with the smaller number.
pub open spec fn preferred(da: Distance, a: Idx, db: Distance, b: Idx) -> bool {
    if da == db {
        a <= b
    } else {
        distance_le(da, db)
    }
}

/// Whether `d` is the depot at which a vehicle of type `t` best starts a
/// tour whose first trip or slot is `node`: the nearest depot with room.
pub open spec fn is_best_start_depot(
    spawned: Map<(Idx, Idx), Set<Idx>>,
    nw: &Network,
    t: Idx,
    node: NodeIdx,
    d: Idx,
) -> bool {
    &&& has_room(spawned, nw, t, d)
    &&& forall|e: Idx| #[trigger]
        has_room(spawned, nw, t, e) ==> preferred(
            nw.spec_dead_head_distance(NodeIdx::StartDepot(d), node),
            d,
            nw.spec_dead_head_distance(NodeIdx::StartDepot(e), node),
            e,
        )
}

/// Whether `d` is the depot at which a tour whose last trip or slot is
/// `node` best ends: the nearest depot.
pub open spec fn is_best_end_depot(nw: &Network, node: NodeIdx, d: Idx) -> bool {
    &&& d < nw.spec_depots().len()
    &&& forall|e: Idx|
        e < nw.spec_depots().len() ==> preferred(
            nw.spec_dead_head_distance(node, NodeIdx::EndDepot(d)),
            d,
            #[trigger] nw.spec_dead_head_distance(node, NodeIdx::EndDepot(e)),
            e,
        )
}

/// There is at most one best depot.
pub proof fn lemma_best_depot_unique(
    spawned: Map<(Idx, Idx), Set<Idx>>,
    nw: &Network,
    t: Idx,
    node: NodeIdx,
    a: Idx,
    b: Idx,
)
    ensures
        is_best_start_depot(spawned, nw, t, node, a) && is_best_start_depot(spawned, nw, t, node, b)
            ==> a == b,
        is_best_end_depot(nw, node, a) && is_best_end_depot(nw, node, b) ==> a == b,
{
    if is_best_start_depot(spawned, nw, t, node, a) && is_best_start_depot(spawned, nw, t, node, b) {
        assert(has_room(spawned, nw, t, a));
        assert(has_room(spawned, nw, t, b));
    }
    if is_best_end_depot(nw, node, a) && is_best_end_depot(nw, node, b) {
        let da = nw.spec_dead_head_distance(node, NodeIdx::EndDepot(a));
        let db = nw.spec_dead_head_distance(node, NodeIdx::EndDepot(b));
        assert(preferred(da, a, db, b));
        assert(preferred(db, b, da, a));
    }
}

/// The number of vehicles of a type that start at a depot, as booked.
pub fn spawned_count(usage: &im::HashMap<(Idx, Idx), DepotUse>, d: Idx, t: Idx) -> (n: usize)
    ensures
        n == spawned_by_key(usage_entries(*usage))[(d, t)].len(),
{
    match usage_map_get(usage, (d, t)) {
        Some(u) => id_set_len(&u.spawned),
        None => 0,
    }
}

/// The depot at which a vehicle of a type best starts a tour whose first
/// trip or slot is `node`; none if no depot has room.
pub fn find_best_start_depot(
    usage: &im::HashMap<(Idx, Idx), DepotUse>,
    nw: &Network,
    vehicle_type: VehicleTypeIdx,
    node: NodeIdx,
) -> (r: Option<NodeIdx>)
    requires
        nw.wf(),
        nw.contains(node),
    ensures
        match r {
            Some(n) => n is StartDepot && nw.contains(n) && is_best_start_depot(
                spawned_by_key(usage_entries(*usage)),
                nw,
                vehicle_type.0,
                node,
                n.idx(),
            ),
            None => forall|e: Idx|
                !#[trigger] has_room(spawned_by_key(usage_entries(*usage)), nw, vehicle_type.0, e),
        },
{
    let ghost sp = spawned_by_key(usage_entries(*usage));
    let t = vehicle_type.0;
    let n = nw.number_of_depots();
    let mut best: Option<(Idx, Distance)> = None;
    let mut d: usize = 0;
    while d < n
        invariant
            d <= n == nw.spec_depots().len(),
            n <= 0x10000,
            nw.wf(),
            nw.contains(node),
            t == vehicle_type.0,
            sp == spawned_by_key(usage_entries(*usage)),
            match best {
                Some((b, db)) => b < d && has_room(sp, nw, t, b) && db
                    == nw.spec_dead_head_distance(NodeIdx::StartDepot(b), node) && forall|e: Idx|
                    e < d && #[trigger] has_room(sp, nw, t, e) ==> preferred(
                        db,
                        b,
                        nw.spec_dead_head_distance(NodeIdx::StartDepot(e), node),
                        e,
                    ),
                None => forall|e: Idx| e < d ==> !#[trigger] has_room(sp, nw, t, e),
            },
        decreases n - d,
    {
        let di = d as Idx;
        let room = spawned_count(usage, di, t) < nw.capacity_of(DepotIdx(di), vehicle_type) as usize;
        if room {
            let dist = nw.dead_head_distance_between(NodeIdx::StartDepot(di), node);
            let better = match best {
                Some((_, db)) => dist.lt(db),
                None => true,
            };
            if better {
                best = Some((di, dist));
            }
        }
        d += 1;
    }
    match best {
        Some((b, _)) => Some(NodeIdx::StartDepot(b)),
        None => None,
    }
}

/// The depot at which a tour whose last trip or slot is `node` best ends;
/// none if the network has no depot.
pub fn find_best_end_depot(nw: &Network, node: NodeIdx) -> (r: Option<NodeIdx>)
    requires
        nw.wf(),
        nw.contains(node),
    ensures
        match r {
            Some(n) => n is EndDepot && nw.contains(n) && is_best_end_depot(nw, node, n.idx()),
            None => nw.spec_depots().len() == 0,
        },
{
    let n = nw.number_of_depots();
    let mut best: Option<(Idx, Distance)> = None;
    let mut d: usize = 0;
    while d < n
        invariant
            d <= n == nw.spec_depots().len(),
            n <= 0x10000,
            nw.wf(),
            nw.contains(node),
            match best {
                Some((b, db)) => b < d && db == nw.spec_dead_head_distance(
                    node,
                    NodeIdx::EndDepot(b),
                ) && forall|e: Idx|
                    e < d ==> preferred(
                        db,
                        b,
                        #[trigger] nw.spec_dead_head_distance(node, NodeIdx::EndDepot(e)),
                        e,
                    ),
                None => d == 0,
            },
        decreases n - d,
    {
        let di = d as Idx;
        let dist = nw.dead_head_distance_between(node, NodeIdx::EndDepot(di));
        let better = match best {
            Some((_, db)) => dist.lt(db),
            None => true,
        };
        if better {
            best = Some((di, dist));
        }
        d += 1;
    }
    match best {
        Some((b, _)) => Some(NodeIdx::EndDepot(b)),
        None => None,
    }
}

} // verus!
