//! What holds of a formation after a vehicle came, left or took another's
//! place.

use vstd::prelude::*;
use crate::base_types::{Idx, VehicleIdx};
use crate::schedule::model::valid_members;
use crate::schedule::parts::handed_over;
use crate::train_formation::{has_id, ids_distinct, lemma_position_of_id, position_of_id, Vehicle};

verus! {

/// After a vehicle came to the tail, the formation has the vehicles it had
/// and the one that came.
pub proof fn lemma_after_push(f: Seq<Vehicle>, v: Vehicle, x: VehicleIdx)
    ensures
        has_id(f.push(v), x) <==> (has_id(f, x) || x == v.id),
        ids_distinct(f) && !has_id(f, v.id) ==> ids_distinct(f.push(v)),
{
    let g = f.push(v);
    if has_id(f, x) {
        let w = choose|w: int| 0 <= w < f.len() && (#[trigger] f[w]).id == x;
        assert(g[w].id == x);
    }
    if x == v.id {
        assert(g[f.len() as int].id == x);
    }
    if has_id(g, x) {
        let w = choose|w: int| 0 <= w < g.len() && (#[trigger] g[w]).id == x;
        if w < f.len() {
            assert(f[w].id == x);
        }
    }
    if ids_distinct(f) && !has_id(f, v.id) {
        assert forall|i: int, j: int| #![trigger g[i], g[j]] 0 <= i < j < g.len() implies g[i].id
            != g[j].id by {
            if j < f.len() {
                assert(f[i].id != f[j].id);
            } else {
                assert(f[i].id != v.id);
            }
        }
    }
}

/// After a vehicle left a formation in which no vehicle stands twice, the
/// formation has the vehicles it had but that one.
pub proof fn lemma_after_remove(f: Seq<Vehicle>, p: VehicleIdx, x: VehicleIdx)
    requires
        ids_distinct(f),
        has_id(f, p),
    ensures
        has_id(f.remove(position_of_id(f, p, 0)), x) <==> (has_id(f, x) && x != p),
        ids_distinct(f.remove(position_of_id(f, p, 0))),
{
    lemma_position_of_id(f, p, 0);
    let pos = position_of_id(f, p, 0);
    let g = f.remove(pos);
    if has_id(f, x) && x != p {
        let w = choose|w: int| 0 <= w < f.len() && (#[trigger] f[w]).id == x;
        if w < pos {
            assert(g[w].id == x);
        } else {
            assert(g[w - 1].id == x);
        }
    }
    if has_id(g, x) {
        let w = choose|w: int| 0 <= w < g.len() && (#[trigger] g[w]).id == x;
        let u = if w < pos {
            w
        } else {
            w + 1
        };
        assert(f[u].id == x);
        if u < pos {
            assert(f[u].id != f[pos].id);
        } else {
            assert(f[pos].id != f[u].id);
        }
    }
    assert forall|i: int, j: int| #![trigger g[i], g[j]] 0 <= i < j < g.len() implies g[i].id
        != g[j].id by {
        let a = if i < pos {
            i
        } else {
            i + 1
        };
        let b = if j < pos {
            j
        } else {
            j + 1
        };
        assert(f[a].id != f[b].id);
    }
}

/// After a vehicle took the place of another in a formation in which no
/// vehicle stands twice and the one that comes does not stand, the formation
/// has the vehicles it had but the one that left, and the one that came.
pub proof fn lemma_after_replace(f: Seq<Vehicle>, p: VehicleIdx, r: Vehicle, x: VehicleIdx)
    requires
        ids_distinct(f),
        has_id(f, p),
        !has_id(f, r.id) || r.id == p,
    ensures
        has_id(f.update(position_of_id(f, p, 0), r), x) <==> ((has_id(f, x) && x != p) || x
            == r.id),
        ids_distinct(f.update(position_of_id(f, p, 0), r)),
{
    lemma_position_of_id(f, p, 0);
    let pos = position_of_id(f, p, 0);
    let g = f.update(pos, r);
    if has_id(f, x) && x != p {
        let w = choose|w: int| 0 <= w < f.len() && (#[trigger] f[w]).id == x;
        assert(g[w].id == x);
    }
    if x == r.id {
        assert(g[pos].id == x);
    }
    if has_id(g, x) {
        let w = choose|w: int| 0 <= w < g.len() && (#[trigger] g[w]).id == x;
        if w != pos {
            assert(f[w].id == x);
            if w < pos {
                assert(f[w].id != f[pos].id);
            } else {
                assert(f[pos].id != f[w].id);
            }
        }
    }
    assert forall|i: int, j: int| #![trigger g[i], g[j]] 0 <= i < j < g.len() implies g[i].id
        != g[j].id by {
        assert(f[i].id != f[j].id);
        if i == pos {
            assert(f[j].id == g[j].id);
        }
        if j == pos {
            assert(f[i].id == g[i].id);
        }
    }
}

/// What holds of a formation after a hand-over: it has the vehicles it had
/// but the one that left, and the one that came; no vehicle stands in it
/// twice; and its members are members it had, or the one that came.
pub proof fn lemma_after_hand_over(
    f: Seq<Vehicle>,
    provider: Option<Idx>,
    receiver: Option<Vehicle>,
    x: VehicleIdx,
)
    requires
        ids_distinct(f),
        provider matches Some(p) ==> has_id(f, VehicleIdx::Vehicle(p)),
        receiver matches Some(r) ==> !has_id(f, r.id),
    ensures
        has_id(handed_over(f, provider, receiver), x) <==> ((has_id(f, x) && !(provider matches Some(
            p,
        ) && x == VehicleIdx::Vehicle(p))) || (receiver matches Some(r) && x == r.id)),
        ids_distinct(handed_over(f, provider, receiver)),
{
    match (provider, receiver) {
        (Some(p), Some(r)) => {
            lemma_after_replace(f, VehicleIdx::Vehicle(p), r, x);
        },
        (None, Some(r)) => {
            lemma_after_push(f, r, x);
        },
        (Some(p), None) => {
            lemma_after_remove(f, VehicleIdx::Vehicle(p), x);
        },
        (None, None) => {},
    }
}

/// The members of a formation after a hand-over are vehicles of the
/// schedule, if they were before, the one that came is one, and the one that
/// left is the only one that the schedule may have lost.
pub proof fn lemma_members_after_hand_over(
    before: Map<Idx, Vehicle>,
    after: Map<Idx, Vehicle>,
    f: Seq<Vehicle>,
    provider: Option<Idx>,
    receiver: Option<Vehicle>,
)
    requires
        valid_members(before, f),
        ids_distinct(f),
        provider matches Some(p) ==> has_id(f, VehicleIdx::Vehicle(p)),
        receiver matches Some(r) ==> r.id is Vehicle && after.contains_key(r.id.idx()) && after[r.id.idx()]
            == r,
        forall|k: Idx|
            before.contains_key(k) && !(provider matches Some(p) && p == k) ==> after.contains_key(
                k,
            ) && after[k] == before[k],
    ensures
        valid_members(after, handed_over(f, provider, receiver)),
{
    let g = handed_over(f, provider, receiver);
    if provider is Some {
        lemma_position_of_id(f, VehicleIdx::Vehicle(provider->Some_0), 0);
    }
    assert forall|j: int| 0 <= j < g.len() implies {
        &&& (#[trigger] g[j]).id is Vehicle
        &&& after.contains_key(g[j].id.idx())
        &&& after[g[j].id.idx()] == g[j]
    } by {
        match (provider, receiver) {
            (Some(p), Some(r)) => {
                let pos = position_of_id(f, VehicleIdx::Vehicle(p), 0);
                if j != pos {
                    assert(g[j] == f[j]);
                    if j < pos {
                        assert(f[j].id != f[pos].id);
                    } else {
                        assert(f[pos].id != f[j].id);
                    }
                }
            },
            (None, Some(r)) => {
                if j < f.len() {
                    assert(g[j] == f[j]);
                }
            },
            (Some(p), None) => {
                let pos = position_of_id(f, VehicleIdx::Vehicle(p), 0);
                let u = if j < pos {
                    j
                } else {
                    j + 1
                };
                assert(g[j] == f[u]);
                if u < pos {
                    assert(f[u].id != f[pos].id);
                } else {
                    assert(f[pos].id != f[u].id);
                }
            },
            (None, None) => {
                assert(g[j] == f[j]);
            },
        }
    }
}

} // verus!
