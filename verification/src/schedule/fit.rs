//! Handing over as much of a segment as fits into the receiver's tour
//! without any of its nodes giving way.

use vstd::prelude::*;
use crate::base_types::{Idx, NodeIdx, VehicleIdx};
use crate::chain::{copy_range, covers_something, is_chain, lemma_chain_distinct, lemma_chain_subrange, TourError};
use crate::network::Network;
use crate::path::{is_path, Path};
use crate::schedule::model::{schedule_ok, ScheduleModel};
use crate::schedule::parts::all_different;
use crate::schedule::reassign_model::{known, left_with, lemma_schedule_ok_parts, lemma_transfer_ok, lemma_with_tour_ok, real_idx, tour_in, transfer_result};
use crate::schedule::{Schedule, ScheduleError};
use crate::segment::Segment;
use crate::time::time_le;
use crate::tour::{depot_structure_ok, displaced, is_tour, lemma_position_from, lemma_tour_structure, not_reaching_from, removal_fault, segment_range, with_path, without_range, Tour, TourModel};
use crate::tour_laws::{lemma_common_nodes_displaced, lemma_grown_tour, lemma_shrunk_tour, lemma_with_path_nodes, lemma_without_range_nodes};

verus! {

/// The nodes of a tour that may not be there.
pub open spec fn tour_nodes(t: Option<Tour>) -> Option<Seq<NodeIdx>> {
    match t {
        Some(t) => Some(t@.nodes),
        None => None,
    }
}

/// The nodes of a path that may not be there.
pub open spec fn path_nodes(p: Option<Path>) -> Seq<NodeIdx> {
    match p {
        Some(p) => p@,
        None => Seq::empty(),
    }
}

/// The position in `path` of the last node that can end a piece which
/// starts at the first node of `path` and goes in before `blocker`: among
/// the nodes from position `i` on that end before the blocker starts, the
/// last that reaches the blocker and up to which the provider can let go;
/// `best` if there is none.
pub open spec fn last_fitting(
    nw: &Network,
    provider: Seq<NodeIdx>,
    blocker: NodeIdx,
    path: Seq<NodeIdx>,
    i: int,
    best: int,
) -> int
    decreases path.len() - i,
{
    if i < 0 || i >= path.len() || !time_le(nw.spec_end_time(path[i]), nw.spec_start_time(blocker)) {
        best
    } else if nw.reaches(path[i], blocker) && removal_fault(
        nw,
        provider,
        Segment { start: path[0], end: path[i] },
    ) is None {
        last_fitting(nw, provider, blocker, path, i + 1, i)
    } else {
        last_fitting(nw, provider, blocker, path, i + 1, best)
    }
}

/// The position in `path` at which the next piece ends: the whole path if
/// every node of the receiver reaches its first node, and else what goes in
/// before the first node of the receiver behind which none reaches it.
pub open spec fn fit_cut(nw: &Network, provider: Seq<NodeIdx>, receiver: Seq<NodeIdx>, path: Seq<NodeIdx>) -> int {
    match not_reaching_from(nw, receiver, path[0]) {
        None => path.len() - 1,
        Some(pos) => last_fitting(nw, provider, receiver[pos], path, 0, 0),
    }
}

pub proof fn lemma_last_fitting(
    nw: &Network,
    provider: Seq<NodeIdx>,
    blocker: NodeIdx,
    path: Seq<NodeIdx>,
    i: int,
    best: int,
)
    requires
        0 <= best < path.len(),
        0 <= i,
    ensures
        0 <= last_fitting(nw, provider, blocker, path, i, best) < path.len(),
    decreases path.len() - i,
{
    if i < path.len() && time_le(nw.spec_end_time(path[i]), nw.spec_start_time(blocker)) {
        if nw.reaches(path[i], blocker) && removal_fault(
            nw,
            provider,
            Segment { start: path[0], end: path[i] },
        ) is None {
            lemma_last_fitting(nw, provider, blocker, path, i + 1, i);
        } else {
            lemma_last_fitting(nw, provider, blocker, path, i + 1, best);
        }
    }
}

/// What is left to the provider, what the receiver has, and what moved,
/// after as much of `path` was handed over as fits. Piece by piece: the
/// next piece starts at the first node of what is left of the path and ends
/// where `fit_cut` says; it moves if the provider can let it go and no node
/// of the receiver has to give way to it, and stays otherwise.
pub open spec fn fit(
    nw: &Network,
    provider: Option<Seq<NodeIdx>>,
    receiver: Seq<NodeIdx>,
    receiver_is_dummy: bool,
    path: Seq<NodeIdx>,
    moved: Seq<NodeIdx>,
) -> (Option<Seq<NodeIdx>>, Seq<NodeIdx>, Seq<NodeIdx>)
    decreases path.len(),
{
    if !covers_something(path) || provider is None {
        (provider, receiver, moved)
    } else {
        let p = provider->Some_0;
        let cut = fit_cut(nw, p, receiver, path);
        let piece = Segment { start: path[0], end: path[cut] };
        if cut < 0 || cut >= path.len() {
            (provider, receiver, moved)
        } else {
            let later = path.subrange(cut + 1, path.len() as int);
            let fits = removal_fault(nw, p, piece) is None && !covers_something(
                displaced(nw, receiver, piece.start, piece.end),
            ) && depot_structure_ok(
                with_path(
                    nw,
                    receiver,
                    p.subrange(
                        segment_range(p, piece)->Some_0.0,
                        segment_range(p, piece)->Some_0.1 + 1,
                    ),
                ),
                receiver_is_dummy,
            );
            if fits {
                let (i, j) = segment_range(p, piece)->Some_0;
                let taken = p.subrange(i, j + 1);
                let left = without_range(p, i, j);
                fit(
                    nw,
                    if covers_something(left) {
                        Some(left)
                    } else {
                        None
                    },
                    with_path(nw, receiver, taken),
                    receiver_is_dummy,
                    later,
                    moved + taken,
                )
            } else {
                fit(nw, provider, receiver, receiver_is_dummy, later, moved)
            }
        }
    }
}

/// Why nothing of a segment can be handed over, if nothing can.
pub open spec fn fit_fault(
    m: ScheduleModel,
    nw: &Network,
    segment: Segment,
    provider: VehicleIdx,
    receiver: VehicleIdx,
) -> Option<ScheduleError> {
    if provider == receiver {
        Some(ScheduleError::SameVehicle(provider))
    } else if !known(m, provider) {
        Some(ScheduleError::UnknownVehicle(provider))
    } else if !known(m, receiver) {
        Some(ScheduleError::UnknownVehicle(receiver))
    } else {
        let tp = tour_in(m, provider).nodes;
        match segment_range(tp, segment) {
            None => Some(ScheduleError::TourInfeasible(TourError::SegmentNotInTour)),
            Some((i, j)) => if !covers_something(tp.subrange(i, j + 1)) {
                Some(ScheduleError::TourInfeasible(TourError::BadDepotStructure))
            } else {
                None
            },
        }
    }
}

/// The schedule after as much of a segment as fits went from the provider
/// to the receiver.
pub open spec fn after_fit(
    m: ScheduleModel,
    nw: &Network,
    segment: Segment,
    provider: VehicleIdx,
    receiver: VehicleIdx,
) -> ScheduleModel {
    let tp = tour_in(m, provider).nodes;
    let tr = tour_in(m, receiver).nodes;
    let (i, j) = segment_range(tp, segment)->Some_0;
    let (rest, grown, moved) = fit(
        nw,
        Some(tp),
        tr,
        receiver.is_dummy(),
        tp.subrange(i, j + 1),
        Seq::empty(),
    );
    transfer_result(m, nw, provider, receiver, rest, grown, moved, Seq::empty())
}

/// What holds while pieces are handed over: both tours are tours with the
/// start depots they had; the receiver holds what it held and what moved;
/// the provider holds what it held but what moved; and what moved was the
/// provider's and not the receiver's, no node twice.
pub open spec fn fit_inv(
    nw: &Network,
    tp: Seq<NodeIdx>,
    tr: Seq<NodeIdx>,
    provider_is_dummy: bool,
    receiver_is_dummy: bool,
    rest: Option<Seq<NodeIdx>>,
    grown: Seq<NodeIdx>,
    moved: Seq<NodeIdx>,
) -> bool {
    &&& rest matches Some(s) ==> is_tour(nw, TourModel { nodes: s, dummy: provider_is_dummy })
    &&& rest matches Some(s) ==> (!provider_is_dummy ==> s[0] == tp[0])
    &&& is_tour(nw, TourModel { nodes: grown, dummy: receiver_is_dummy })
    &&& !receiver_is_dummy ==> grown[0] == tr[0]
    &&& forall|i: int| 0 <= i < moved.len() ==> nw.contains(#[trigger] moved[i])
    &&& all_different(moved)
    &&& forall|n: NodeIdx|
        !n.is_depot() ==> (#[trigger] grown.contains(n) <==> (moved.contains(n) || tr.contains(n)))
    &&& forall|n: NodeIdx|
        !n.is_depot() ==> (#[trigger] left_with(rest, n) <==> (tp.contains(n) && !moved.contains(
            n,
        )))
    &&& forall|n: NodeIdx| #[trigger] moved.contains(n) ==> !n.is_depot() && tp.contains(n) && !tr.contains(n)
}

/// What holds while pieces are handed over still holds after one more piece
/// moved.
pub proof fn lemma_fit_step(
    nw: &Network,
    tp: Seq<NodeIdx>,
    tr: Seq<NodeIdx>,
    provider_is_dummy: bool,
    receiver_is_dummy: bool,
    p: Seq<NodeIdx>,
    grown: Seq<NodeIdx>,
    moved: Seq<NodeIdx>,
    piece: Segment,
)
    requires
        nw.wf(),
        fit_inv(nw, tp, tr, provider_is_dummy, receiver_is_dummy, Some(p), grown, moved),
        removal_fault(nw, p, piece) is None,
        !covers_something(displaced(nw, grown, piece.start, piece.end)),
    ensures
        ({
            let (i, j) = segment_range(p, piece)->Some_0;
            let taken = p.subrange(i, j + 1);
            let left = without_range(p, i, j);
            &&& taken.len() > 0
            &&& taken[0] == piece.start
            &&& taken.last() == piece.end
            &&& is_chain(nw, taken)
            &&& covers_something(taken)
            &&& depot_structure_ok(with_path(nw, grown, taken), receiver_is_dummy)
            &&& fit_inv(
                nw,
                tp,
                tr,
                provider_is_dummy,
                receiver_is_dummy,
                if covers_something(left) {
                    Some(left)
                } else {
                    None
                },
                with_path(nw, grown, taken),
                moved + taken,
            )
        }),
{
    lemma_position_from(p, piece.start, 0);
    lemma_position_from(p, piece.end, 0);
    let (i, j) = segment_range(p, piece)->Some_0;
    let taken = p.subrange(i, j + 1);
    let left = without_range(p, i, j);
    let next = if covers_something(left) {
        Some(left)
    } else {
        None
    };
    let grown2 = with_path(nw, grown, taken);
    let moved2 = moved + taken;
    let gone = displaced(nw, grown, piece.start, piece.end);
    lemma_shrunk_tour(nw, p, piece, provider_is_dummy);
    assert(taken[0] == p[i]);
    assert(taken.last() == p[j]);
    assert(!taken[0].is_depot());
    lemma_grown_tour(nw, grown, taken, receiver_is_dummy);
    lemma_tour_structure(nw, TourModel { nodes: grown2, dummy: receiver_is_dummy });
    // what is taken is not the receiver's
    assert forall|n: NodeIdx| taken.contains(n) implies !grown.contains(n) && !n.is_depot()
        && p.contains(n) by {
        let w = choose|w: int| 0 <= w < taken.len() && taken[w] == n;
        assert(!taken[w].is_depot());
        lemma_without_range_nodes(nw, p, i, j, n);
        if grown.contains(n) {
            lemma_common_nodes_displaced(nw, grown, taken, n);
            let u = choose|u: int| 0 <= u < gone.len() && gone[u] == n;
            assert(!gone[u].is_depot());
        }
    }
    assert forall|n: NodeIdx| #[trigger] moved2.contains(n) <==> (moved.contains(n) || taken.contains(
        n,
    )) by {
        if moved.contains(n) {
            let w = choose|w: int| 0 <= w < moved.len() && moved[w] == n;
            assert(moved2[w] == n);
        }
        if taken.contains(n) {
            let w = choose|w: int| 0 <= w < taken.len() && taken[w] == n;
            assert(moved2[moved.len() + w] == n);
        }
        if moved2.contains(n) {
            let w = choose|w: int| 0 <= w < moved2.len() && moved2[w] == n;
            if w < moved.len() {
                assert(moved[w] == n);
            } else {
                assert(taken[w - moved.len()] == n);
            }
        }
    }
    assert forall|x: int| 0 <= x < moved2.len() implies nw.contains(#[trigger] moved2[x]) by {
        if x < moved.len() {
            assert(moved2[x] == moved[x]);
        } else {
            assert(moved2[x] == taken[x - moved.len()]);
        }
    }
    assert(all_different(moved2)) by {
        assert forall|a: int, b: int| #![trigger moved2[a], moved2[b]] 0 <= a < b < moved2.len() implies moved2[a]
            != moved2[b] by {
            if b < moved.len() {
                assert(moved[a] != moved[b]);
            } else if a >= moved.len() {
                lemma_chain_distinct(nw, taken, a - moved.len(), b - moved.len());
            } else {
                let n = moved2[b];
                assert(taken[b - moved.len()] == n);
                assert(taken.contains(n));
                assert(moved[a] == moved2[a]);
                if moved2[a] == n {
                    assert(moved.contains(n));
                    assert(left_with(Some(p), n) <==> (tp.contains(n) && !moved.contains(n)));
                    assert(left_with(Some(p), n));
                }
            }
        }
    }
    assert forall|n: NodeIdx| !n.is_depot() implies (#[trigger] grown2.contains(n) <==> (
    moved2.contains(n) || tr.contains(n))) by {
        lemma_with_path_nodes(nw, grown, taken, n);
        assert(grown.contains(n) <==> (moved.contains(n) || tr.contains(n)));
        if gone.contains(n) {
            let u = choose|u: int| 0 <= u < gone.len() && gone[u] == n;
            assert(!gone[u].is_depot());
        }
    }
    assert forall|n: NodeIdx| !n.is_depot() implies (#[trigger] left_with(next, n) <==> (tp.contains(
        n,
    ) && !moved2.contains(n))) by {
        lemma_without_range_nodes(nw, p, i, j, n);
        assert(left_with(Some(p), n) <==> (tp.contains(n) && !moved.contains(n)));
    }
    assert forall|n: NodeIdx| #[trigger] moved2.contains(n) implies !n.is_depot() && tp.contains(n)
        && !tr.contains(n) by {
        if taken.contains(n) {
            assert(left_with(Some(p), n) <==> (tp.contains(n) && !moved.contains(n)));
            assert(left_with(Some(p), n));
            assert(grown.contains(n) <==> (moved.contains(n) || tr.contains(n)));
        }
    }
}

impl Schedule {
    /// Hands over from the provider to the receiver as much of a segment as
    /// fits: the nodes to which a node of the receiver would have to give
    /// way stay with the provider. Both vehicles get the best depots for
    /// their new tours; a provider that is left with nothing is deleted.
    pub fn fit_reassign(&self, segment: Segment, provider: VehicleIdx, receiver: VehicleIdx) -> (r:
        Result<Schedule, ScheduleError>)
        requires
            self.wf(),
        ensures
            match r {
                Ok(s) => {
                    &&& fit_fault(self@, &self.spec_network(), segment, provider, receiver) is None
                    &&& s@ == after_fit(self@, &self.spec_network(), segment, provider, receiver)
                    &&& s.wf()
                    &&& s.same_frame(self)
                },
                Err(e) => fit_fault(self@, &self.spec_network(), segment, provider, receiver)
                    == Some(e),
            },
    {
        let ghost m = self@;
        let ghost nw = self.spec_network();
        let ghost vt = self.spec_vehicle_types();
        if provider == receiver {
            return Err(ScheduleError::SameVehicle(provider));
        }
        proof {
            self.lemma_same_keys();
            lemma_schedule_ok_parts(m, &nw, &vt);
        }
        let tour_provider = match self.tour_of(provider) {
            Ok(t) => t,
            Err(_) => {
                return Err(ScheduleError::UnknownVehicle(provider));
            },
        };
        let tour_receiver = match self.tour_of(receiver) {
            Ok(t) => t,
            Err(_) => {
                return Err(ScheduleError::UnknownVehicle(receiver));
            },
        };
        let ghost tp = tour_provider@.nodes;
        let ghost tr = tour_receiver@.nodes;
        let ghost dp = provider.is_dummy();
        let ghost dr = receiver.is_dummy();
        proof {
            assert(tour_provider.wf(&nw)) by {
                if provider is Vehicle {
                    assert(m.tours.contains_key(provider.idx()));
                }
            }
            assert(tour_receiver.wf(&nw)) by {
                if receiver is Vehicle {
                    assert(m.tours.contains_key(receiver.idx()));
                }
            }
        }
        let path = match tour_provider.sub_path(segment, &self.network) {
            Ok(p) => p,
            Err(e) => {
                return Err(ScheduleError::TourInfeasible(e));
            },
        };
        let ghost whole = path@;
        let mut new_provider: Option<Tour> = Some(tour_provider.clone());
        let mut new_receiver: Tour = tour_receiver.clone();
        let mut remaining: Option<Path> = Some(path);
        let mut moved: Vec<NodeIdx> = Vec::new();
        proof {
            assert forall|n: NodeIdx| !moved@.contains(n) by {}
            assert(fit_inv(&nw, tp, tr, dp, dr, Some(tp), tr, moved@));
        }
        loop
            invariant
                nw.wf(),
                nw == self.spec_network(),
                dp == provider.is_dummy(),
                dr == receiver.is_dummy(),
                new_provider matches Some(t) ==> t@.dummy == dp,
                new_receiver@.dummy == dr,
                remaining matches Some(q) ==> q.wf(&nw),
                fit_inv(
                    &nw,
                    tp,
                    tr,
                    dp,
                    dr,
                    tour_nodes(new_provider),
                    new_receiver@.nodes,
                    moved@,
                ),
                fit(&nw, Some(tp), tr, dr, whole, Seq::empty()) == fit(
                    &nw,
                    tour_nodes(new_provider),
                    new_receiver@.nodes,
                    dr,
                    path_nodes(remaining),
                    moved@,
                ),
            ensures
                remaining is None || new_provider is None,
                new_provider matches Some(t) ==> t@.dummy == dp,
                new_receiver@.dummy == dr,
                fit_inv(
                    &nw,
                    tp,
                    tr,
                    dp,
                    dr,
                    tour_nodes(new_provider),
                    new_receiver@.nodes,
                    moved@,
                ),
                fit(&nw, Some(tp), tr, dr, whole, Seq::empty()) == fit(
                    &nw,
                    tour_nodes(new_provider),
                    new_receiver@.nodes,
                    dr,
                    path_nodes(remaining),
                    moved@,
                ),
            decreases
                    path_nodes(remaining).len() + (if remaining is Some { 1nat } else { 0nat }),
        {
            let path = match remaining {
                Some(q) => q,
                None => {
                    remaining = None;
                    break ;
                },
            };
            let current = match &new_provider {
                Some(t) => t,
                None => {
                    remaining = Some(path);
                    break ;
                },
            };
            let ghost q = path@;
            let ghost p = current@.nodes;
            let ghost g = new_receiver@.nodes;
            let n = path.length();
            let start = path.first();
            assert(nw.contains(q[0]));
            assert(is_chain(&nw, g));
            // where the piece ends
            let cut: usize = match new_receiver.latest_not_reaching_node(start, &self.network) {
                None => n - 1,
                Some(pos) => {
                    let blocker = new_receiver.nth_node(pos).unwrap();
                    assert(nw.contains(g[pos as int]));
                    let begins = self.network.start_time(blocker);
                    let mut best: usize = 0;
                    let mut i: usize = 0;
                    while i < n && self.network.end_time(path.iter()[i]).le(begins)
                        invariant
                            nw.wf(),
                            nw == self.spec_network(),
                            q == path@,
                            p == current@.nodes,
                            current.wf(&nw),
                            is_path(&nw, q),
                            n == q.len(),
                            i <= n,
                            best < n,
                            nw.contains(blocker),
                            begins == nw.spec_start_time(blocker),
                            start == q[0],
                            last_fitting(&nw, p, blocker, q, 0, 0) == last_fitting(
                                &nw,
                                p,
                                blocker,
                                q,
                                i as int,
                                best as int,
                            ),
                        decreases n - i,
                    {
                        let node = path.iter()[i];
                        assert(nw.contains(q[i as int]));
                        if self.network.can_reach(node, blocker) {
                            if current.check_removable(Segment::new(start, node), &self.network).is_ok() {
                                best = i;
                            }
                        }
                        i += 1;
                    }
                    best
                },
            };
            proof {
                assert(nw.contains(q[cut as int]));
                assert(cut as int == fit_cut(&nw, p, g, q));
                lemma_chain_subrange(&nw, q, cut + 1, q.len() as int);
            }
            let end = path.iter()[cut];
            let later = copy_range(path.iter(), cut + 1, n);
            remaining = Path::new_trusted(later, &self.network);
            let piece = Segment::new(start, end);
            proof {
                let rest_path = q.subrange(cut + 1, q.len() as int);
                if remaining is None {
                    // what is left of the path covers nothing: nothing more will move
                    assert(!covers_something(rest_path));
                    assert(!covers_something(Seq::<NodeIdx>::empty()));
                }
            }
            let ghost later_path = q.subrange(cut + 1, q.len() as int);
            let (candidate, taken) = match current.remove(piece, &self.network) {
                Ok(x) => x,
                Err(_) => {
                    proof {
                        lemma_fit_unfold_skip(&nw, Some(p), g, dr, q, moved@, later_path, remaining is None);
                    }
                    continue ;
                },
            };
            if new_receiver.conflict(piece, &self.network).is_some() {
                proof {
                    lemma_fit_unfold_skip(&nw, Some(p), g, dr, q, moved@, later_path, remaining is None);
                }
                continue ;
            }
            proof {
                lemma_fit_step(&nw, tp, tr, dp, dr, p, g, moved@, piece);
            }
            let ghost taken_nodes = taken@;
            let mut taken_vec = copy_range(taken.iter(), 0, taken.length());
            let grown = match new_receiver.insert_path(taken, &self.network) {
                Ok((t, _)) => t,
                Err(_) => {
                    proof {
                        assert(false);
                    }
                    continue ;
                },
            };
            proof {
                assert(taken_vec@ =~= taken_nodes);
                lemma_fit_unfold_move(&nw, p, g, dr, q, moved@, later_path, remaining is None);
            }
            new_provider = candidate;
            new_receiver = grown;
            moved.append(&mut taken_vec);
        }
        let ghost rest = tour_nodes(new_provider);
        let ghost grown = new_receiver@.nodes;
        proof {
            assert(fit(&nw, Some(tp), tr, dr, whole, Seq::empty()) == (rest, grown, moved@));
            let none = Seq::<NodeIdx>::empty();
            assert forall|n: NodeIdx| !none.contains(n) by {}
            lemma_transfer_ok(m, &nw, &vt, provider, receiver, rest, grown, moved@, none);
            lemma_with_tour_ok(m, &nw, &vt, provider, rest);
        }
        let provider_idx: Option<Idx> = match provider {
            VehicleIdx::Vehicle(k) => Some(k),
            VehicleIdx::Dummy(_) => None,
        };
        let nothing: Vec<NodeIdx> = Vec::new();
        let formations = self.transfer_in_formations(&moved, &nothing, provider_idx, receiver);
        let s1 = match &new_provider {
            Some(t) => self.place_tour(provider, Some(t)),
            None => self.place_tour(provider, None),
        };
        let s2 = s1.place_tour(receiver, Some(&new_receiver));
        let s3 = s2.with_formations(formations);
        Ok(s3)
    }
}

/// Unfolding `fit` once where the piece does not move.
pub proof fn lemma_fit_unfold_skip(
    nw: &Network,
    provider: Option<Seq<NodeIdx>>,
    receiver: Seq<NodeIdx>,
    receiver_is_dummy: bool,
    path: Seq<NodeIdx>,
    moved: Seq<NodeIdx>,
    later: Seq<NodeIdx>,
    done: bool,
)
    requires
        provider is Some,
        covers_something(path),
        ({
            let cut = fit_cut(nw, provider->Some_0, receiver, path);
            let piece = Segment { start: path[0], end: path[cut] };
            &&& 0 <= cut < path.len()
            &&& later == path.subrange(cut + 1, path.len() as int)
            &&& removal_fault(nw, provider->Some_0, piece) is Some || covers_something(
                displaced(nw, receiver, piece.start, piece.end),
            )
        }),
        done ==> !covers_something(later),
    ensures
        fit(nw, provider, receiver, receiver_is_dummy, path, moved) == fit(
            nw,
            provider,
            receiver,
            receiver_is_dummy,
            if done {
                Seq::empty()
            } else {
                later
            },
            moved,
        ),
{
    let none = Seq::<NodeIdx>::empty();
    assert(!covers_something(none));
    assert(fit(nw, provider, receiver, receiver_is_dummy, none, moved) == (provider, receiver, moved));
    if done {
        assert(fit(nw, provider, receiver, receiver_is_dummy, later, moved) == (
            provider,
            receiver,
            moved,
        ));
    }
    assert(fit(nw, provider, receiver, receiver_is_dummy, path, moved) == fit(
        nw,
        provider,
        receiver,
        receiver_is_dummy,
        later,
        moved,
    ));
}

/// Unfolding `fit` once where the piece moves.
pub proof fn lemma_fit_unfold_move(
    nw: &Network,
    p: Seq<NodeIdx>,
    receiver: Seq<NodeIdx>,
    receiver_is_dummy: bool,
    path: Seq<NodeIdx>,
    moved: Seq<NodeIdx>,
    later: Seq<NodeIdx>,
    done: bool,
)
    requires
        covers_something(path),
        ({
            let cut = fit_cut(nw, p, receiver, path);
            let piece = Segment { start: path[0], end: path[cut] };
            let (i, j) = segment_range(p, piece)->Some_0;
            &&& 0 <= cut < path.len()
            &&& later == path.subrange(cut + 1, path.len() as int)
            &&& removal_fault(nw, p, piece) is None
            &&& !covers_something(displaced(nw, receiver, piece.start, piece.end))
            &&& depot_structure_ok(
                with_path(nw, receiver, p.subrange(i, j + 1)),
                receiver_is_dummy,
            )
        }),
        done ==> !covers_something(later),
    ensures
        ({
            let cut = fit_cut(nw, p, receiver, path);
            let piece = Segment { start: path[0], end: path[cut] };
            let (i, j) = segment_range(p, piece)->Some_0;
            let taken = p.subrange(i, j + 1);
            let left = without_range(p, i, j);
            fit(nw, Some(p), receiver, receiver_is_dummy, path, moved) == fit(
                nw,
                if covers_something(left) {
                    Some(left)
                } else {
                    None
                },
                with_path(nw, receiver, taken),
                receiver_is_dummy,
                if done {
                    Seq::empty()
                } else {
                    later
                },
                moved + taken,
            )
        }),
{
    let none = Seq::<NodeIdx>::empty();
    assert(!covers_something(none));
    let cut = fit_cut(nw, p, receiver, path);
    let piece = Segment { start: path[0], end: path[cut] };
    let (i, j) = segment_range(p, piece)->Some_0;
    let taken = p.subrange(i, j + 1);
    let left = without_range(p, i, j);
    let next = if covers_something(left) {
        Some(left)
    } else {
        None
    };
    let grown = with_path(nw, receiver, taken);
    assert(fit(nw, next, grown, receiver_is_dummy, none, moved + taken) == (
        next,
        grown,
        moved + taken,
    ));
    if done {
        assert(fit(nw, next, grown, receiver_is_dummy, later, moved + taken) == (
            next,
            grown,
            moved + taken,
        ));
    }
    assert(fit(nw, Some(p), receiver, receiver_is_dummy, path, moved) == fit(
        nw,
        next,
        grown,
        receiver_is_dummy,
        later,
        moved + taken,
    ));
}

} // verus!
