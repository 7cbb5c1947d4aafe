//! Which nodes a tour holds after a path went into it or a segment was taken
//! out of it.

use vstd::prelude::*;
use crate::base_types::NodeIdx;
use crate::chain::{covers_something, is_chain, lemma_chain_concat, lemma_chain_depots_at_ends, lemma_chain_distinct, lemma_chain_in_time, lemma_chain_subrange};
use crate::network::Network;
use crate::time::time_rank;
use crate::segment::Segment;
use crate::tour::{depot_structure_ok, displaced, first_reached, insert_positions, is_dummy_tour, is_tour, is_vehicle_tour, last_reaching, lemma_first_reached, lemma_last_reaching, lemma_position_from, lemma_tour_structure, removal_fault, segment_range, with_path, without_depots, without_range, TourModel};

verus! {

/// A tour without a stretch holds the nodes of the tour that are not in the
/// stretch.
pub proof fn lemma_without_range_nodes(nw: &Network, s: Seq<NodeIdx>, i: int, j: int, n: NodeIdx)
    requires
        nw.wf(),
        is_chain(nw, s),
        0 <= i <= j < s.len(),
    ensures
        without_range(s, i, j).contains(n) <==> (s.contains(n) && !s.subrange(i, j + 1).contains(n)),
        s.subrange(i, j + 1).contains(n) ==> s.contains(n),
{
    let rest = without_range(s, i, j);
    let cut = s.subrange(i, j + 1);
    if rest.contains(n) {
        let w = choose|w: int| 0 <= w < rest.len() && rest[w] == n;
        let u = if w < i {
            w
        } else {
            w + (j + 1 - i)
        };
        assert(s[u] == n);
        if cut.contains(n) {
            let c = choose|c: int| 0 <= c < cut.len() && cut[c] == n;
            assert(s[i + c] == n);
            if u < i + c {
                lemma_chain_distinct(nw, s, u, i + c);
            } else {
                lemma_chain_distinct(nw, s, i + c, u);
            }
        }
    }
    if s.contains(n) && !cut.contains(n) {
        let u = choose|u: int| 0 <= u < s.len() && s[u] == n;
        if i <= u <= j {
            assert(cut[u - i] == n);
        }
        if u < i {
            assert(rest[u] == n);
        } else {
            assert(rest[u - (j + 1 - i)] == n);
        }
    }
    if cut.contains(n) {
        let c = choose|c: int| 0 <= c < cut.len() && cut[c] == n;
        assert(s[i + c] == n);
    }
}

/// A tour into which a path went holds the nodes of the path and the nodes
/// of the tour that did not give way.
pub proof fn lemma_with_path_nodes(nw: &Network, s: Seq<NodeIdx>, p: Seq<NodeIdx>, n: NodeIdx)
    requires
        nw.wf(),
        is_chain(nw, s),
        p.len() > 0,
    ensures
        with_path(nw, s, p).contains(n) <==> (p.contains(n) || (s.contains(n) && !displaced(
            nw,
            s,
            p[0],
            p.last(),
        ).contains(n))),
        displaced(nw, s, p[0], p.last()).contains(n) ==> s.contains(n),
{
    let (keep, back) = insert_positions(nw, s, p[0], p.last());
    lemma_last_reaching(nw, s, p[0], s.len() as int);
    lemma_first_reached(nw, s, p.last(), keep);
    let t = with_path(nw, s, p);
    let gone = displaced(nw, s, p[0], p.last());
    let front = s.subrange(0, keep);
    let tail = s.subrange(back, s.len() as int);
    if t.contains(n) {
        let w = choose|w: int| 0 <= w < t.len() && t[w] == n;
        if w < keep {
            assert(s[w] == n);
            if gone.contains(n) {
                let c = choose|c: int| 0 <= c < gone.len() && gone[c] == n;
                assert(s[keep + c] == n);
                lemma_chain_distinct(nw, s, w, keep + c);
            }
        } else if w < keep + p.len() {
            assert(p[w - keep] == n);
        } else {
            let u = w - keep - p.len() + back;
            assert(s[u] == n);
            if gone.contains(n) {
                let c = choose|c: int| 0 <= c < gone.len() && gone[c] == n;
                assert(s[keep + c] == n);
                lemma_chain_distinct(nw, s, keep + c, u);
            }
        }
    }
    if p.contains(n) {
        let w = choose|w: int| 0 <= w < p.len() && p[w] == n;
        assert(t[keep + w] == n);
    }
    if s.contains(n) && !gone.contains(n) {
        let u = choose|u: int| 0 <= u < s.len() && s[u] == n;
        if keep <= u < back {
            assert(gone[u - keep] == n);
        }
        if u < keep {
            assert(t[u] == n);
        } else {
            assert(t[keep + p.len() + (u - back)] == n);
        }
    }
    if gone.contains(n) {
        let c = choose|c: int| 0 <= c < gone.len() && gone[c] == n;
        assert(s[keep + c] == n);
    }
}

/// A node that a tour and a path share gives way when the path goes into
/// the tour.
pub proof fn lemma_common_nodes_displaced(nw: &Network, s: Seq<NodeIdx>, p: Seq<NodeIdx>, n: NodeIdx)
    requires
        nw.wf(),
        is_chain(nw, s),
        is_chain(nw, p),
        s.contains(n),
        p.contains(n),
    ensures
        displaced(nw, s, p[0], p.last()).contains(n),
{
    let (keep, back) = insert_positions(nw, s, p[0], p.last());
    lemma_last_reaching(nw, s, p[0], s.len() as int);
    lemma_first_reached(nw, s, p.last(), keep);
    let q = choose|q: int| 0 <= q < s.len() && s[q] == n;
    let w = choose|w: int| 0 <= w < p.len() && p[w] == n;
    let l = keep - 1;
    nw.lemma_node_wf(n);
    nw.lemma_node_wf(p[0]);
    nw.lemma_node_wf(p.last());
    lemma_chain_depots_at_ends(nw, s, q);
    lemma_chain_depots_at_ends(nw, p, w);
    // the node does not stand among the nodes kept at the front
    if q <= l {
        nw.lemma_reach_in_time(s[l], p[0]);
        if q < l {
            lemma_chain_in_time(nw, s, q, l);
            nw.lemma_node_wf(s[l]);
        }
        if w > 0 {
            lemma_chain_in_time(nw, p, 0, w);
        }
        assert(time_rank(nw.spec_end_time(n)) <= time_rank(nw.spec_start_time(n)));
        assert(n.is_depot());
        if n is StartDepot {
            assert(w == 0);
            assert(false);
        } else {
            assert(q == s.len() - 1);
            assert(false);
        }
    }
    // nor among the nodes kept at the back
    if q >= back {
        nw.lemma_reach_in_time(p.last(), s[back]);
        if q > back {
            lemma_chain_in_time(nw, s, back, q);
            nw.lemma_node_wf(s[back]);
        }
        if w < p.len() - 1 {
            lemma_chain_in_time(nw, p, w, p.len() - 1);
        }
        assert(time_rank(nw.spec_end_time(n)) <= time_rank(nw.spec_start_time(n)));
        assert(n.is_depot());
        if n is EndDepot {
            assert(w == p.len() - 1);
            assert(false);
        } else {
            assert(q == 0);
            assert(false);
        }
    }
    assert(displaced(nw, s, p[0], p.last())[q - keep] == n);
}

/// Trips and slots go into the tour of a vehicle between its depots, and
/// into the tour of a dummy anywhere: what comes out has its depots where
/// they belong.
pub proof fn lemma_with_path_structure(nw: &Network, s: Seq<NodeIdx>, p: Seq<NodeIdx>, dummy: bool)
    requires
        nw.wf(),
        if dummy {
            is_dummy_tour(nw, s)
        } else {
            is_vehicle_tour(nw, s)
        },
        is_chain(nw, p),
        p.len() > 0,
        forall|i: int| 0 <= i < p.len() ==> !(#[trigger] p[i]).is_depot(),
    ensures
        depot_structure_ok(with_path(nw, s, p), dummy),
        !dummy ==> insert_positions(nw, s, p[0], p.last()).0 >= 1 && insert_positions(
            nw,
            s,
            p[0],
            p.last(),
        ).1 <= s.len() - 1,
{
    let (keep, back) = insert_positions(nw, s, p[0], p.last());
    lemma_last_reaching(nw, s, p[0], s.len() as int);
    lemma_first_reached(nw, s, p.last(), keep);
    let t = with_path(nw, s, p);
    if !dummy {
        nw.lemma_depots_connect(s[0], p[0]);
        nw.lemma_depots_connect(p.last(), s.last());
        assert(keep >= 1) by {
            if keep == 0 {
                assert(!nw.reaches(s[0], p[0]));
            }
        }
        assert(keep <= s.len() - 1) by {
            if keep == s.len() {
                assert(nw.reaches(s[s.len() - 1], p[0]));
            }
        }
        assert(back <= s.len() - 1) by {
            if back == s.len() {
                assert(!nw.reaches(p.last(), s[s.len() - 1]));
            }
        }
        assert(t[0] == s[0]);
        assert(t.last() == s.last());
        assert forall|i: int| 0 < i < t.len() - 1 implies !(#[trigger] t[i]).is_depot() by {
            if i < keep {
                assert(t[i] == s[i]);
                lemma_chain_depots_at_ends(nw, s, i);
            } else if i < keep + p.len() {
                assert(t[i] == p[i - keep]);
            } else {
                let u = i - keep - p.len() + back;
                assert(t[i] == s[u]);
                lemma_chain_depots_at_ends(nw, s, u);
            }
        }
    } else {
        assert forall|i: int| 0 <= i < t.len() implies !(#[trigger] t[i]).is_depot() by {
            if i < keep {
                assert(t[i] == s[i]);
            } else if i < keep + p.len() {
                assert(t[i] == p[i - keep]);
            } else {
                let u = i - keep - p.len() + back;
                assert(t[i] == s[u]);
            }
        }
    }
}

/// What a tour into which trips and slots went is: a tour of the same kind,
/// with the same start depot if it is the tour of a vehicle; and what gave
/// way are trips and slots.
pub proof fn lemma_grown_tour(nw: &Network, s: Seq<NodeIdx>, p: Seq<NodeIdx>, dummy: bool)
    requires
        nw.wf(),
        is_tour(nw, TourModel { nodes: s, dummy }),
        is_chain(nw, p),
        p.len() > 0,
        forall|i: int| 0 <= i < p.len() ==> !(#[trigger] p[i]).is_depot(),
    ensures
        is_tour(nw, TourModel { nodes: with_path(nw, s, p), dummy }),
        !dummy ==> with_path(nw, s, p)[0] == s[0],
        is_chain(nw, displaced(nw, s, p[0], p.last())),
        forall|i: int|
            0 <= i < displaced(nw, s, p[0], p.last()).len() ==> !(#[trigger] displaced(
                nw,
                s,
                p[0],
                p.last(),
            )[i]).is_depot(),
        without_depots(displaced(nw, s, p[0], p.last())) == displaced(nw, s, p[0], p.last()),
{
    let (keep, back) = insert_positions(nw, s, p[0], p.last());
    lemma_last_reaching(nw, s, p[0], s.len() as int);
    lemma_first_reached(nw, s, p.last(), keep);
    lemma_with_path_structure(nw, s, p, dummy);
    let t = with_path(nw, s, p);
    let front = s.subrange(0, keep);
    let tail = s.subrange(back, s.len() as int);
    let gone = displaced(nw, s, p[0], p.last());
    lemma_chain_subrange(nw, s, 0, keep);
    lemma_chain_subrange(nw, s, back, s.len() as int);
    lemma_chain_subrange(nw, s, keep, back);
    lemma_chain_concat(nw, front, p);
    assert((front + p).last() == p.last());
    lemma_chain_concat(nw, front + p, tail);
    lemma_tour_structure(nw, TourModel { nodes: s, dummy });
    assert forall|i: int| 0 <= i < gone.len() implies !(#[trigger] gone[i]).is_depot() by {
        assert(gone[i] == s[keep + i]);
    }
    if gone.len() > 0 {
        assert(!gone[0].is_depot());
        assert(!gone.last().is_depot());
        assert(without_depots(gone) =~= gone);
    } else {
        assert(without_depots(gone) =~= gone);
    }
    if !dummy {
        assert(t[0] == s[0]);
    }
}

/// What is left of a tour out of which a segment was taken, and what was
/// taken: trips and slots that make a chain were taken; and what is left is
/// a tour of the same kind with the same start depot, if it covers anything.
pub proof fn lemma_shrunk_tour(nw: &Network, s: Seq<NodeIdx>, segment: Segment, dummy: bool)
    requires
        nw.wf(),
        is_tour(nw, TourModel { nodes: s, dummy }),
        removal_fault(nw, s, segment) is None,
    ensures
        segment_range(s, segment) is Some,
        ({
            let (i, j) = segment_range(s, segment)->Some_0;
            let taken = s.subrange(i, j + 1);
            let rest = without_range(s, i, j);
            &&& 0 <= i <= j < s.len()
            &&& is_chain(nw, taken)
            &&& taken.len() > 0
            &&& forall|x: int| 0 <= x < taken.len() ==> !(#[trigger] taken[x]).is_depot()
            &&& covers_something(rest) ==> is_tour(nw, TourModel { nodes: rest, dummy })
            &&& covers_something(rest) && !dummy ==> rest[0] == s[0]
            &&& !covers_something(rest) ==> forall|n: NodeIdx|
                !n.is_depot() ==> !rest.contains(n)
        }),
{
    lemma_position_from(s, segment.start(), 0);
    lemma_position_from(s, segment.end(), 0);
    let (i, j) = segment_range(s, segment)->Some_0;
    let taken = s.subrange(i, j + 1);
    let rest = without_range(s, i, j);
    lemma_tour_structure(nw, TourModel { nodes: s, dummy });
    lemma_chain_subrange(nw, s, i, j + 1);
    lemma_chain_subrange(nw, s, 0, i);
    lemma_chain_subrange(nw, s, j + 1, s.len() as int);
    lemma_chain_concat(nw, s.subrange(0, i), s.subrange(j + 1, s.len() as int));
    assert forall|x: int| 0 <= x < taken.len() implies !(#[trigger] taken[x]).is_depot() by {
        assert(taken[x] == s[i + x]);
        lemma_chain_depots_at_ends(nw, s, i + x);
    }
    assert forall|x: int| 0 <= x < rest.len() implies #[trigger] rest[x] == s[if x < i {
        x
    } else {
        x + (j + 1 - i)
    }] by {}
    if covers_something(rest) {
        let w = choose|w: int| 0 <= w < rest.len() && !(#[trigger] rest[w]).is_depot();
        if !dummy {
            assert(i > 0);
            assert(j + 1 < s.len());
            assert(rest[0] == s[0]);
            assert(rest.last() == rest[rest.len() - 1]);
            assert(rest.len() >= 3) by {
                if rest.len() < 3 {
                    assert(rest[0].is_depot());
                    assert(rest[rest.len() - 1].is_depot());
                }
            }
        } else {
            assert forall|x: int| 0 <= x < rest.len() implies !(#[trigger] rest[x]).is_depot() by {
                let u = if x < i {
                    x
                } else {
                    x + (j + 1 - i)
                };
                assert(rest[x] == s[u]);
            }
        }
    } else {
        assert forall|n: NodeIdx| !n.is_depot() implies !rest.contains(n) by {
            if rest.contains(n) {
                let w = choose|w: int| 0 <= w < rest.len() && rest[w] == n;
                assert(!rest[w].is_depot());
            }
        }
    }
}

} // verus!
