//! The tour of one vehicle: the chain of nodes that it covers. The tour of a
//! real vehicle leads from a start depot over trips and slots to an end
//! depot; the tour of a dummy holds trips and slots only. A tour is never
//! changed: every operation gives a new one.

use vstd::prelude::*;
use crate::base_types::{MaintenanceCounter, NodeIdx, MAINT_COUNTER_FOR_INF_DIST};
use crate::chain::{chain_fault, check_chain, copy_range, covers_something, is_chain, join, lemma_chain_concat, lemma_chain_depots_at_ends, lemma_chain_distinct, lemma_chain_in_time, lemma_chain_subrange, lemma_late_nodes_do_not_reach, link_ok, TourError};
use crate::distance::{distance_sum, Distance};
use crate::network::Network;
use crate::path::{is_path, Path};
use crate::segment::Segment;
use crate::time::time_rank;

verus! {

pub struct Tour {
    nodes: Vec<NodeIdx>,
    dummy: bool,
}

/// What a tour is, to the contracts: its nodes in their order, and whether
/// it is the tour of a dummy.
pub struct TourModel {
    pub nodes: Seq<NodeIdx>,
    pub dummy: bool,
}

impl View for Tour {
    type V = TourModel;

    closed spec fn view(&self) -> TourModel {
        TourModel { nodes: self.nodes@, dummy: self.dummy }
    }
}

/// Whether `s` is the tour of a real vehicle: a chain from a start depot to
/// an end depot that covers something.
pub open spec fn is_vehicle_tour(nw: &Network, s: Seq<NodeIdx>) -> bool {
    &&& is_chain(nw, s)
    &&& s.len() >= 3
    &&& s[0] is StartDepot
    &&& s.last() is EndDepot
}

/// Whether `s` is the tour of a dummy: a chain without depots that covers
/// something.
pub open spec fn is_dummy_tour(nw: &Network, s: Seq<NodeIdx>) -> bool {
    &&& is_chain(nw, s)
    &&& s.len() >= 1
    &&& forall|i: int| 0 <= i < s.len() ==> !(#[trigger] s[i]).is_depot()
}

pub open spec fn is_tour(nw: &Network, m: TourModel) -> bool {
    if m.dummy {
        is_dummy_tour(nw, m.nodes)
    } else {
        is_vehicle_tour(nw, m.nodes)
    }
}

/// Whether the depots of `s` stand where a tour of that kind has them. For
/// a chain this is all that is missing to be a tour.
pub open spec fn depot_structure_ok(s: Seq<NodeIdx>, dummy: bool) -> bool {
    if dummy {
        s.len() >= 1 && forall|i: int| 0 <= i < s.len() ==> !(#[trigger] s[i]).is_depot()
    } else {
        &&& s.len() >= 3
        &&& s[0] is StartDepot
        &&& s.last() is EndDepot
        &&& forall|i: int| 0 < i < s.len() - 1 ==> !(#[trigger] s[i]).is_depot()
    }
}

/// The position of the last of the first `hi` nodes of `s` that reaches
/// `target`, or -1 if none of them does.
pub open spec fn last_reaching(nw: &Network, s: Seq<NodeIdx>, target: NodeIdx, hi: int) -> int
    decreases hi,
{
    if hi <= 0 {
        -1
    } else if nw.reaches(s[hi - 1], target) {
        hi - 1
    } else {
        last_reaching(nw, s, target, hi - 1)
    }
}

/// The position of the first node of `s` at or after `lo` that `from`
/// reaches, or the length of `s` if it reaches none of them.
pub open spec fn first_reached(nw: &Network, s: Seq<NodeIdx>, from: NodeIdx, lo: int) -> int
    decreases s.len() - lo,
{
    if lo >= s.len() {
        s.len() as int
    } else if lo >= 0 && nw.reaches(from, s[lo]) {
        lo
    } else {
        first_reached(nw, s, from, lo + 1)
    }
}

/// The position of the first node equal to `n` at or after `lo`, or the
/// length of `s`.
pub open spec fn position_from(s: Seq<NodeIdx>, n: NodeIdx, lo: int) -> int
    decreases s.len() - lo,
{
    if lo >= s.len() {
        s.len() as int
    } else if lo >= 0 && s[lo] == n {
        lo
    } else {
        position_from(s, n, lo + 1)
    }
}

/// Where a path from `first` to `last` goes into `s`: after the last node
/// that reaches `first`, and before the first node after that which `last`
/// reaches. The pair holds the number of nodes kept at the front and the
/// position from which the nodes at the back are kept.
pub open spec fn insert_positions(nw: &Network, s: Seq<NodeIdx>, first: NodeIdx, last: NodeIdx) -> (
    int,
    int,
) {
    let keep = last_reaching(nw, s, first, s.len() as int) + 1;
    (keep, first_reached(nw, s, last, keep))
}

/// The nodes of `s` after a path `p` went into it.
pub open spec fn with_path(nw: &Network, s: Seq<NodeIdx>, p: Seq<NodeIdx>) -> Seq<NodeIdx> {
    let (keep, back) = insert_positions(nw, s, p[0], p.last());
    s.subrange(0, keep) + p + s.subrange(back, s.len() as int)
}

/// The nodes of `s` that give way to a path from `first` to `last`.
pub open spec fn displaced(nw: &Network, s: Seq<NodeIdx>, first: NodeIdx, last: NodeIdx) -> Seq<
    NodeIdx,
> {
    let (keep, back) = insert_positions(nw, s, first, last);
    s.subrange(keep, back)
}

pub proof fn lemma_last_reaching(nw: &Network, s: Seq<NodeIdx>, target: NodeIdx, hi: int)
    requires
        0 <= hi <= s.len(),
    ensures
        -1 <= last_reaching(nw, s, target, hi) < hi,
        last_reaching(nw, s, target, hi) >= 0 ==> nw.reaches(
            s[last_reaching(nw, s, target, hi)],
            target,
        ),
        forall|j: int|
            last_reaching(nw, s, target, hi) < j < hi ==> !nw.reaches(#[trigger] s[j], target),
    decreases hi,
{
    if hi > 0 && !nw.reaches(s[hi - 1], target) {
        lemma_last_reaching(nw, s, target, hi - 1);
    }
}

/// The position that has the two properties is the one.
pub proof fn lemma_last_reaching_is(nw: &Network, s: Seq<NodeIdx>, target: NodeIdx, hi: int, r: int)
    requires
        0 <= hi <= s.len(),
        -1 <= r < hi,
        r >= 0 ==> nw.reaches(s[r], target),
        forall|j: int| r < j < hi ==> !nw.reaches(#[trigger] s[j], target),
    ensures
        last_reaching(nw, s, target, hi) == r,
    decreases hi,
{
    if hi > 0 && r < hi - 1 {
        assert(!nw.reaches(s[hi - 1], target));
        lemma_last_reaching_is(nw, s, target, hi - 1, r);
    }
}

pub proof fn lemma_first_reached(nw: &Network, s: Seq<NodeIdx>, from: NodeIdx, lo: int)
    requires
        0 <= lo <= s.len(),
    ensures
        lo <= first_reached(nw, s, from, lo) <= s.len(),
        first_reached(nw, s, from, lo) < s.len() ==> nw.reaches(
            from,
            s[first_reached(nw, s, from, lo)],
        ),
        forall|j: int|
            lo <= j < first_reached(nw, s, from, lo) ==> !nw.reaches(from, #[trigger] s[j]),
    decreases s.len() - lo,
{
    if lo < s.len() && !nw.reaches(from, s[lo]) {
        lemma_first_reached(nw, s, from, lo + 1);
    }
}

pub proof fn lemma_first_reached_is(nw: &Network, s: Seq<NodeIdx>, from: NodeIdx, lo: int, r: int)
    requires
        0 <= lo <= r <= s.len(),
        r < s.len() ==> nw.reaches(from, s[r]),
        forall|j: int| lo <= j < r ==> !nw.reaches(from, #[trigger] s[j]),
    ensures
        first_reached(nw, s, from, lo) == r,
    decreases s.len() - lo,
{
    if lo < r {
        assert(!nw.reaches(from, s[lo]));
        lemma_first_reached_is(nw, s, from, lo + 1, r);
    }
}

pub proof fn lemma_position_from(s: Seq<NodeIdx>, n: NodeIdx, lo: int)
    requires
        0 <= lo <= s.len(),
    ensures
        lo <= position_from(s, n, lo) <= s.len(),
        position_from(s, n, lo) < s.len() ==> s[position_from(s, n, lo)] == n,
        forall|j: int| lo <= j < position_from(s, n, lo) ==> #[trigger] s[j] != n,
    decreases s.len() - lo,
{
    if lo < s.len() && s[lo] != n {
        lemma_position_from(s, n, lo + 1);
    }
}

/// The position that `latest_not_reaching_node` gives for a target, as a
/// number: the position behind the last node that reaches the target, if
/// there is a node at that position.
pub open spec fn not_reaching_from(nw: &Network, s: Seq<NodeIdx>, target: NodeIdx) -> Option<int> {
    let p = last_reaching(nw, s, target, s.len() as int) + 1;
    if p < s.len() {
        Some(p)
    } else {
        None
    }
}

/// Whether along `s` a node that does not reach `target` is never followed
/// by one that does.
pub open spec fn reach_never_regained(nw: &Network, s: Seq<NodeIdx>, target: NodeIdx) -> bool {
    forall|i: int, j: int|
        #![trigger s[i], s[j]]
        0 <= i < j < s.len() && !nw.reaches(s[i], target) ==> !nw.reaches(s[j], target)
}

/// Where reaching the target is never regained along the tour, the position
/// found is the smallest whose node does not reach the target, and there is
/// none exactly if every node reaches it.
pub proof fn lemma_not_reaching_is_smallest(nw: &Network, s: Seq<NodeIdx>, target: NodeIdx)
    requires
        reach_never_regained(nw, s, target),
    ensures
        match not_reaching_from(nw, s, target) {
            Some(p) => 0 <= p < s.len() && !nw.reaches(s[p], target) && forall|j: int|
                0 <= j < p ==> nw.reaches(#[trigger] s[j], target),
            None => forall|j: int| 0 <= j < s.len() ==> nw.reaches(#[trigger] s[j], target),
        },
{
    lemma_last_reaching(nw, s, target, s.len() as int);
    let l = last_reaching(nw, s, target, s.len() as int);
    assert forall|j: int| 0 <= j <= l implies nw.reaches(#[trigger] s[j], target) by {
        if j < l && !nw.reaches(s[j], target) {
            assert(!nw.reaches(s[l], target));
        }
    }
}

/// Between the two depots of a vehicle's tour stand no depots.
pub proof fn lemma_tour_structure(nw: &Network, m: TourModel)
    requires
        is_tour(nw, m),
    ensures
        depot_structure_ok(m.nodes, m.dummy),
        covers_something(m.nodes),
{
    let s = m.nodes;
    if !m.dummy {
        assert forall|i: int| 0 < i < s.len() - 1 implies !(#[trigger] s[i]).is_depot() by {
            lemma_chain_depots_at_ends(nw, s, i);
        }
        assert(!s[1].is_depot());
    } else {
        assert(!s[0].is_depot());
    }
}

impl Clone for Tour {
    fn clone(&self) -> (r: Tour)
        ensures
            r@ == self@,
    {
        let v = copy_range(&self.nodes, 0, self.nodes.len());
        assert(self.nodes@.subrange(0, self.nodes@.len() as int) =~= self.nodes@);
        Tour { nodes: v, dummy: self.dummy }
    }
}

/// The first fault of `s` as the tour of a real vehicle, if it has one.
pub open spec fn vehicle_tour_fault(nw: &Network, s: Seq<NodeIdx>) -> Option<TourError> {
    if !crate::chain::all_known(nw, s) {
        chain_fault(nw, s)
    } else if !depot_structure_ok(s, false) {
        Some(TourError::BadDepotStructure)
    } else {
        chain_fault(nw, s)
    }
}

/// The first fault of `s` as the tour of a dummy, if it has one.
pub open spec fn dummy_tour_fault(nw: &Network, s: Seq<NodeIdx>) -> Option<TourError> {
    if !crate::chain::all_known(nw, s) {
        chain_fault(nw, s)
    } else if !depot_structure_ok(s, true) {
        Some(TourError::BadDepotStructure)
    } else {
        chain_fault(nw, s)
    }
}

/// Whether the depots of `nodes` stand where a tour of that kind has them.
pub fn check_depot_structure(nodes: &Vec<NodeIdx>, dummy: bool) -> (b: bool)
    ensures
        b == depot_structure_ok(nodes@, dummy),
{
    let n = nodes.len();
    if dummy {
        if n < 1 {
            return false;
        }
        let mut i: usize = 0;
        while i < n
            invariant
                dummy,
                i <= n == nodes@.len(),
                n >= 1,
                forall|j: int| 0 <= j < i ==> !(#[trigger] nodes@[j]).is_depot(),
            decreases n - i,
        {
            if nodes[i].is_depot() {
                assert(nodes@[i as int].is_depot());
                return false;
            }
            i += 1;
        }
        true
    } else {
        if n < 3 {
            return false;
        }
        match (nodes[0], nodes[n - 1]) {
            (NodeIdx::StartDepot(_), NodeIdx::EndDepot(_)) => {},
            _ => {
                return false;
            },
        }
        let mut i: usize = 1;
        while i < n - 1
            invariant
                !dummy,
                1 <= i <= n - 1,
                n == nodes@.len(),
                n >= 3,
                nodes@[0] is StartDepot,
                nodes@.last() is EndDepot,
                forall|j: int| 0 < j < i ==> !(#[trigger] nodes@[j]).is_depot(),
            decreases n - i,
        {
            if nodes[i].is_depot() {
                assert(nodes@[i as int].is_depot());
                return false;
            }
            i += 1;
        }
        true
    }
}

impl Tour {
    pub open spec fn wf(&self, nw: &Network) -> bool {
        is_tour(nw, self@)
    }

    /// The tour of a real vehicle over `nodes`.
    pub fn new(nodes: Vec<NodeIdx>, nw: &Network) -> (r: Result<Tour, TourError>)
        requires
            nw.wf(),
        ensures
            match r {
                Ok(t) => t@ == (TourModel { nodes: nodes@, dummy: false }) && t.wf(nw)
                    && vehicle_tour_fault(nw, nodes@) is None,
                Err(e) => vehicle_tour_fault(nw, nodes@) == Some(e),
            },
    {
        let fault = check_chain(&nodes, nw);
        match fault {
            Some(TourError::UnknownNode(n)) => Err(TourError::UnknownNode(n)),
            _ => {
                if !check_depot_structure(&nodes, false) {
                    Err(TourError::BadDepotStructure)
                } else {
                    match fault {
                        Some(e) => Err(e),
                        None => Ok(Tour { nodes, dummy: false }),
                    }
                }
            },
        }
    }

    /// The tour of a dummy over `nodes`.
    pub fn new_dummy(nodes: Vec<NodeIdx>, nw: &Network) -> (r: Result<Tour, TourError>)
        requires
            nw.wf(),
        ensures
            match r {
                Ok(t) => t@ == (TourModel { nodes: nodes@, dummy: true }) && t.wf(nw)
                    && dummy_tour_fault(nw, nodes@) is None,
                Err(e) => dummy_tour_fault(nw, nodes@) == Some(e),
            },
    {
        let fault = check_chain(&nodes, nw);
        match fault {
            Some(TourError::UnknownNode(n)) => Err(TourError::UnknownNode(n)),
            _ => {
                if !check_depot_structure(&nodes, true) {
                    Err(TourError::BadDepotStructure)
                } else {
                    match fault {
                        Some(e) => Err(e),
                        None => Ok(Tour { nodes, dummy: true }),
                    }
                }
            },
        }
    }

    /// The tour of a dummy over the nodes of a path that are no depots.
    pub fn new_dummy_by_path(path: Path, nw: &Network) -> (t: Tour)
        requires
            nw.wf(),
            path.wf(nw),
        ensures
            t@ == (TourModel { nodes: without_depots(path@), dummy: true }),
            t.wf(nw),
    {
        let v = path.consume();
        let ghost s = v@;
        let n = v.len();
        let mut from: usize = 0;
        let mut to: usize = n;
        proof {
            let w = choose|w: int| 0 <= w < s.len() && !(#[trigger] s[w]).is_depot();
            lemma_chain_depots_at_ends(nw, s, 0);
            lemma_chain_depots_at_ends(nw, s, s.len() - 1);
            assert forall|i: int| 0 < i < s.len() - 1 implies !(#[trigger] s[i]).is_depot() by {
                lemma_chain_depots_at_ends(nw, s, i);
            }
        }
        if v[0].is_depot() {
            from = 1;
        }
        if v[n - 1].is_depot() {
            to = n - 1;
        }
        proof {
            lemma_chain_subrange(nw, s, from as int, to as int);
        }
        let nodes = copy_range(&v, from, to);
        Tour { nodes, dummy: true }
    }

    /// Whether the tour is a tour of the network.
    pub fn is_valid(&self, nw: &Network) -> (b: bool)
        requires
            nw.wf(),
        ensures
            b == self.wf(nw),
    {
        let chain = check_chain(&self.nodes, nw).is_none();
        let structure = check_depot_structure(&self.nodes, self.dummy);
        proof {
            if self.wf(nw) {
                lemma_tour_structure(nw, self@);
            }
            if chain && structure {
                if !self.dummy {
                    assert(self.nodes@.last() == self.nodes@[self.nodes@.len() - 1]);
                }
            }
        }
        chain && structure
    }

    #[verifier::when_used_as_spec(spec_is_dummy)]
    pub fn is_dummy(&self) -> (b: bool)
        ensures
            b == self@.dummy,
    {
        self.dummy
    }

    pub open spec fn spec_is_dummy(&self) -> bool {
        self@.dummy
    }

    /// The number of nodes.
    pub fn len(&self) -> (n: usize)
        ensures
            n == self@.nodes.len(),
    {
        self.nodes.len()
    }

    /// The nodes of the tour in their order.
    pub fn all_nodes_iter(&self) -> (r: &Vec<NodeIdx>)
        ensures
            r@ == self@.nodes,
    {
        &self.nodes
    }

    pub fn nth_node(&self, pos: usize) -> (r: Option<NodeIdx>)
        ensures
            r == if pos < self@.nodes.len() {
                Some(self@.nodes[pos as int])
            } else {
                None
            },
    {
        if pos < self.nodes.len() {
            Some(self.nodes[pos])
        } else {
            None
        }
    }

    pub fn first_node(&self) -> (n: NodeIdx)
        requires
            self@.nodes.len() > 0,
        ensures
            n == self@.nodes[0],
    {
        self.nodes[0]
    }

    pub fn last_node(&self) -> (n: NodeIdx)
        requires
            self@.nodes.len() > 0,
        ensures
            n == self@.nodes.last(),
    {
        self.nodes[self.nodes.len() - 1]
    }

    /// The start depot of a vehicle's tour; none for a dummy's.
    pub fn start_depot(&self) -> (r: Option<NodeIdx>)
        ensures
            r == if !self@.dummy && self@.nodes.len() > 0 {
                Some(self@.nodes[0])
            } else {
                None
            },
    {
        if !self.dummy && self.nodes.len() > 0 {
            Some(self.nodes[0])
        } else {
            None
        }
    }

    /// The end depot of a vehicle's tour; none for a dummy's.
    pub fn end_depot(&self) -> (r: Option<NodeIdx>)
        ensures
            r == if !self@.dummy && self@.nodes.len() > 0 {
                Some(self@.nodes.last())
            } else {
                None
            },
    {
        if !self.dummy && self.nodes.len() > 0 {
            Some(self.nodes[self.nodes.len() - 1])
        } else {
            None
        }
    }

    /// The first node that is no depot.
    pub fn first_non_depot(&self, nw: &Network) -> (r: Option<NodeIdx>)
        requires
            self.wf(nw),
        ensures
            r == Some(
                if self@.dummy {
                    self@.nodes[0]
                } else {
                    self@.nodes[1]
                },
            ),
            !r.unwrap().is_depot(),
            nw.contains(r.unwrap()),
    {
        proof {
            lemma_tour_structure(nw, self@);
        }
        if self.dummy {
            Some(self.nodes[0])
        } else {
            Some(self.nodes[1])
        }
    }

    /// The last node that is no depot.
    pub fn last_non_depot(&self, nw: &Network) -> (r: Option<NodeIdx>)
        requires
            self.wf(nw),
        ensures
            r == Some(
                if self@.dummy {
                    self@.nodes.last()
                } else {
                    self@.nodes[self@.nodes.len() - 2]
                },
            ),
            !r.unwrap().is_depot(),
            nw.contains(r.unwrap()),
    {
        proof {
            lemma_tour_structure(nw, self@);
        }
        if self.dummy {
            Some(self.nodes[self.nodes.len() - 1])
        } else {
            Some(self.nodes[self.nodes.len() - 2])
        }
    }

    /// The position of a node in the tour.
    pub fn position_of(&self, node: NodeIdx) -> (r: Option<usize>)
        ensures
            r == if position_from(self@.nodes, node, 0) < self@.nodes.len() {
                Some(position_from(self@.nodes, node, 0) as usize)
            } else {
                None
            },
    {
        let mut i: usize = 0;
        while i < self.nodes.len()
            invariant
                i <= self.nodes.len(),
                position_from(self@.nodes, node, 0) == position_from(self@.nodes, node, i as int),
            decreases self.nodes.len() - i,
        {
            if self.nodes[i] == node {
                return Some(i);
            }
            i += 1;
        }
        None
    }

    /// The position of the last node that reaches `target`.
    pub fn latest_node_reaching(&self, target: NodeIdx, nw: &Network) -> (r: Option<usize>)
        requires
            nw.wf(),
            is_chain(nw, self@.nodes),
            nw.contains(target),
        ensures
            r == if last_reaching(nw, self@.nodes, target, self@.nodes.len() as int) >= 0 {
                Some(last_reaching(nw, self@.nodes, target, self@.nodes.len() as int) as usize)
            } else {
                None
            },
    {
        let ghost s = self@.nodes;
        let n = self.nodes.len();
        let hi = self.latest_arrival_before(target, nw);
        let mut p: usize = hi;
        while p > 0 && !nw.can_reach(self.nodes[p - 1], target)
            invariant
                p <= n == s.len(),
                s == self@.nodes,
                nw.wf(),
                nw.contains(target),
                is_chain(nw, s),
                forall|j: int| p <= j < n ==> !nw.reaches(#[trigger] s[j], target),
            decreases p,
        {
            p -= 1;
        }
        proof {
            lemma_last_reaching_is(nw, s, target, n as int, p - 1);
        }
        if p == 0 {
            None
        } else {
            Some(p - 1)
        }
    }

    /// The number of nodes at the front of the tour that end no later than
    /// `target` starts. No node behind them reaches `target`.
    pub fn latest_arrival_before(&self, target: NodeIdx, nw: &Network) -> (hi: usize)
        requires
            nw.wf(),
            is_chain(nw, self@.nodes),
            nw.contains(target),
        ensures
            hi <= self@.nodes.len(),
            forall|j: int|
                0 <= j < hi ==> time_rank(nw.spec_end_time(#[trigger] self@.nodes[j]))
                    <= time_rank(nw.spec_start_time(target)),
            forall|j: int|
                hi <= j < self@.nodes.len() ==> time_rank(
                    nw.spec_end_time(#[trigger] self@.nodes[j]),
                ) > time_rank(nw.spec_start_time(target)),
            forall|j: int|
                hi <= j < self@.nodes.len() ==> !nw.reaches(#[trigger] self@.nodes[j], target),
    {
        let ghost s = self@.nodes;
        let t = nw.start_time(target);
        let mut lo: usize = 0;
        let mut hi: usize = self.nodes.len();
        while lo < hi
            invariant
                lo <= hi <= s.len(),
                s == self@.nodes,
                nw.wf(),
                is_chain(nw, s),
                t == nw.spec_start_time(target),
                forall|j: int|
                    0 <= j < lo ==> time_rank(nw.spec_end_time(#[trigger] s[j])) <= time_rank(t),
                forall|j: int|
                    hi <= j < s.len() ==> time_rank(nw.spec_end_time(#[trigger] s[j]))
                        > time_rank(t),
            decreases hi - lo,
        {
            let mid = lo + (hi - lo) / 2;
            if nw.end_time(self.nodes[mid]).le(t) {
                proof {
                    assert forall|j: int| 0 <= j < mid + 1 implies time_rank(
                        nw.spec_end_time(#[trigger] s[j]),
                    ) <= time_rank(t) by {
                        if j < mid {
                            lemma_chain_in_time(nw, s, j, mid as int);
                            nw.lemma_node_wf(s[mid as int]);
                        }
                    }
                }
                lo = mid + 1;
            } else {
                proof {
                    assert forall|j: int| mid <= j < s.len() implies time_rank(
                        nw.spec_end_time(#[trigger] s[j]),
                    ) > time_rank(t) by {
                        if mid < j {
                            lemma_chain_in_time(nw, s, mid as int, j);
                            nw.lemma_node_wf(s[j]);
                        }
                    }
                }
                hi = mid;
            }
        }
        proof {
            assert forall|j: int| hi <= j < s.len() implies !nw.reaches(#[trigger] s[j], target) by {
                lemma_late_nodes_do_not_reach(nw, s, j, j, target);
            }
        }
        hi
    }

    /// The position of the first node behind which no node reaches
    /// `target`; none if the last node reaches it. Where a node that does
    /// not reach the target is never followed by one that does, as it is
    /// where empty runs obey the triangle inequality, this is the smallest
    /// position whose node does not reach the target, and there is none
    /// exactly if every node reaches it. Otherwise nodes before the position
    /// may fail to reach the target too; the position is then the one behind
    /// the last node that reaches it.
    pub fn latest_not_reaching_node(&self, target: NodeIdx, nw: &Network) -> (r: Option<usize>)
        requires
            nw.wf(),
            is_chain(nw, self@.nodes),
            nw.contains(target),
        ensures
            match r {
                Some(p) => not_reaching_from(nw, self@.nodes, target) == Some(p as int),
                None => not_reaching_from(nw, self@.nodes, target) is None,
            },
            reach_never_regained(nw, self@.nodes, target) ==> match r {
                Some(p) => p < self@.nodes.len() && !nw.reaches(self@.nodes[p as int], target)
                    && forall|j: int| 0 <= j < p ==> nw.reaches(#[trigger] self@.nodes[j], target),
                None => forall|j: int|
                    0 <= j < self@.nodes.len() ==> nw.reaches(#[trigger] self@.nodes[j], target),
            },
    {
        proof {
            lemma_last_reaching(nw, self@.nodes, target, self@.nodes.len() as int);
            if reach_never_regained(nw, self@.nodes, target) {
                lemma_not_reaching_is_smallest(nw, self@.nodes, target);
            }
        }
        let found = self.latest_node_reaching(target, nw);
        let n = self.nodes.len();
        let p = match found {
            Some(l) => {
                assert(l < n);
                l + 1
            },
            None => 0,
        };
        if p < n {
            Some(p)
        } else {
            None
        }
    }

    /// The number of nodes at the front of the tour that start before `from`
    /// ends. `from` reaches none of them.
    pub fn earliest_departure_after(&self, from: NodeIdx, nw: &Network) -> (lo: usize)
        requires
            nw.wf(),
            is_chain(nw, self@.nodes),
            nw.contains(from),
        ensures
            lo <= self@.nodes.len(),
            forall|j: int|
                0 <= j < lo ==> time_rank(nw.spec_start_time(#[trigger] self@.nodes[j]))
                    < time_rank(nw.spec_end_time(from)),
            forall|j: int|
                lo <= j < self@.nodes.len() ==> time_rank(
                    nw.spec_start_time(#[trigger] self@.nodes[j]),
                ) >= time_rank(nw.spec_end_time(from)),
            forall|j: int| 0 <= j < lo ==> !nw.reaches(from, #[trigger] self@.nodes[j]),
    {
        let ghost s = self@.nodes;
        let t = nw.end_time(from);
        let mut lo: usize = 0;
        let mut hi: usize = self.nodes.len();
        while lo < hi
            invariant
                lo <= hi <= s.len(),
                s == self@.nodes,
                nw.wf(),
                is_chain(nw, s),
                t == nw.spec_end_time(from),
                forall|j: int|
                    0 <= j < lo ==> time_rank(nw.spec_start_time(#[trigger] s[j])) < time_rank(t),
                forall|j: int|
                    hi <= j < s.len() ==> time_rank(nw.spec_start_time(#[trigger] s[j]))
                        >= time_rank(t),
            decreases hi - lo,
        {
            let mid = lo + (hi - lo) / 2;
            if t.le(nw.start_time(self.nodes[mid])) {
                proof {
                    assert forall|j: int| mid <= j < s.len() implies time_rank(
                        nw.spec_start_time(#[trigger] s[j]),
                    ) >= time_rank(t) by {
                        if mid < j {
                            lemma_chain_in_time(nw, s, mid as int, j);
                            nw.lemma_node_wf(s[mid as int]);
                        }
                    }
                }
                hi = mid;
            } else {
                proof {
                    assert forall|j: int| 0 <= j < mid + 1 implies time_rank(
                        nw.spec_start_time(#[trigger] s[j]),
                    ) < time_rank(t) by {
                        if j < mid {
                            lemma_chain_in_time(nw, s, j, mid as int);
                            nw.lemma_node_wf(s[j]);
                        }
                    }
                }
                lo = mid + 1;
            }
        }
        proof {
            assert forall|j: int| 0 <= j < lo implies !nw.reaches(from, #[trigger] s[j]) by {
                if nw.reaches(from, s[j]) {
                    nw.lemma_reach_in_time(from, s[j]);
                }
            }
        }
        lo
    }

    /// The position of the first node at or after `lo` that `from` reaches,
    /// or the number of nodes if it reaches none of them.
    pub fn earliest_node_reached_by(&self, from: NodeIdx, lo: usize, nw: &Network) -> (r: usize)
        requires
            nw.wf(),
            is_chain(nw, self@.nodes),
            nw.contains(from),
            lo <= self@.nodes.len(),
        ensures
            r == first_reached(nw, self@.nodes, from, lo as int),
            lo <= r <= self@.nodes.len(),
    {
        let ghost s = self@.nodes;
        let n = self.nodes.len();
        let early = self.earliest_departure_after(from, nw);
        let mut p: usize = if early > lo {
            early
        } else {
            lo
        };
        while p < n && !nw.can_reach(from, self.nodes[p])
            invariant
                lo <= p <= n == s.len(),
                s == self@.nodes,
                nw.wf(),
                nw.contains(from),
                is_chain(nw, s),
                forall|j: int| lo <= j < p ==> !nw.reaches(from, #[trigger] s[j]),
            decreases n - p,
        {
            p += 1;
        }
        proof {
            lemma_first_reached_is(nw, s, from, lo as int, p as int);
        }
        p
    }
}

/// The positions of the first and the last node of a segment in `s`, if it
/// is a stretch of `s`.
pub open spec fn segment_range(s: Seq<NodeIdx>, segment: Segment) -> Option<(int, int)> {
    let i = position_from(s, segment.start(), 0);
    let j = position_from(s, segment.end(), 0);
    if i <= j < s.len() {
        Some((i, j))
    } else {
        None
    }
}

/// Why a segment cannot be taken out of a tour, if it cannot: it is no
/// stretch of the tour, it holds a depot, or the node before it does not
/// reach the node after it.
pub open spec fn removal_fault(nw: &Network, s: Seq<NodeIdx>, segment: Segment) -> Option<
    TourError,
> {
    match segment_range(s, segment) {
        None => Some(TourError::SegmentNotInTour),
        Some((i, j)) => if s[i].is_depot() || s[j].is_depot() {
            Some(TourError::BadDepotStructure)
        } else if i > 0 && j + 1 < s.len() && !nw.reaches(s[i - 1], s[j + 1]) {
            Some(TourError::NotReachable(s[i - 1], s[j + 1]))
        } else {
            None
        },
    }
}

/// The nodes of `s` without the stretch from `i` to `j`.
pub open spec fn without_range(s: Seq<NodeIdx>, i: int, j: int) -> Seq<NodeIdx> {
    s.subrange(0, i) + s.subrange(j + 1, s.len() as int)
}

/// The sum of the distances of the trips of `s`.
pub open spec fn service_distance(nw: &Network, s: Seq<NodeIdx>) -> Distance
    decreases s.len(),
{
    if s.len() == 0 {
        Distance::Distance(0)
    } else {
        distance_sum(service_distance(nw, s.drop_last()), nw.spec_travel_distance(s.last()))
    }
}

/// The sum of the distances that a vehicle runs empty between the nodes of
/// `s`.
pub open spec fn dead_head_distance_of(nw: &Network, s: Seq<NodeIdx>) -> Distance
    decreases s.len(),
{
    if s.len() <= 1 {
        Distance::Distance(0)
    } else {
        distance_sum(
            dead_head_distance_of(nw, s.drop_last()),
            nw.spec_dead_head_distance(s[s.len() - 2], s.last()),
        )
    }
}

/// The metres of a distance, where the infinite distance counts as much as
/// the maintenance counter takes for it.
pub open spec fn counted_metres(d: Distance) -> int {
    match d {
        Distance::Distance(m) => m as int,
        Distance::Infinity => MAINT_COUNTER_FOR_INF_DIST as int,
    }
}

/// What the first `n` nodes of `s` add up to on the maintenance counter:
/// the metres of the trips and of the empty runs between the nodes, less the
/// metres that the maintenance slots allow.
pub open spec fn counter_sum(nw: &Network, s: Seq<NodeIdx>, n: int) -> int
    decreases n,
{
    if n <= 0 {
        0
    } else {
        counter_sum(nw, s, n - 1) + counted_metres(nw.spec_travel_distance(s[n - 1])) + (if n >= 2 {
            counted_metres(nw.spec_dead_head_distance(s[n - 2], s[n - 1]))
        } else {
            0
        }) - nw.spec_distance_budget(s[n - 1])
    }
}

/// An integer cut off at the smallest and the largest counter.
pub open spec fn clamp_counter(x: int) -> MaintenanceCounter {
    if x > MaintenanceCounter::MAX {
        MaintenanceCounter::MAX
    } else if x < MaintenanceCounter::MIN {
        MaintenanceCounter::MIN
    } else {
        x as MaintenanceCounter
    }
}

impl Tour {
    /// How far the vehicle is past maintenance at the end of its tour: the
    /// metres it runs, less the metres that the maintenance slots of the
    /// tour allow. A counter above zero is a violation.
    pub fn maintenance_counter(&self, nw: &Network) -> (c: MaintenanceCounter)
        requires
            nw.wf(),
            is_chain(nw, self@.nodes),
        ensures
            c == clamp_counter(counter_sum(nw, self@.nodes, self@.nodes.len() as int)),
    {
        let ghost s = self@.nodes;
        let n = self.nodes.len();
        let mut total: i128 = 0;
        let mut i: usize = 0;
        proof {
            crate::chain::lemma_chain_short(nw, s);
        }
        while i < n
            invariant
                i <= n == s.len(),
                n <= 0x40000,
                s == self@.nodes,
                nw.wf(),
                is_chain(nw, s),
                total == counter_sum(nw, s, i as int),
                -(i * 0x1_0000_0000_0000_0000) <= total <= i * 0x2_0000_0000_0000_0000,
            decreases n - i,
        {
            assert(nw.contains(s[i as int]));
            let node = self.nodes[i];
            let ride: i128 = match nw.travel_distance(node) {
                Distance::Distance(m) => m as i128,
                Distance::Infinity => MAINT_COUNTER_FOR_INF_DIST as i128,
            };
            let leg: i128 = if i >= 1 {
                assert(nw.contains(s[i - 1]));
                match nw.dead_head_distance_between(self.nodes[i - 1], node) {
                    Distance::Distance(m) => m as i128,
                    Distance::Infinity => MAINT_COUNTER_FOR_INF_DIST as i128,
                }
            } else {
                0
            };
            let budget: i128 = nw.distance_budget(node) as i128;
            assert(i * 0x2_0000_0000_0000_0000 <= 0x40000 * 0x2_0000_0000_0000_0000 && i
                * 0x1_0000_0000_0000_0000 <= 0x40000 * 0x1_0000_0000_0000_0000) by (nonlinear_arith)
                requires
                    0 <= i <= 0x40000,
            ;
            total = total + ride + leg - budget;
            i += 1;
        }
        if total > MaintenanceCounter::MAX as i128 {
            MaintenanceCounter::MAX
        } else if total < MaintenanceCounter::MIN as i128 {
            MaintenanceCounter::MIN
        } else {
            total as MaintenanceCounter
        }
    }

    /// The positions of the two ends of a segment, if it is a stretch of
    /// the tour.
    pub fn range_of(&self, segment: Segment) -> (r: Option<(usize, usize)>)
        ensures
            match r {
                Some((i, j)) => segment_range(self@.nodes, segment) == Some((i as int, j as int))
                    && i <= j < self@.nodes.len(),
                None => segment_range(self@.nodes, segment) is None,
            },
    {
        let n = self.nodes.len();
        proof {
            lemma_position_from(self@.nodes, segment.start(), 0);
            lemma_position_from(self@.nodes, segment.end(), 0);
        }
        match (self.position_of(segment.start()), self.position_of(segment.end())) {
            (Some(i), Some(j)) => if i <= j {
                Some((i, j))
            } else {
                None
            },
            _ => None,
        }
    }

    /// The stretch of the tour that a segment names, as a path.
    pub fn sub_path(&self, segment: Segment, nw: &Network) -> (r: Result<Path, TourError>)
        requires
            self.wf(nw),
        ensures
            match r {
                Ok(p) => {
                    &&& segment_range(self@.nodes, segment) matches Some((i, j))
                    &&& p@ == self@.nodes.subrange(i, j + 1)
                    &&& p.wf(nw)
                },
                Err(e) => match segment_range(self@.nodes, segment) {
                    None => e == TourError::SegmentNotInTour,
                    Some((i, j)) => e == TourError::BadDepotStructure && !covers_something(
                        self@.nodes.subrange(i, j + 1),
                    ),
                },
            },
    {
        let n = self.nodes.len();
        match self.range_of(segment) {
            None => Err(TourError::SegmentNotInTour),
            Some((i, j)) => {
                proof {
                    lemma_chain_subrange(nw, self@.nodes, i as int, j + 1);
                }
                match Path::new_trusted(copy_range(&self.nodes, i, j + 1), nw) {
                    Some(p) => Ok(p),
                    None => Err(TourError::BadDepotStructure),
                }
            },
        }
    }

    /// Whether a segment can be taken out of the tour.
    pub fn check_removable(&self, segment: Segment, nw: &Network) -> (r: Result<(), TourError>)
        requires
            nw.wf(),
            self.wf(nw),
        ensures
            match r {
                Ok(_) => removal_fault(nw, self@.nodes, segment) is None,
                Err(e) => removal_fault(nw, self@.nodes, segment) == Some(e),
            },
    {
        let n = self.nodes.len();
        match self.range_of(segment) {
            None => Err(TourError::SegmentNotInTour),
            Some((i, j)) => {
                if self.nodes[i].is_depot() || self.nodes[j].is_depot() {
                    Err(TourError::BadDepotStructure)
                } else if i > 0 && j + 1 < self.nodes.len() && !nw.can_reach(
                    self.nodes[i - 1],
                    self.nodes[j + 1],
                ) {
                    Err(TourError::NotReachable(self.nodes[i - 1], self.nodes[j + 1]))
                } else {
                    Ok(())
                }
            },
        }
    }

    /// Takes a segment out of the tour. Gives the tour that is left, or none
    /// if it covers nothing any more, and the stretch taken out as a path.
    pub fn remove(&self, segment: Segment, nw: &Network) -> (r: Result<(Option<Tour>, Path), TourError>)
        requires
            nw.wf(),
            self.wf(nw),
        ensures
            match r {
                Ok((rest, path)) => {
                    &&& removal_fault(nw, self@.nodes, segment) is None
                    &&& segment_range(self@.nodes, segment) matches Some((i, j))
                    &&& path@ == self@.nodes.subrange(i, j + 1)
                    &&& path.wf(nw)
                    &&& rest.is_some() == covers_something(without_range(self@.nodes, i, j))
                    &&& rest matches Some(t) ==> t@ == (TourModel {
                        nodes: without_range(self@.nodes, i, j),
                        dummy: self@.dummy,
                    }) && t.wf(nw)
                },
                Err(e) => removal_fault(nw, self@.nodes, segment) == Some(e),
            },
    {
        match self.check_removable(segment, nw) {
            Err(e) => Err(e),
            Ok(_) => {
                let n = self.nodes.len();
                let (i, j) = self.range_of(segment).unwrap();
                let ghost s = self@.nodes;
                let front = copy_range(&self.nodes, 0, i);
                let back = copy_range(&self.nodes, j + 1, self.nodes.len());
                let taken = copy_range(&self.nodes, i, j + 1);
                let rest = join(&front, &back);
                proof {
                    lemma_tour_structure(nw, self@);
                    lemma_chain_subrange(nw, s, 0, i as int);
                    lemma_chain_subrange(nw, s, j + 1, s.len() as int);
                    lemma_chain_subrange(nw, s, i as int, j + 1);
                    lemma_chain_concat(nw, front@, back@);
                    assert(!taken@[0].is_depot());
                    assert(rest@ == without_range(s, i as int, j as int));
                }
                let path = Path::new_trusted(taken, nw).unwrap();
                let enough = if self.dummy {
                    rest.len() >= 1
                } else {
                    rest.len() >= 3
                };
                proof {
                    let r = rest@;
                    if !self@.dummy {
                        assert(i > 0);
                        assert(j + 1 < s.len());
                        assert(r[0] == s[0]);
                        assert(r.last() == s.last());
                        assert forall|k: int| 0 < k < r.len() - 1 implies !(#[trigger] r[k]).is_depot() by {
                            if k < i {
                                assert(r[k] == s[k]);
                            } else {
                                assert(r[k] == s[k + (j + 1 - i)]);
                            }
                        }
                        if enough {
                            assert(!r[1].is_depot());
                        } else {
                            assert(r.len() == 2);
                            assert(forall|k: int| 0 <= k < r.len() ==> (#[trigger] r[k]).is_depot());
                        }
                    } else {
                        assert forall|k: int| 0 <= k < r.len() implies !(#[trigger] r[k]).is_depot() by {
                            if k < i {
                                assert(r[k] == s[k]);
                            } else {
                                assert(r[k] == s[k + (j + 1 - i)]);
                            }
                        }
                        if enough {
                            assert(!r[0].is_depot());
                        }
                    }
                }
                if enough {
                    Ok((Some(Tour { nodes: rest, dummy: self.dummy }), path))
                } else {
                    Ok((None, path))
                }
            },
        }
    }

    /// The nodes that would give way if the stretch that `segment` names in
    /// another tour were put into this one; none if no trip or slot would.
    pub fn conflict(&self, segment: Segment, nw: &Network) -> (r: Option<Path>)
        requires
            nw.wf(),
            is_chain(nw, self@.nodes),
            nw.contains(segment.start()),
            nw.contains(segment.end()),
        ensures
            r.is_some() == covers_something(
                displaced(nw, self@.nodes, segment.start(), segment.end()),
            ),
            r matches Some(p) ==> p@ == displaced(nw, self@.nodes, segment.start(), segment.end())
                && p.wf(nw),
    {
        let (keep, back) = self.positions_for(segment.start(), segment.end(), nw);
        proof {
            lemma_chain_subrange(nw, self@.nodes, keep as int, back as int);
        }
        Path::new_trusted(copy_range(&self.nodes, keep, back), nw)
    }

    /// Where a path from `first` to `last` goes into the tour.
    pub fn positions_for(&self, first: NodeIdx, last: NodeIdx, nw: &Network) -> (r: (usize, usize))
        requires
            nw.wf(),
            is_chain(nw, self@.nodes),
            nw.contains(first),
            nw.contains(last),
        ensures
            (r.0 as int, r.1 as int) == insert_positions(nw, self@.nodes, first, last),
            r.0 <= r.1 <= self@.nodes.len(),
    {
        proof {
            lemma_last_reaching(nw, self@.nodes, first, self@.nodes.len() as int);
        }
        let n = self.nodes.len();
        let found = self.latest_node_reaching(first, nw);
        let keep = match found {
            Some(l) => {
                assert(l < n);
                l + 1
            },
            None => 0,
        };
        let back = self.earliest_node_reached_by(last, keep, nw);
        (keep, back)
    }

    /// Puts a path into the tour, at its place in time. The nodes of the
    /// tour between the last node that reaches the path and the first that
    /// the path reaches give way and are handed back, as a path if a trip or
    /// slot is among them. Fails where what comes out is no tour.
    pub fn insert_path(&self, path: Path, nw: &Network) -> (r: Result<(Tour, Option<Path>), TourError>)
        requires
            nw.wf(),
            self.wf(nw),
            path.wf(nw),
        ensures
            match r {
                Ok((t, replaced)) => {
                    &&& depot_structure_ok(with_path(nw, self@.nodes, path@), self@.dummy)
                    &&& t@ == (TourModel {
                        nodes: with_path(nw, self@.nodes, path@),
                        dummy: self@.dummy,
                    })
                    &&& t.wf(nw)
                    &&& replaced.is_some() == covers_something(
                        displaced(nw, self@.nodes, path@[0], path@.last()),
                    )
                    &&& replaced matches Some(p) ==> p@ == displaced(
                        nw,
                        self@.nodes,
                        path@[0],
                        path@.last(),
                    ) && p.wf(nw)
                },
                Err(e) => e == TourError::BadDepotStructure && !depot_structure_ok(
                    with_path(nw, self@.nodes, path@),
                    self@.dummy,
                ),
            },
    {
        let ghost s = self@.nodes;
        let ghost p = path@;
        let first = path.first();
        let last = path.last();
        assert(nw.contains(p[0]));
        assert(nw.contains(p[p.len() - 1]));
        let (keep, back) = self.positions_for(first, last, nw);
        let front = copy_range(&self.nodes, 0, keep);
        let tail = copy_range(&self.nodes, back, self.nodes.len());
        let middle = copy_range(&self.nodes, keep, back);
        let head = join(&front, path.iter());
        let nodes = join(&head, &tail);
        proof {
            lemma_last_reaching(nw, s, first, s.len() as int);
            lemma_first_reached(nw, s, last, keep as int);
            lemma_chain_subrange(nw, s, 0, keep as int);
            lemma_chain_subrange(nw, s, back as int, s.len() as int);
            lemma_chain_subrange(nw, s, keep as int, back as int);
            lemma_chain_concat(nw, front@, p);
            assert(head@.len() > 0);
            assert(head@.last() == p.last());
            lemma_chain_concat(nw, head@, tail@);
            assert(nodes@ == with_path(nw, s, p));
        }
        let replaced = Path::new_trusted(middle, nw);
        if check_depot_structure(&nodes, self.dummy) {
            Ok((Tour { nodes, dummy: self.dummy }, replaced))
        } else {
            Err(TourError::BadDepotStructure)
        }
    }

    /// The tour with another start depot.
    pub fn replace_start_depot(&self, new_start_depot: NodeIdx, nw: &Network) -> (r: Result<
        Tour,
        TourError,
    >)
        requires
            nw.wf(),
            self.wf(nw),
        ensures
            match r {
                Ok(t) => {
                    &&& !self@.dummy
                    &&& new_start_depot is StartDepot
                    &&& nw.contains(new_start_depot)
                    &&& nw.reaches(new_start_depot, self@.nodes[1])
                    &&& t@ == (TourModel {
                        nodes: self@.nodes.update(0, new_start_depot),
                        dummy: false,
                    })
                    &&& t.wf(nw)
                },
                Err(e) => if self@.dummy || !(new_start_depot is StartDepot) {
                    e == TourError::BadDepotStructure
                } else if !nw.contains(new_start_depot) {
                    e == TourError::UnknownNode(new_start_depot)
                } else {
                    e == TourError::NotReachable(new_start_depot, self@.nodes[1])
                        && !nw.reaches(new_start_depot, self@.nodes[1])
                },
            },
    {
        let is_start = match new_start_depot {
            NodeIdx::StartDepot(_) => true,
            _ => false,
        };
        if self.dummy || !is_start {
            return Err(TourError::BadDepotStructure);
        }
        if !nw.has_node(new_start_depot) {
            return Err(TourError::UnknownNode(new_start_depot));
        }
        let ghost s = self@.nodes;
        assert(nw.contains(s[1]));
        if !nw.can_reach(new_start_depot, self.nodes[1]) {
            return Err(TourError::NotReachable(new_start_depot, self.nodes[1]));
        }
        let mut nodes = copy_range(&self.nodes, 0, self.nodes.len());
        nodes.set(0, new_start_depot);
        proof {
            let t = nodes@;
            assert(t =~= s.update(0, new_start_depot));
            assert forall|i: int| 0 <= i < t.len() implies nw.contains(#[trigger] t[i]) by {
                if i > 0 {
                    assert(nw.contains(s[i]));
                }
            }
            assert forall|i: int| 0 <= i < t.len() - 1 implies #[trigger] link_ok(nw, t, i) by {
                if i > 0 {
                    assert(link_ok(nw, s, i));
                }
            }
        }
        Ok(Tour { nodes, dummy: false })
    }

    /// The tour with another end depot.
    pub fn replace_end_depot(&self, new_end_depot: NodeIdx, nw: &Network) -> (r: Result<
        Tour,
        TourError,
    >)
        requires
            nw.wf(),
            self.wf(nw),
        ensures
            match r {
                Ok(t) => {
                    &&& !self@.dummy
                    &&& new_end_depot is EndDepot
                    &&& nw.contains(new_end_depot)
                    &&& nw.reaches(self@.nodes[self@.nodes.len() - 2], new_end_depot)
                    &&& t@ == (TourModel {
                        nodes: self@.nodes.update(self@.nodes.len() - 1, new_end_depot),
                        dummy: false,
                    })
                    &&& t.wf(nw)
                },
                Err(e) => if self@.dummy || !(new_end_depot is EndDepot) {
                    e == TourError::BadDepotStructure
                } else if !nw.contains(new_end_depot) {
                    e == TourError::UnknownNode(new_end_depot)
                } else {
                    e == TourError::NotReachable(
                        self@.nodes[self@.nodes.len() - 2],
                        new_end_depot,
                    ) && !nw.reaches(self@.nodes[self@.nodes.len() - 2], new_end_depot)
                },
            },
    {
        let is_end = match new_end_depot {
            NodeIdx::EndDepot(_) => true,
            _ => false,
        };
        if self.dummy || !is_end {
            return Err(TourError::BadDepotStructure);
        }
        if !nw.has_node(new_end_depot) {
            return Err(TourError::UnknownNode(new_end_depot));
        }
        let ghost s = self@.nodes;
        let n = self.nodes.len();
        assert(nw.contains(s[n - 2]));
        if !nw.can_reach(self.nodes[n - 2], new_end_depot) {
            return Err(TourError::NotReachable(self.nodes[n - 2], new_end_depot));
        }
        let mut nodes = copy_range(&self.nodes, 0, n);
        nodes.set(n - 1, new_end_depot);
        proof {
            let t = nodes@;
            assert(t =~= s.update(n - 1, new_end_depot));
            assert forall|i: int| 0 <= i < t.len() implies nw.contains(#[trigger] t[i]) by {
                if i < n - 1 {
                    assert(nw.contains(s[i]));
                }
            }
            assert forall|i: int| 0 <= i < t.len() - 1 implies #[trigger] link_ok(nw, t, i) by {
                if i < n - 2 {
                    assert(link_ok(nw, s, i));
                }
            }
        }
        Ok(Tour { nodes, dummy: false })
    }

    /// The distance that the vehicle runs empty on its tour.
    pub fn dead_head_distance(&self, nw: &Network) -> (d: Distance)
        requires
            nw.wf(),
            is_chain(nw, self@.nodes),
        ensures
            d == dead_head_distance_of(nw, self@.nodes),
    {
        let ghost s = self@.nodes;
        let mut d = Distance::Distance(0);
        let mut i: usize = 1;
        if self.nodes.len() <= 1 {
            return d;
        }
        assert(s.subrange(0, 1).len() == 1);
        while i < self.nodes.len()
            invariant
                1 <= i <= s.len(),
                s == self@.nodes,
                nw.wf(),
                is_chain(nw, s),
                d == dead_head_distance_of(nw, s.subrange(0, i as int)),
            decreases self.nodes.len() - i,
        {
            assert(nw.contains(s[i - 1]));
            assert(nw.contains(s[i as int]));
            let leg = nw.dead_head_distance_between(self.nodes[i - 1], self.nodes[i]);
            d = d.plus(leg);
            proof {
                let t = s.subrange(0, i + 1);
                assert(t.drop_last() =~= s.subrange(0, i as int));
            }
            i += 1;
        }
        assert(s.subrange(0, s.len() as int) =~= s);
        d
    }

    /// The distance that the vehicle covers on its tour: the trips and what
    /// it runs empty between them.
    pub fn total_distance(&self, nw: &Network) -> (d: Distance)
        requires
            nw.wf(),
            is_chain(nw, self@.nodes),
        ensures
            d == distance_sum(
                service_distance(nw, self@.nodes),
                dead_head_distance_of(nw, self@.nodes),
            ),
    {
        let ghost s = self@.nodes;
        let mut d = Distance::Distance(0);
        let mut i: usize = 0;
        while i < self.nodes.len()
            invariant
                i <= s.len(),
                s == self@.nodes,
                nw.wf(),
                is_chain(nw, s),
                d == service_distance(nw, s.subrange(0, i as int)),
            decreases self.nodes.len() - i,
        {
            assert(nw.contains(s[i as int]));
            d = d.plus(nw.travel_distance(self.nodes[i]));
            proof {
                let t = s.subrange(0, i + 1);
                assert(t.drop_last() =~= s.subrange(0, i as int));
            }
            i += 1;
        }
        assert(s.subrange(0, s.len() as int) =~= s);
        d.plus(self.dead_head_distance(nw))
    }
}

/// The nodes of `s` that are no depots, where `s` has depots at its ends
/// only.
pub open spec fn without_depots(s: Seq<NodeIdx>) -> Seq<NodeIdx> {
    let from: int = if s.len() > 0 && s[0].is_depot() {
        1
    } else {
        0
    };
    let to: int = if s.len() > 0 && s.last().is_depot() {
        s.len() - 1
    } else {
        s.len() as int
    };
    if from <= to {
        s.subrange(from, to)
    } else {
        Seq::empty()
    }
}

} // verus!
