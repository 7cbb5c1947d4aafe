//! Chains: sequences of nodes in which each node reaches the next. Tours and
//! paths are chains; what holds of every chain is proved here.

use vstd::prelude::*;
use crate::base_types::NodeIdx;
use crate::network::Network;
use crate::time::{time_le, time_rank};

verus! {

/// Why a sequence of nodes is no tour or path, or why a tour cannot be
/// changed as asked.
#[derive(Debug, Clone, Copy, PartialEq, Eq, Structural)]
pub enum TourError {
    /// The node is no node of the network.
    UnknownNode(NodeIdx),
    /// The first node does not reach the second, which would follow it.
    NotReachable(NodeIdx, NodeIdx),
    /// A tour of a vehicle would not start at a start depot, not end at an
    /// end depot or cover nothing between them; or a tour of a dummy, or a
    /// path, would hold a depot where none may be.
    BadDepotStructure,
    /// The segment is no stretch of the tour: one of its ends is not in the
    /// tour, or its end comes before its start.
    SegmentNotInTour,
}

/// Whether the node at `i` reaches the node after it.
pub open spec fn link_ok(nw: &Network, s: Seq<NodeIdx>, i: int) -> bool {
    nw.reaches(s[i], s[i + 1])
}

/// Whether all nodes of `s` are nodes of the network.
pub open spec fn all_known(nw: &Network, s: Seq<NodeIdx>) -> bool {
    forall|i: int| 0 <= i < s.len() ==> nw.contains(#[trigger] s[i])
}

/// Whether `s` is a chain: its nodes are nodes of the network, and each
/// reaches the next.
pub open spec fn is_chain(nw: &Network, s: Seq<NodeIdx>) -> bool {
    &&& all_known(nw, s)
    &&& forall|i: int| 0 <= i < s.len() - 1 ==> #[trigger] link_ok(nw, s, i)
}

/// Whether `s` holds a node that is no depot.
pub open spec fn covers_something(s: Seq<NodeIdx>) -> bool {
    exists|i: int| 0 <= i < s.len() && !(#[trigger] s[i]).is_depot()
}

/// The first fault of `s` as a chain, if it has one: a node that is unknown,
/// or else two neighbours of which the first does not reach the second.
pub open spec fn chain_fault(nw: &Network, s: Seq<NodeIdx>) -> Option<TourError> {
    if !all_known(nw, s) {
        let i = choose|i: int|
            0 <= i < s.len() && !nw.contains(s[i]) && forall|j: int|
                0 <= j < i ==> nw.contains(#[trigger] s[j]);
        Some(TourError::UnknownNode(s[i]))
    } else if !is_chain(nw, s) {
        let i = choose|i: int|
            0 <= i < s.len() - 1 && !link_ok(nw, s, i) && forall|j: int|
                0 <= j < i ==> #[trigger] link_ok(nw, s, j);
        Some(TourError::NotReachable(s[i], s[i + 1]))
    } else {
        None
    }
}

/// A stretch of a chain is a chain.
pub proof fn lemma_chain_subrange(nw: &Network, s: Seq<NodeIdx>, from: int, to: int)
    requires
        is_chain(nw, s),
        0 <= from <= to <= s.len(),
    ensures
        is_chain(nw, s.subrange(from, to)),
{
    let t = s.subrange(from, to);
    assert forall|i: int| 0 <= i < t.len() implies nw.contains(#[trigger] t[i]) by {
        assert(t[i] == s[from + i]);
    }
    assert forall|i: int| 0 <= i < t.len() - 1 implies #[trigger] link_ok(nw, t, i) by {
        assert(link_ok(nw, s, from + i));
    }
}

/// Two chains, the first of which ends at a node that reaches the start of
/// the second, make one chain.
pub proof fn lemma_chain_concat(nw: &Network, a: Seq<NodeIdx>, b: Seq<NodeIdx>)
    requires
        is_chain(nw, a),
        is_chain(nw, b),
        a.len() > 0 && b.len() > 0 ==> nw.reaches(a.last(), b[0]),
    ensures
        is_chain(nw, a + b),
{
    let t = a + b;
    assert forall|i: int| 0 <= i < t.len() implies nw.contains(#[trigger] t[i]) by {
        if i < a.len() {
            assert(t[i] == a[i]);
        } else {
            assert(t[i] == b[i - a.len()]);
        }
    }
    assert forall|i: int| 0 <= i < t.len() - 1 implies #[trigger] link_ok(nw, t, i) by {
        if i < a.len() - 1 {
            assert(link_ok(nw, a, i));
        } else if i == a.len() - 1 {
        } else {
            assert(link_ok(nw, b, i - a.len()));
        }
    }
}

/// Along a chain time moves on: an earlier node ends no later than a later
/// node starts.
pub proof fn lemma_chain_in_time(nw: &Network, s: Seq<NodeIdx>, i: int, j: int)
    requires
        nw.wf(),
        is_chain(nw, s),
        0 <= i < j < s.len(),
    ensures
        time_le(nw.spec_end_time(s[i]), nw.spec_start_time(s[j])),
    decreases j - i,
{
    if j == i + 1 {
        assert(link_ok(nw, s, i));
        nw.lemma_reach_in_time(s[i], s[j]);
    } else {
        lemma_chain_in_time(nw, s, i, j - 1);
        assert(link_ok(nw, s, j - 1));
        nw.lemma_reach_in_time(s[j - 1], s[j]);
        nw.lemma_node_wf(s[j - 1]);
    }
}

/// In a chain only the first node can be a start depot and only the last an
/// end depot.
pub proof fn lemma_chain_depots_at_ends(nw: &Network, s: Seq<NodeIdx>, i: int)
    requires
        is_chain(nw, s),
        0 <= i < s.len(),
    ensures
        i > 0 ==> !(s[i] is StartDepot),
        i < s.len() - 1 ==> !(s[i] is EndDepot),
{
    if i > 0 {
        assert(link_ok(nw, s, i - 1));
    }
    if i < s.len() - 1 {
        assert(link_ok(nw, s, i));
    }
}

/// No node stands twice in a chain.
pub proof fn lemma_chain_distinct(nw: &Network, s: Seq<NodeIdx>, i: int, j: int)
    requires
        nw.wf(),
        is_chain(nw, s),
        0 <= i < j < s.len(),
    ensures
        s[i] != s[j],
{
    lemma_chain_depots_at_ends(nw, s, i);
    lemma_chain_depots_at_ends(nw, s, j);
    lemma_chain_in_time(nw, s, i, j);
    nw.lemma_node_wf(s[i]);
}

/// A number for every node, no two nodes the same.
pub open spec fn node_number(n: NodeIdx) -> int {
    match n {
        NodeIdx::StartDepot(i) => i as int,
        NodeIdx::Service(i) => 0x10000 + i,
        NodeIdx::Maintenance(i) => 0x20000 + i,
        NodeIdx::EndDepot(i) => 0x30000 + i,
    }
}

/// A chain is no longer than there are nodes.
pub proof fn lemma_chain_short(nw: &Network, s: Seq<NodeIdx>)
    requires
        nw.wf(),
        is_chain(nw, s),
    ensures
        s.len() <= 0x40000,
{
    let q = Seq::new(s.len(), |i: int| node_number(s[i]));
    assert forall|i: int, j: int| 0 <= i < q.len() && 0 <= j < q.len() && i != j implies q[i]
        != q[j] by {
        if i < j {
            lemma_chain_distinct(nw, s, i, j);
        } else {
            lemma_chain_distinct(nw, s, j, i);
        }
    }
    q.unique_seq_to_set();
    vstd::seq_lib::seq_to_set_is_finite(q);
    let all = vstd::set_lib::set_int_range(0, 0x40000);
    vstd::set_lib::lemma_int_range(0, 0x40000);
    assert forall|x: int| q.to_set().contains(x) implies all.contains(x) by {
        let i = choose|i: int| 0 <= i < q.len() && q[i] == x;
    }
    vstd::set_lib::lemma_len_subset(q.to_set(), all);
}

/// A node of a chain that ends after `t` starts does not reach `t`, and no
/// node after it does.
pub proof fn lemma_late_nodes_do_not_reach(nw: &Network, s: Seq<NodeIdx>, i: int, j: int, t: NodeIdx)
    requires
        nw.wf(),
        is_chain(nw, s),
        0 <= i <= j < s.len(),
        time_rank(nw.spec_end_time(s[i])) > time_rank(nw.spec_start_time(t)),
    ensures
        !nw.reaches(s[j], t),
{
    if i < j {
        lemma_chain_in_time(nw, s, i, j);
        nw.lemma_node_wf(s[j]);
    }
    if nw.reaches(s[j], t) {
        nw.lemma_reach_in_time(s[j], t);
    }
}

/// What is wrong with `nodes` as a chain of `nw`: a node that the network
/// does not hold or, where all are known, a node that does not reach its
/// successor. `None` exactly for a chain.
pub fn check_chain(nodes: &Vec<NodeIdx>, nw: &Network) -> (r: Option<TourError>)
    requires
        nw.wf(),
    ensures
        r == chain_fault(nw, nodes@),
        r is None <==> is_chain(nw, nodes@),
{
    let mut i: usize = 0;
    while i < nodes.len()
        invariant
            i <= nodes.len(),
            forall|j: int| 0 <= j < i ==> nw.contains(#[trigger] nodes@[j]),
        decreases nodes.len() - i,
    {
        if !nw.has_node(nodes[i]) {
            proof {
                let s = nodes@;
                let w = choose|w: int|
                    0 <= w < s.len() && !nw.contains(s[w]) && forall|j: int|
                        0 <= j < w ==> nw.contains(#[trigger] s[j]);
                assert(w == i as int);
            }
            return Some(TourError::UnknownNode(nodes[i]));
        }
        i += 1;
    }
    let mut i: usize = 0;
    while i + 1 < nodes.len()
        invariant
            i == 0 || i < nodes.len(),
            nw.wf(),
            all_known(nw, nodes@),
            forall|j: int| 0 <= j < i ==> #[trigger] link_ok(nw, nodes@, j),
        decreases nodes.len() - i,
    {
        if !nw.can_reach(nodes[i], nodes[i + 1]) {
            proof {
                let s = nodes@;
                assert(!link_ok(nw, s, i as int));
                let w = choose|w: int|
                    0 <= w < s.len() - 1 && !link_ok(nw, s, w) && forall|j: int|
                        0 <= j < w ==> #[trigger] link_ok(nw, s, j);
                assert(w == i as int);
            }
            return Some(TourError::NotReachable(nodes[i], nodes[i + 1]));
        }
        i += 1;
    }
    None
}

/// Whether a sequence of nodes holds a node that is no depot.
pub fn has_non_depot(nodes: &Vec<NodeIdx>) -> (b: bool)
    ensures
        b == covers_something(nodes@),
{
    let mut i: usize = 0;
    while i < nodes.len()
        invariant
            i <= nodes.len(),
            forall|j: int| 0 <= j < i ==> (#[trigger] nodes@[j]).is_depot(),
        decreases nodes.len() - i,
    {
        if !nodes[i].is_depot() {
            return true;
        }
        i += 1;
    }
    false
}

/// A copy of the nodes from `from` up to, not including, `to`.
pub fn copy_range(nodes: &Vec<NodeIdx>, from: usize, to: usize) -> (r: Vec<NodeIdx>)
    requires
        from <= to <= nodes@.len(),
    ensures
        r@ == nodes@.subrange(from as int, to as int),
{
    let mut r: Vec<NodeIdx> = Vec::new();
    let mut i: usize = from;
    while i < to
        invariant
            from <= i <= to <= nodes@.len(),
            r@ == nodes@.subrange(from as int, i as int),
        decreases to - i,
    {
        r.push(nodes[i]);
        proof {
            assert(r@ =~= nodes@.subrange(from as int, i + 1));
        }
        i += 1;
    }
    r
}

/// The nodes of `a` followed by those of `b`.
pub fn join(a: &Vec<NodeIdx>, b: &Vec<NodeIdx>) -> (r: Vec<NodeIdx>)
    ensures
        r@ == a@ + b@,
{
    let mut r = copy_range(a, 0, a.len());
    let mut i: usize = 0;
    assert(a@.subrange(0, a@.len() as int) =~= a@);
    while i < b.len()
        invariant
            i <= b.len(),
            r@ == a@ + b@.subrange(0, i as int),
        decreases b.len() - i,
    {
        r.push(b[i]);
        proof {
            assert(r@ =~= a@ + b@.subrange(0, i + 1));
        }
        i += 1;
    }
    assert(b@.subrange(0, b@.len() as int) =~= b@);
    r
}

} // verus!
