//! Flows in a network of arcs with capacities and costs.

use vstd::prelude::*;

verus! {

/// An arc of a flow network, with the flow that runs through it.
#[derive(Debug, Clone, Copy, PartialEq, Eq, Structural)]
pub struct FlowArc {
    pub from: usize,
    pub to: usize,
    pub capacity: u64,
    pub cost: i64,
    pub flow: u64,
}

pub struct FlowNetwork {
    nodes: usize,
    arcs: Vec<FlowArc>,
}

/// An arc taken in its own direction or against it.
#[derive(Debug, Clone, Copy, PartialEq, Eq, Structural)]
pub struct Step {
    pub arc: usize,
    pub forward: bool,
}

/// Whether the arcs lie between nodes of the network and carry no more than
/// they can.
pub open spec fn arcs_ok(arcs: Seq<FlowArc>, nodes: usize) -> bool {
    forall|i: int|
        0 <= i < arcs.len() ==> {
            &&& (#[trigger] arcs[i]).from < nodes
            &&& arcs[i].to < nodes
            &&& arcs[i].flow <= arcs[i].capacity
        }
}

/// Whether two lists of arcs are the same arcs, whatever flows through
/// them.
pub open spec fn same_arcs(a: Seq<FlowArc>, b: Seq<FlowArc>) -> bool {
    &&& a.len() == b.len()
    &&& forall|i: int|
        0 <= i < a.len() ==> {
            &&& (#[trigger] a[i]).from == b[i].from
            &&& a[i].to == b[i].to
            &&& a[i].capacity == b[i].capacity
            &&& a[i].cost == b[i].cost
        }
}

/// The flow through the first `n` arcs together.
pub open spec fn total_flow(arcs: Seq<FlowArc>, n: int) -> int
    decreases n,
{
    if n <= 0 {
        0
    } else {
        total_flow(arcs, n - 1) + arcs[n - 1].flow
    }
}

/// No flow is below zero.
pub proof fn lemma_total_flow_not_negative(arcs: Seq<FlowArc>, n: int)
    ensures
        total_flow(arcs, n) >= 0,
    decreases n,
{
    if n > 0 {
        lemma_total_flow_not_negative(arcs, n - 1);
    }
}

/// The total flow after the flow of one arc changed.
pub proof fn lemma_total_flow_update(arcs: Seq<FlowArc>, i: int, a: FlowArc, n: int)
    requires
        0 <= i < arcs.len(),
        0 <= n <= arcs.len(),
    ensures
        total_flow(arcs.update(i, a), n) == total_flow(arcs, n) + (if i < n {
            a.flow - arcs[i].flow
        } else {
            0
        }),
        total_flow(arcs, n) >= 0,
    decreases n,
{
    if n > 0 {
        lemma_total_flow_update(arcs, i, a, n - 1);
    }
}

/// What flows into node `v` less what flows out of it, through the first
/// `n` arcs.
pub open spec fn excess(arcs: Seq<FlowArc>, v: int, n: int) -> int
    decreases n,
{
    if n <= 0 {
        0
    } else {
        excess(arcs, v, n - 1) + (if arcs[n - 1].to == v {
            arcs[n - 1].flow as int
        } else {
            0
        }) - (if arcs[n - 1].from == v {
            arcs[n - 1].flow as int
        } else {
            0
        })
    }
}

/// The excess of a node after the flow of one arc changed.
pub proof fn lemma_excess_update(arcs: Seq<FlowArc>, i: int, a: FlowArc, v: int, n: int)
    requires
        0 <= i < arcs.len(),
        0 <= n <= arcs.len(),
        a.from == arcs[i].from,
        a.to == arcs[i].to,
    ensures
        excess(arcs.update(i, a), v, n) == excess(arcs, v, n) + (if i < n && a.to == v {
            a.flow - arcs[i].flow
        } else {
            0
        }) - (if i < n && a.from == v {
            a.flow - arcs[i].flow
        } else {
            0
        }),
    decreases n,
{
    if n > 0 {
        lemma_excess_update(arcs, i, a, v, n - 1);
    }
}

/// Whether a unit of flow can take the step `s` from node `from` to node
/// `to`: along an arc between them that has room, or against one that has
/// flow.
pub open spec fn goes(arcs: Seq<FlowArc>, s: Step, from: int, to: int) -> bool {
    &&& s.arc < arcs.len()
    &&& if s.forward {
        arcs[s.arc as int].from == from && arcs[s.arc as int].to == to && arcs[s.arc as int].flow
            < arcs[s.arc as int].capacity
    } else {
        arcs[s.arc as int].to == from && arcs[s.arc as int].from == to && arcs[s.arc as int].flow > 0
    }
}

/// Whether the steps of `way`, read from the back, lead through the nodes
/// of `stops`, read from the back.
pub open spec fn is_way(arcs: Seq<FlowArc>, way: Seq<Step>, stops: Seq<int>) -> bool {
    &&& stops.len() == way.len() + 1
    &&& forall|j: int| 0 <= j < way.len() ==> goes(arcs, #[trigger] way[j], stops[j + 1], stops[j])
}

/// What a search for the cheapest ways knows: which nodes it has reached,
/// at what cost, by which last step, and whether its last round found
/// anything cheaper.
pub struct Ways {
    pub reached: Seq<bool>,
    pub dist: Seq<i128>,
    pub last: Seq<Step>,
    pub changed: bool,
}

/// The search before its first round: only the source is reached.
pub open spec fn no_ways(nodes: int, source: int) -> Ways {
    Ways {
        reached: Seq::new(nodes as nat, |v: int| v == source),
        dist: Seq::new(nodes as nat, |v: int| 0i128),
        last: Seq::new(nodes as nat, |v: int| (Step { arc: 0, forward: true })),
        changed: true,
    }
}

/// The search after it tried the step `s` from `from` to `to` at a cost:
/// the step is the last step to `to` if `from` is reached and `to` is not
/// yet, or not as cheaply.
pub open spec fn tried(w: Ways, from: int, to: int, cost: int, s: Step) -> Ways {
    let d = w.dist[from] + cost;
    if w.reached[from] && i128::MIN <= d <= i128::MAX && (!w.reached[to] || d < w.dist[to]) {
        Ways {
            reached: w.reached.update(to, true),
            dist: w.dist.update(to, d as i128),
            last: w.last.update(to, s),
            changed: true,
        }
    } else {
        w
    }
}

/// The search after it tried arc `i`: along it if it has room, then against
/// it if it has flow. No step leads into the source.
pub open spec fn relaxed(w: Ways, arcs: Seq<FlowArc>, i: int, source: int) -> Ways {
    let a = arcs[i];
    let along = if a.flow < a.capacity && a.to != source {
        tried(w, a.from as int, a.to as int, a.cost as int, Step { arc: i as usize, forward: true })
    } else {
        w
    };
    if a.flow > 0 && a.from != source {
        tried(along, a.to as int, a.from as int, -a.cost, Step { arc: i as usize, forward: false })
    } else {
        along
    }
}

/// The search after it tried the first `i` arcs in their order.
pub open spec fn round_of(w: Ways, arcs: Seq<FlowArc>, source: int, i: int) -> Ways
    decreases i,
{
    if i <= 0 {
        w
    } else {
        relaxed(round_of(w, arcs, source, i - 1), arcs, i - 1, source)
    }
}

/// The search after no more than `left` rounds over all arcs; it ends with
/// the first round that finds nothing cheaper.
pub open spec fn searched(w: Ways, arcs: Seq<FlowArc>, source: int, left: int) -> Ways
    decreases left,
{
    if left <= 0 || !w.changed {
        w
    } else {
        searched(
            round_of(Ways { changed: false, ..w }, arcs, source, arcs.len() as int),
            arcs,
            source,
            left - 1,
        )
    }
}

/// What a search from `source` knows after no more than so many rounds.
pub open spec fn cheapest(arcs: Seq<FlowArc>, nodes: int, source: int, rounds: int) -> Ways {
    searched(no_ways(nodes, source), arcs, source, rounds)
}

/// The first arc from position `i` on that leaves `node` and carries flow,
/// by its position; the number of arcs if there is none.
pub open spec fn first_flowing(arcs: Seq<FlowArc>, node: int, i: int) -> int
    decreases arcs.len() - i,
{
    if i < 0 || i >= arcs.len() {
        arcs.len() as int
    } else if arcs[i].from == node && arcs[i].flow > 0 {
        i
    } else {
        first_flowing(arcs, node, i + 1)
    }
}

/// The arcs after one unit of flow was taken off arc `i`.
pub open spec fn unit_taken(arcs: Seq<FlowArc>, i: int) -> Seq<FlowArc> {
    arcs.update(i, FlowArc { flow: (arcs[i].flow - 1) as u64, ..arcs[i] })
}

/// The node that a step leaves.
pub open spec fn origin(arcs: Seq<FlowArc>, s: Step) -> int {
    if s.forward {
        arcs[s.arc as int].from as int
    } else {
        arcs[s.arc as int].to as int
    }
}

/// Whether one unit more can take a step: along an arc that has room, or
/// against one that has flow.
pub open spec fn has_room(arcs: Seq<FlowArc>, s: Step) -> bool {
    if s.forward {
        arcs[s.arc as int].flow < arcs[s.arc as int].capacity
    } else {
        arcs[s.arc as int].flow > 0
    }
}

/// A way with more steps in front of it; none if there is no way.
pub open spec fn joined(front: Seq<Step>, way: Option<Seq<Step>>) -> Option<Seq<Step>> {
    match way {
        Some(w) => Some(front + w),
        None => None,
    }
}

/// The steps that lead back from `at` to `source` as the last steps name
/// them, the step into `at` first: as long as every step has room, leaves a
/// node that is reached, and no more than `left` steps are needed.
pub open spec fn way_back(
    arcs: Seq<FlowArc>,
    reached: Seq<bool>,
    last: Seq<Step>,
    source: int,
    at: int,
    left: int,
) -> Option<Seq<Step>>
    decreases left,
{
    if at == source {
        Some(Seq::empty())
    } else if left <= 0 {
        None
    } else {
        let s = last[at];
        if !has_room(arcs, s) || !reached[origin(arcs, s)] {
            None
        } else {
            joined(seq![s], way_back(arcs, reached, last, source, origin(arcs, s), left - 1))
        }
    }
}

/// No arc is taken twice on a way.
pub open spec fn no_arc_twice(way: Seq<Step>) -> bool {
    forall|x: int, y: int| #![trigger way[x], way[y]] 0 <= x < y < way.len() ==> way[x].arc != way[y].arc
}

/// The way on which a unit is sent from `source` to `sink`, if there is
/// one: the sink is reached and is not the source, the last steps lead back
/// from it to the source in no more steps than there are nodes, and no arc
/// is taken twice.
pub open spec fn way_to_send(
    arcs: Seq<FlowArc>,
    reached: Seq<bool>,
    last: Seq<Step>,
    nodes: int,
    source: int,
    sink: int,
) -> Option<Seq<Step>> {
    if !reached[sink] || sink == source {
        None
    } else {
        match way_back(arcs, reached, last, source, sink, nodes) {
            Some(w) => if no_arc_twice(w) {
                Some(w)
            } else {
                None
            },
            None => None,
        }
    }
}

/// An arc after one unit more took it, or one unit went back over it.
pub open spec fn stepped(a: FlowArc, forward: bool) -> FlowArc {
    FlowArc {
        flow: if forward {
            (a.flow + 1) as u64
        } else {
            (a.flow - 1) as u64
        },
        ..a
    }
}

/// The arcs after a unit took the first `n` steps of a way.
pub open spec fn pushed(arcs: Seq<FlowArc>, way: Seq<Step>, n: int) -> Seq<FlowArc>
    decreases n,
{
    if n <= 0 {
        arcs
    } else {
        let p = pushed(arcs, way, n - 1);
        p.update(way[n - 1].arc as int, stepped(p[way[n - 1].arc as int], way[n - 1].forward))
    }
}

/// The way that the next unit from `source` to `sink` takes: the cheapest
/// that a search finds, if it makes the flow cheaper and can be taken.
pub open spec fn next_way(arcs: Seq<FlowArc>, nodes: int, source: int, sink: int) -> Option<Seq<Step>> {
    let w = cheapest(arcs, nodes, source, nodes);
    if !w.reached[sink] || w.dist[sink] >= 0 {
        None
    } else {
        way_to_send(arcs, w.reached, w.last, nodes, source, sink)
    }
}

/// The arcs after unit by unit was sent from `source` to `sink`, each on
/// its next way, until there was no next way or `limit` units were sent;
/// and the number of units sent.
pub open spec fn sent_flow(arcs: Seq<FlowArc>, nodes: int, source: int, sink: int, limit: int) -> (
    Seq<FlowArc>,
    int,
)
    decreases limit,
{
    if limit <= 0 {
        (arcs, 0)
    } else {
        match next_way(arcs, nodes, source, sink) {
            None => (arcs, 0),
            Some(way) => {
                let r = sent_flow(pushed(arcs, way, way.len() as int), nodes, source, sink, limit - 1);
                (r.0, r.1 + 1)
            },
        }
    }
}

/// Whether `after` comes of `before` by `units` more units of flow from
/// `source` to `sink`: the sink has so much more excess, the source so much
/// less, and every other node the excess that it had.
pub open spec fn sent_through(before: Seq<FlowArc>, after: Seq<FlowArc>, source: int, sink: int, units: int) -> bool {
    forall|v: int| #[trigger]
        excess(after, v, after.len() as int) == excess(before, v, before.len() as int) + (if v
            == sink {
            units
        } else {
            0
        }) - (if v == source {
            units
        } else {
            0
        })
}

impl FlowNetwork {
    pub closed spec fn spec_nodes(&self) -> usize {
        self.nodes
    }

    pub closed spec fn spec_arcs(&self) -> Seq<FlowArc> {
        self.arcs@
    }

    pub open spec fn wf(&self) -> bool {
        arcs_ok(self.spec_arcs(), self.spec_nodes())
    }

    /// The network with so many nodes and no arcs.
    pub fn new(nodes: usize) -> (r: FlowNetwork)
        ensures
            r.wf(),
            r.spec_nodes() == nodes,
            r.spec_arcs().len() == 0,
    {
        FlowNetwork { nodes, arcs: Vec::new() }
    }

    pub fn nodes(&self) -> (n: usize)
        ensures
            n == self.spec_nodes(),
    {
        self.nodes
    }

    pub fn arcs(&self) -> (r: &Vec<FlowArc>)
        ensures
            r@ == self.spec_arcs(),
    {
        &self.arcs
    }

    /// Adds an arc without flow and gives its position.
    pub fn add_arc(&mut self, from: usize, to: usize, capacity: u64, cost: i64) -> (i: usize)
        requires
            old(self).wf(),
            from < old(self).spec_nodes(),
            to < old(self).spec_nodes(),
        ensures
            final(self).wf(),
            final(self).spec_nodes() == old(self).spec_nodes(),
            i == old(self).spec_arcs().len(),
            final(self).spec_arcs() == old(self).spec_arcs().push(
                FlowArc { from, to, capacity, cost, flow: 0 },
            ),
    {
        let i = self.arcs.len();
        self.arcs.push(FlowArc { from, to, capacity, cost, flow: 0 });
        i
    }

    /// Takes one unit of flow off an arc that has flow.
    pub fn take_unit(&mut self, i: usize)
        requires
            old(self).wf(),
            i < old(self).spec_arcs().len(),
            old(self).spec_arcs()[i as int].flow > 0,
        ensures
            final(self).wf(),
            final(self).spec_nodes() == old(self).spec_nodes(),
            same_arcs(final(self).spec_arcs(), old(self).spec_arcs()),
            final(self).spec_arcs() == old(self).spec_arcs().update(
                i as int,
                FlowArc { flow: (old(self).spec_arcs()[i as int].flow - 1) as u64, ..old(
                    self,
                ).spec_arcs()[i as int] },
            ),
            total_flow(final(self).spec_arcs(), final(self).spec_arcs().len() as int) == total_flow(
                old(self).spec_arcs(),
                old(self).spec_arcs().len() as int,
            ) - 1,
    {
        let a = self.arcs[i];
        let b = FlowArc { flow: a.flow - 1, ..a };
        proof {
            lemma_total_flow_update(self.arcs@, i as int, b, self.arcs@.len() as int);
        }
        self.arcs.set(i, b);
    }

    /// The cheapest way from `source` to every node in what the flow leaves
    /// free, as far as so many rounds over all arcs find it: for every node
    /// whether it is reached, at what cost, and the last step of the way to
    /// it.
    pub fn cheapest_ways(&self, source: usize, rounds: usize) -> (r: (Vec<bool>, Vec<i128>, Vec<Step>))
        requires
            self.wf(),
            source < self.spec_nodes(),
        ensures
            r.0@.len() == self.spec_nodes(),
            r.1@.len() == self.spec_nodes(),
            r.2@.len() == self.spec_nodes(),
            r.0@ == cheapest(self.spec_arcs(), self.spec_nodes() as int, source as int, rounds as int).reached,
            r.1@ == cheapest(self.spec_arcs(), self.spec_nodes() as int, source as int, rounds as int).dist,
            r.2@ == cheapest(self.spec_arcs(), self.spec_nodes() as int, source as int, rounds as int).last,
            forall|v: int|
                0 <= v < self.spec_nodes() && r.0@[v] && v != source ==> {
                    let s = #[trigger] r.2@[v];
                    &&& s.arc < self.spec_arcs().len()
                    &&& s.forward ==> self.spec_arcs()[s.arc as int].to == v
                    &&& !s.forward ==> self.spec_arcs()[s.arc as int].from == v
                },
    {
        let n = self.nodes;
        let ghost arcs = self.spec_arcs();
        let ghost whole = cheapest(arcs, n as int, source as int, rounds as int);
        let mut reached: Vec<bool> = Vec::new();
        let mut dist: Vec<i128> = Vec::new();
        let mut last: Vec<Step> = Vec::new();
        let mut v: usize = 0;
        while v < n
            invariant
                v <= n,
                reached@.len() == v,
                dist@.len() == v,
                last@.len() == v,
                forall|x: int| 0 <= x < v ==> !reached@[x],
                forall|x: int| 0 <= x < v ==> dist@[x] == 0,
                forall|x: int| 0 <= x < v ==> last@[x] == (Step { arc: 0, forward: true }),
            decreases n - v,
        {
            reached.push(false);
            dist.push(0);
            last.push(Step { arc: 0, forward: true });
            v += 1;
        }
        reached.set(source, true);
        proof {
            let w = no_ways(n as int, source as int);
            assert(reached@ =~= w.reached);
            assert(dist@ =~= w.dist);
            assert(last@ =~= w.last);
        }
        let mut round: usize = 0;
        let mut changed = true;
        while round < rounds && changed
            invariant
                self.wf(),
                arcs == self.spec_arcs(),
                n == self.spec_nodes(),
                source < n,
                round <= rounds,
                reached@.len() == n,
                dist@.len() == n,
                last@.len() == n,
                whole == searched(
                    Ways { reached: reached@, dist: dist@, last: last@, changed },
                    arcs,
                    source as int,
                    rounds - round,
                ),
                forall|x: int|
                    0 <= x < n && reached@[x] && x != source ==> {
                        let s = #[trigger] last@[x];
                        &&& s.arc < self.spec_arcs().len()
                        &&& s.forward ==> self.spec_arcs()[s.arc as int].to == x
                        &&& !s.forward ==> self.spec_arcs()[s.arc as int].from == x
                    },
            decreases rounds - round,
        {
            let ghost start = Ways { reached: reached@, dist: dist@, last: last@, changed: false };
            changed = false;
            let mut i: usize = 0;
            while i < self.arcs.len()
                invariant
                    self.wf(),
                    arcs == self.spec_arcs(),
                    i <= self.spec_arcs().len(),
                    n == self.spec_nodes(),
                    source < n,
                    reached@.len() == n,
                    dist@.len() == n,
                    last@.len() == n,
                    (Ways { reached: reached@, dist: dist@, last: last@, changed }) == round_of(
                        start,
                        arcs,
                        source as int,
                        i as int,
                    ),
                    forall|x: int|
                        0 <= x < n && reached@[x] && x != source ==> {
                            let s = #[trigger] last@[x];
                            &&& s.arc < self.spec_arcs().len()
                            &&& s.forward ==> self.spec_arcs()[s.arc as int].to == x
                            &&& !s.forward ==> self.spec_arcs()[s.arc as int].from == x
                        },
                decreases self.arcs.len() - i,
            {
                let a = self.arcs[i];
                let ghost before = Ways { reached: reached@, dist: dist@, last: last@, changed };
                assert(self.spec_arcs()[i as int].from < n && self.spec_arcs()[i as int].to < n);
                // along the arc, where it has room
                if a.flow < a.capacity && reached[a.from] && a.to != source {
                    match dist[a.from].checked_add(a.cost as i128) {
                        Some(d) => {
                            if !reached[a.to] || d < dist[a.to] {
                                reached.set(a.to, true);
                                dist.set(a.to, d);
                                last.set(a.to, Step { arc: i, forward: true });
                                changed = true;
                            }
                        },
                        None => {},
                    }
                }
                let ghost along = Ways { reached: reached@, dist: dist@, last: last@, changed };
                proof {
                    assert(along == if a.flow < a.capacity && a.to != source {
                        tried(
                            before,
                            a.from as int,
                            a.to as int,
                            a.cost as int,
                            Step { arc: i, forward: true },
                        )
                    } else {
                        before
                    });
                }
                // against the arc, where it has flow
                if a.flow > 0 && reached[a.to] && a.from != source {
                    match dist[a.to].checked_sub(a.cost as i128) {
                        Some(d) => {
                            if !reached[a.from] || d < dist[a.from] {
                                reached.set(a.from, true);
                                dist.set(a.from, d);
                                last.set(a.from, Step { arc: i, forward: false });
                                changed = true;
                            }
                        },
                        None => {},
                    }
                }
                proof {
                    let after = Ways { reached: reached@, dist: dist@, last: last@, changed };
                    assert(after == if a.flow > 0 && a.from != source {
                        tried(
                            along,
                            a.to as int,
                            a.from as int,
                            -a.cost,
                            Step { arc: i, forward: false },
                        )
                    } else {
                        along
                    });
                    assert(after == relaxed(before, arcs, i as int, source as int));
                }
                i += 1;
            }
            round += 1;
        }
        (reached, dist, last)
    }

    /// Sends one unit of flow from `source` to `sink` along the way that the
    /// last steps name, if they name a way on which every arc has room for
    /// it. Says whether it did. No node between the two gains or loses by
    /// it.
    pub fn send_unit(&mut self, source: usize, sink: usize, reached: &Vec<bool>, last: &Vec<Step>) -> (sent:
        bool)
        requires
            old(self).wf(),
            source < old(self).spec_nodes(),
            sink < old(self).spec_nodes(),
            reached@.len() == old(self).spec_nodes(),
            last@.len() == old(self).spec_nodes(),
            forall|v: int|
                0 <= v < old(self).spec_nodes() && reached@[v] && v != source ==> {
                    let s = #[trigger] last@[v];
                    &&& s.arc < old(self).spec_arcs().len()
                    &&& s.forward ==> old(self).spec_arcs()[s.arc as int].to == v
                    &&& !s.forward ==> old(self).spec_arcs()[s.arc as int].from == v
                },
        ensures
            final(self).wf(),
            final(self).spec_nodes() == old(self).spec_nodes(),
            same_arcs(final(self).spec_arcs(), old(self).spec_arcs()),
            !sent ==> final(self).spec_arcs() == old(self).spec_arcs(),
            sent ==> source != sink && sent_through(
                old(self).spec_arcs(),
                final(self).spec_arcs(),
                source as int,
                sink as int,
                1,
            ),
            match way_to_send(
                old(self).spec_arcs(),
                reached@,
                last@,
                old(self).spec_nodes() as int,
                source as int,
                sink as int,
            ) {
                Some(way) => sent && final(self).spec_arcs() == pushed(
                    old(self).spec_arcs(),
                    way,
                    way.len() as int,
                ),
                None => !sent,
            },
    {
        let n = self.nodes;
        let ghost before = self.arcs@;
        let ghost whole = way_back(before, reached@, last@, source as int, sink as int, n as int);
        if !reached[sink] || sink == source {
            return false;
        }
        // the way, from the sink back to the source
        let mut way: Vec<Step> = Vec::new();
        let ghost mut stops: Seq<int> = seq![sink as int];
        let mut at = sink;
        let mut steps: usize = 0;
        while at != source
            invariant
                self.wf(),
                self.arcs@ == before,
                n == self.spec_nodes(),
                at < n,
                source < n,
                reached@.len() == n,
                last@.len() == n,
                steps <= n,
                reached@[at as int],
                forall|v: int|
                    0 <= v < n && reached@[v] && v != source ==> {
                        let s = #[trigger] last@[v];
                        &&& s.arc < before.len()
                        &&& s.forward ==> before[s.arc as int].to == v
                        &&& !s.forward ==> before[s.arc as int].from == v
                    },
                is_way(before, way@, stops),
                stops[0] == sink,
                stops.last() == at,
                reached@[sink as int],
                sink != source,
                before == old(self).spec_arcs(),
                n == old(self).spec_nodes(),
                whole == way_back(before, reached@, last@, source as int, sink as int, n as int),
                whole == joined(
                    way@,
                    way_back(before, reached@, last@, source as int, at as int, n - steps),
                ),
            decreases n - steps,
        {
            if steps >= n {
                return false;
            }
            let s = last[at];
            let ghost rest = way_back(before, reached@, last@, source as int, at as int, n - steps);
            assert(last@[at as int].arc < before.len());
            let a = self.arcs[s.arc];
            let room = if s.forward {
                a.flow < a.capacity
            } else {
                a.flow > 0
            };
            let from = if s.forward {
                a.from
            } else {
                a.to
            };
            assert(before[s.arc as int].from < n && before[s.arc as int].to < n);
            assert(room == has_room(before, s));
            assert(from == origin(before, s));
            if !room || !reached[from] {
                assert(rest is None);
                return false;
            }
            proof {
                let after = way_back(
                    before,
                    reached@,
                    last@,
                    source as int,
                    from as int,
                    n - steps - 1,
                );
                assert(rest == joined(seq![s], after));
                match after {
                    Some(w) => {
                        assert(way@.push(s) + w =~= way@ + (seq![s] + w));
                    },
                    None => {},
                }
                let ghost longer = stops.push(from as int);
                assert forall|j: int| 0 <= j < way@.len() + 1 implies goes(
                    before,
                    #[trigger] way@.push(s)[j],
                    longer[j + 1],
                    longer[j],
                ) by {
                    if j < way@.len() {
                        assert(goes(before, way@[j], stops[j + 1], stops[j]));
                    }
                }
                stops = longer;
            }
            way.push(s);
            at = from;
            steps += 1;
        }
        proof {
            assert(way@ + Seq::<Step>::empty() =~= way@);
            assert(whole == Some(way@));
        }
        // an arc twice on the way would get more than it has room for
        let mut j: usize = 0;
        while j < way.len()
            invariant
                j <= way@.len(),
                self.wf(),
                whole == Some(way@),
                whole == way_back(before, reached@, last@, source as int, sink as int, n as int),
                reached@[sink as int],
                before == old(self).spec_arcs(),
                n == old(self).spec_nodes(),
                self.arcs@ == before,
                n == self.spec_nodes(),
                self.spec_nodes() == old(self).spec_nodes(),
                is_way(before, way@, stops),
                stops[0] == sink,
                stops.last() == source,
                sink != source,
                forall|x: int, y: int|
                    #![trigger way@[x], way@[y]]
                    0 <= x < y < j ==> way@[x].arc != way@[y].arc,
            decreases way.len() - j,
        {
            let mut i: usize = 0;
            while i < j
                invariant
                    i <= j < way@.len(),
                    self.wf(),
                    whole == Some(way@),
                    whole == way_back(before, reached@, last@, source as int, sink as int, n as int),
                    reached@[sink as int],
                    before == old(self).spec_arcs(),
                    n == old(self).spec_nodes(),
                    self.arcs@ == before,
                    n == self.spec_nodes(),
                    self.spec_nodes() == old(self).spec_nodes(),
                    is_way(before, way@, stops),
                    stops[0] == sink,
                    stops.last() == source,
                    sink != source,
                    forall|x: int, y: int|
                        #![trigger way@[x], way@[y]]
                        0 <= x < y < j ==> way@[x].arc != way@[y].arc,
                    forall|x: int| 0 <= x < i ==> (#[trigger] way@[x]).arc != way@[j as int].arc,
                decreases j - i,
            {
                if way[i].arc == way[j].arc {
                    assert(!no_arc_twice(way@)) by {
                        assert(way@[i as int].arc == way@[j as int].arc);
                    }
                    return false;
                }
                i += 1;
            }
            j += 1;
        }
        assert(no_arc_twice(way@));
        let mut j: usize = 0;
        while j < way.len()
            invariant
                j <= way@.len(),
                self.wf(),
                n == self.spec_nodes(),
                self.arcs@ == pushed(before, way@, j as int),
                same_arcs(self.arcs@, before),
                is_way(before, way@, stops),
                stops[0] == sink,
                stops.last() == source,
                sink != source,
                forall|x: int, y: int|
                    #![trigger way@[x], way@[y]]
                    0 <= x < y < way@.len() ==> way@[x].arc != way@[y].arc,
                forall|x: int|
                    j <= x < way@.len() ==> self.arcs@[(#[trigger] way@[x]).arc as int]
                        == before[way@[x].arc as int],
                forall|v: int| #[trigger]
                    excess(self.arcs@, v, before.len() as int) == excess(
                        before,
                        v,
                        before.len() as int,
                    ) + (if v == sink {
                        1int
                    } else {
                        0
                    }) - (if v == stops[j as int] {
                        1int
                    } else {
                        0
                    }),
            decreases way.len() - j,
        {
            let s = way[j];
            assert(goes(before, way@[j as int], stops[j + 1], stops[j as int]));
            let a = self.arcs[s.arc];
            assert(a == before[s.arc as int]);
            let ghost earlier = self.arcs@;
            let b = if s.forward {
                FlowArc { flow: a.flow + 1, ..a }
            } else {
                FlowArc { flow: (a.flow - 1) as u64, ..a }
            };
            self.arcs.set(s.arc, b);
            proof {
                assert(b == stepped(a, s.forward));
                assert(self.arcs@ == pushed(before, way@, j + 1));
                assert forall|i: int| 0 <= i < self.arcs@.len() implies {
                    &&& (#[trigger] self.arcs@[i]).from < n
                    &&& self.arcs@[i].to < n
                    &&& self.arcs@[i].flow <= self.arcs@[i].capacity
                } by {
                    assert(earlier[i].from < n);
                }
                assert forall|i: int| 0 <= i < self.arcs@.len() implies {
                    &&& (#[trigger] self.arcs@[i]).from == before[i].from
                    &&& self.arcs@[i].to == before[i].to
                    &&& self.arcs@[i].capacity == before[i].capacity
                    &&& self.arcs@[i].cost == before[i].cost
                } by {
                    assert(earlier[i].from == before[i].from);
                }
                assert forall|x: int| j + 1 <= x < way@.len() implies self.arcs@[(
                #[trigger] way@[x]).arc as int] == before[way@[x].arc as int] by {
                    assert(way@[j as int].arc != way@[x].arc);
                }
                assert forall|v: int| #[trigger]
                    excess(self.arcs@, v, before.len() as int) == excess(
                        before,
                        v,
                        before.len() as int,
                    ) + (if v == sink {
                        1int
                    } else {
                        0
                    }) - (if v == stops[j + 1] {
                        1int
                    } else {
                        0
                    }) by {
                    lemma_excess_update(earlier, s.arc as int, b, v, before.len() as int);
                    assert(self.arcs@ == earlier.update(s.arc as int, b));
                    assert(excess(earlier, v, before.len() as int) == excess(
                        before,
                        v,
                        before.len() as int,
                    ) + (if v == sink {
                        1int
                    } else {
                        0
                    }) - (if v == stops[j as int] {
                        1int
                    } else {
                        0
                    }));
                }
            }
            j += 1;
        }
        proof {
            assert(self.arcs@.len() == before.len());
            assert(stops[way@.len() as int] == source);
            assert(whole == Some(way@));
        }
        true
    }

    /// Sends flow from `source` to `sink`, unit by unit along the cheapest
    /// way that is left, for as long as a unit more makes the flow cheaper,
    /// and no more than `limit` units. Gives the number of units sent; no
    /// node between the two gains or loses by them.
    pub fn send_while_cheaper(&mut self, source: usize, sink: usize, limit: u64) -> (units: u64)
        requires
            old(self).wf(),
            source < old(self).spec_nodes(),
            sink < old(self).spec_nodes(),
        ensures
            final(self).wf(),
            final(self).spec_nodes() == old(self).spec_nodes(),
            same_arcs(final(self).spec_arcs(), old(self).spec_arcs()),
            units <= limit,
            sent_through(
                old(self).spec_arcs(),
                final(self).spec_arcs(),
                source as int,
                sink as int,
                units as int,
            ),
            source == sink ==> units == 0,
            final(self).spec_arcs() == sent_flow(
                old(self).spec_arcs(),
                old(self).spec_nodes() as int,
                source as int,
                sink as int,
                limit as int,
            ).0,
            units == sent_flow(
                old(self).spec_arcs(),
                old(self).spec_nodes() as int,
                source as int,
                sink as int,
                limit as int,
            ).1,
    {
        let ghost before = self.arcs@;
        let ghost nodes = self.nodes as int;
        let ghost whole = sent_flow(before, nodes, source as int, sink as int, limit as int);
        let mut units: u64 = 0;
        let mut done = false;
        while units < limit && !done
            invariant
                self.wf(),
                self.spec_nodes() == old(self).spec_nodes(),
                nodes == self.spec_nodes(),
                source < self.spec_nodes(),
                sink < self.spec_nodes(),
                same_arcs(self.spec_arcs(), before),
                units <= limit,
                sent_through(before, self.spec_arcs(), source as int, sink as int, units as int),
                source == sink ==> units == 0,
                done ==> next_way(self.spec_arcs(), nodes, source as int, sink as int) is None,
                whole.0 == sent_flow(
                    self.spec_arcs(),
                    nodes,
                    source as int,
                    sink as int,
                    limit - units,
                ).0,
                whole.1 == sent_flow(
                    self.spec_arcs(),
                    nodes,
                    source as int,
                    sink as int,
                    limit - units,
                ).1 + units,
            decreases limit - units + (if done { 0int } else { 1int }),
        {
            let (reached, dist, last) = self.cheapest_ways(source, self.nodes);
            let ghost earlier = self.spec_arcs();
            if !reached[sink] || dist[sink] >= 0 {
                done = true;
            } else if !self.send_unit(source, sink, &reached, &last) {
                done = true;
            } else {
                proof {
                    assert forall|i: int| 0 <= i < self.spec_arcs().len() implies {
                        &&& (#[trigger] self.spec_arcs()[i]).from == before[i].from
                        &&& self.spec_arcs()[i].to == before[i].to
                        &&& self.spec_arcs()[i].capacity == before[i].capacity
                        &&& self.spec_arcs()[i].cost == before[i].cost
                    } by {
                        assert(earlier[i].from == before[i].from);
                    }
                    assert(sent_through(earlier, self.spec_arcs(), source as int, sink as int, 1));
                    assert forall|v: int| #[trigger]
                        excess(self.spec_arcs(), v, self.spec_arcs().len() as int) == excess(
                            before,
                            v,
                            before.len() as int,
                        ) + (if v == sink {
                            units + 1
                        } else {
                            0
                        }) - (if v == source {
                            units + 1
                        } else {
                            0
                        }) by {
                        assert(excess(earlier, v, earlier.len() as int) == excess(
                            before,
                            v,
                            before.len() as int,
                        ) + (if v == sink {
                            units as int
                        } else {
                            0
                        }) - (if v == source {
                            units as int
                        } else {
                            0
                        }));
                    }
                    let way = next_way(earlier, nodes, source as int, sink as int);
                    assert(way is Some);
                    assert(self.spec_arcs() == pushed(earlier, way->Some_0, way->Some_0.len() as int));
                }
                units += 1;
            }
        }
        units
    }

    /// The first arc out of a node that carries flow.
    pub fn flowing_out_of(&self, node: usize) -> (r: Option<usize>)
        ensures
            r matches Some(i) ==> i < self.spec_arcs().len() && self.spec_arcs()[i as int].from
                == node && self.spec_arcs()[i as int].flow > 0,
            r is None ==> forall|i: int|
                0 <= i < self.spec_arcs().len() ==> !((#[trigger] self.spec_arcs()[i]).from == node
                    && self.spec_arcs()[i].flow > 0),
            match r {
                Some(i) => i == first_flowing(self.spec_arcs(), node as int, 0),
                None => first_flowing(self.spec_arcs(), node as int, 0) == self.spec_arcs().len(),
            },
    {
        let mut i: usize = 0;
        while i < self.arcs.len()
            invariant
                i <= self.arcs.len(),
                forall|j: int|
                    0 <= j < i ==> !((#[trigger] self.spec_arcs()[j]).from == node
                        && self.spec_arcs()[j].flow > 0),
                first_flowing(self.spec_arcs(), node as int, 0) == first_flowing(
                    self.spec_arcs(),
                    node as int,
                    i as int,
                ),
            decreases self.arcs.len() - i,
        {
            if self.arcs[i].from == node && self.arcs[i].flow > 0 {
                return Some(i);
            }
            i += 1;
        }
        None
    }
}

} // verus!
