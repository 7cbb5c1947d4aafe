//! A path is a chain that covers something. Unlike a tour it need not start
//! or end at a depot, though it may: a start depot can only be its first
//! node and an end depot only its last.

use vstd::prelude::*;
use crate::base_types::NodeIdx;
use crate::chain::{chain_fault, check_chain, copy_range, covers_something, has_non_depot, is_chain, lemma_chain_subrange, TourError};
use crate::network::Network;

verus! {

pub struct Path {
    node_sequence: Vec<NodeIdx>,
}

impl View for Path {
    type V = Seq<NodeIdx>;

    closed spec fn view(&self) -> Seq<NodeIdx> {
        self.node_sequence@
    }
}

/// Whether `s` is the node sequence of a path of the network.
pub open spec fn is_path(nw: &Network, s: Seq<NodeIdx>) -> bool {
    is_chain(nw, s) && covers_something(s)
}

impl Clone for Path {
    fn clone(&self) -> (r: Path)
        ensures
            r@ == self@,
    {
        let v = copy_range(&self.node_sequence, 0, self.node_sequence.len());
        assert(self.node_sequence@.subrange(0, self.node_sequence@.len() as int)
            =~= self.node_sequence@);
        Path { node_sequence: v }
    }
}

impl Path {
    pub open spec fn wf(&self, nw: &Network) -> bool {
        is_path(nw, self@)
    }

    /// Makes a path of a sequence of nodes: fails where the sequence is no
    /// chain, and gives no path where it covers nothing.
    pub fn new(node_sequence: Vec<NodeIdx>, nw: &Network) -> (r: Result<Option<Path>, TourError>)
        requires
            nw.wf(),
        ensures
            match r {
                Ok(Some(p)) => p@ == node_sequence@ && p.wf(nw),
                Ok(None) => is_chain(nw, node_sequence@) && !covers_something(node_sequence@),
                Err(e) => chain_fault(nw, node_sequence@) == Some(e),
            },
    {
        match check_chain(&node_sequence, nw) {
            Some(e) => Err(e),
            None => Ok(Path::new_trusted(node_sequence, nw)),
        }
    }

    /// Makes a path of a sequence of nodes that is known to be a chain, and
    /// gives no path where it covers nothing.
    pub fn new_trusted(node_sequence: Vec<NodeIdx>, nw: &Network) -> (r: Option<Path>)
        requires
            is_chain(nw, node_sequence@),
        ensures
            r.is_some() == covers_something(node_sequence@),
            r.is_some() ==> r.unwrap()@ == node_sequence@ && r.unwrap().wf(nw),
    {
        if has_non_depot(&node_sequence) {
            Some(Path { node_sequence })
        } else {
            None
        }
    }

    pub fn new_from_single_node(node: NodeIdx, nw: &Network) -> (p: Path)
        requires
            nw.coverable(node),
        ensures
            p@ == seq![node],
            p.wf(nw),
    {
        let mut node_sequence: Vec<NodeIdx> = Vec::new();
        node_sequence.push(node);
        proof {
            assert(node_sequence@ =~= seq![node]);
            assert(!node_sequence@[0].is_depot());
        }
        Path { node_sequence }
    }

    /// The nodes of the path in their order.
    pub fn iter(&self) -> (r: &Vec<NodeIdx>)
        ensures
            r@ == self@,
    {
        &self.node_sequence
    }

    pub fn length(&self) -> (n: usize)
        ensures
            n == self@.len(),
    {
        self.node_sequence.len()
    }

    pub fn first(&self) -> (n: NodeIdx)
        requires
            self@.len() > 0,
        ensures
            n == self@[0],
    {
        self.node_sequence[0]
    }

    pub fn last(&self) -> (n: NodeIdx)
        requires
            self@.len() > 0,
        ensures
            n == self@.last(),
    {
        self.node_sequence[self.node_sequence.len() - 1]
    }

    pub fn consume(self) -> (r: Vec<NodeIdx>)
        ensures
            r@ == self@,
    {
        self.node_sequence
    }

    /// The path without its first node; none if nothing is covered then.
    pub fn drop_first(&self, nw: &Network) -> (r: Option<Path>)
        requires
            self.wf(nw),
        ensures
            r.is_some() == covers_something(self@.subrange(1, self@.len() as int)),
            r.is_some() ==> r.unwrap()@ == self@.subrange(1, self@.len() as int)
                && r.unwrap().wf(nw),
    {
        proof {
            lemma_chain_subrange(nw, self@, 1, self@.len() as int);
        }
        Path::new_trusted(copy_range(&self.node_sequence, 1, self.node_sequence.len()), nw)
    }

    /// The path without its last node; none if nothing is covered then.
    pub fn drop_last(&self, nw: &Network) -> (r: Option<Path>)
        requires
            self.wf(nw),
        ensures
            r.is_some() == covers_something(self@.drop_last()),
            r.is_some() ==> r.unwrap()@ == self@.drop_last() && r.unwrap().wf(nw),
    {
        proof {
            lemma_chain_subrange(nw, self@, 0, self@.len() - 1);
        }
        Path::new_trusted(copy_range(&self.node_sequence, 0, self.node_sequence.len() - 1), nw)
    }
}

} // verus!
