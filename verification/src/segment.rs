//! A segment names a stretch of a tour by its first and its last node.

use vstd::prelude::*;
use crate::base_types::NodeIdx;

verus! {

#[derive(Debug, Clone, Copy, PartialEq, Eq, Structural)]
pub struct Segment {
    pub start: NodeIdx,
    pub end: NodeIdx,
}

impl Segment {
    pub open spec fn spec_start(&self) -> NodeIdx {
        self.start
    }

    pub open spec fn spec_end(&self) -> NodeIdx {
        self.end
    }

    pub fn new(start: NodeIdx, end: NodeIdx) -> (s: Segment)
        ensures
            s.spec_start() == start,
            s.spec_end() == end,
    {
        Segment { start, end }
    }

    #[verifier::when_used_as_spec(spec_start)]
    pub fn start(&self) -> (n: NodeIdx)
        ensures
            n == self.spec_start(),
    {
        self.start
    }

    #[verifier::when_used_as_spec(spec_end)]
    pub fn end(&self) -> (n: NodeIdx)
        ensures
            n == self.spec_end(),
    {
        self.end
    }
}

} // verus!
