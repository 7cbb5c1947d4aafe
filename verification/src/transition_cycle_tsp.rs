//! A cycle of a transition together with a text that says how it came
//! about, as the search for good cycles hands it on.

use vstd::prelude::*;
use crate::transition::TransitionCycle;

verus! {

pub struct TransitionCycleWithInfo {
    cycle: TransitionCycle,
    print_text: String,
}

impl TransitionCycleWithInfo {
    pub closed spec fn spec_cycle(&self) -> TransitionCycle {
        self.cycle
    }

    pub closed spec fn spec_print_text(&self) -> Seq<char> {
        self.print_text@
    }

    pub fn new(cycle: TransitionCycle, print_text: String) -> (r: TransitionCycleWithInfo)
        ensures
            r.spec_cycle() == cycle,
            r.spec_print_text() == print_text@,
    {
        TransitionCycleWithInfo { cycle, print_text }
    }

    pub fn get_cycle(&self) -> (r: &TransitionCycle)
        ensures
            *r == self.spec_cycle(),
    {
        &self.cycle
    }

    pub fn unwrap_cycle(self) -> (r: TransitionCycle)
        ensures
            r == self.spec_cycle(),
    {
        self.cycle
    }

    pub fn get_print_text(&self) -> (r: &str)
        ensures
            r@ == self.spec_print_text(),
    {
        self.print_text.as_str()
    }
}

} // verus!
