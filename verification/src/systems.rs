//! Whether the fiscal flows of the current cycle have been prepared.
//!
//! Preparing the fiscal flows is arithmetic on money amounts that the caller
//! performs when these functions say it is due.
use vstd::prelude::*;

verus! {

pub struct SystemsFacade {
    fiscal_prepared: bool,
}

impl SystemsFacade {
    /// Whether the fiscal flows of the current cycle have been prepared.
    pub closed spec fn prepared(self) -> bool {
        self.fiscal_prepared
    }

    pub fn new() -> (r: SystemsFacade)
        ensures
            !r.prepared(),
    {
        SystemsFacade { fiscal_prepared: false }
    }

    /// Whether the fiscal flows must be prepared now: only the first call of
    /// a cycle says so, and marks them prepared.
    pub fn ensure_fiscal_prepared(&mut self) -> (r: bool)
        ensures
            r == !old(self).prepared(),
            final(self).prepared(),
    {
        if self.fiscal_prepared {
            return false;
        }
        self.fiscal_prepared = true;
        true
    }

    /// Ends the fiscal cycle: the next one prepares its flows anew.
    pub fn finish_fiscal_cycle(&mut self)
        ensures
            !final(self).prepared(),
    {
        self.fiscal_prepared = false;
    }

    /// Starts an economic tick: says whether the tick must prepare the fiscal
    /// flows itself (they were not prepared yet), and marks them prepared.
    pub fn begin_economic_tick(&mut self) -> (prepares: bool)
        ensures
            prepares == !old(self).prepared(),
            final(self).prepared(),
    {
        let already = self.fiscal_prepared;
        if !already {
            self.fiscal_prepared = true;
        }
        !already
    }

    /// Ends an economic tick: a tick that prepared the flows itself leaves
    /// them unprepared again; otherwise they stay prepared.
    pub fn end_economic_tick(&mut self, prepared_here: bool)
        requires
            old(self).prepared(),
        ensures
            final(self).prepared() == !prepared_here,
    {
        if prepared_here {
            self.fiscal_prepared = false;
        }
    }
}

} // verus!
