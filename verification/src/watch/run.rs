//! The course of a watch: what is done next, and when old samples are dropped.
//!
//! A time is an integer that orders as the moments do.

use vstd::prelude::*;

verus! {

/// What is done next.
#[derive(Debug, Clone, Copy, PartialEq, Eq, Structural)]
pub enum Step {
    /// Take a sample and wait.
    Sample,
    /// Say that the root is gone, and stop.
    RootGone,
    /// Stop.
    Stop,
}

/// What is done next: the watch goes on as long as nobody asked it to stop and its root runs.
pub fn next_step(running: bool, root_runs: bool) -> (r: Step)
    ensures
        r == Step::Stop <==> !running,
        r == Step::RootGone <==> running && !root_runs,
        r == Step::Sample <==> running && root_runs,
{
    if !running {
        Step::Stop
    } else if root_runs {
        Step::Sample
    } else {
        Step::RootGone
    }
}

/// The time from which on old samples are dropped again.
#[derive(Debug)]
pub struct PruneTimer {
    next: u64,
}

impl View for PruneTimer {
    type V = u64;

    closed spec fn view(&self) -> u64 {
        self.next
    }
}

impl PruneTimer {
    /// Samples are dropped from the given time on.
    pub fn new(next: u64) -> (r: Self)
        ensures
            r@ == next,
    {
        PruneTimer { next }
    }

    /// Whether old samples are dropped now. Where they are, they are not dropped again before
    /// `later`.
    pub fn is_due(&mut self, now: u64, later: u64) -> (r: bool)
        ensures
            r == (now >= old(self)@),
            final(self)@ == if r {
                later
            } else {
                old(self)@
            },
    {
        if now >= self.next {
            self.next = later;
            true
        } else {
            false
        }
    }
}

} // verus!
