use vstd::prelude::*;

verus! {

/// The queue a process was dispatched from or sent back to.
#[derive(Clone, Copy, Debug, PartialEq, Eq, Structural)]
pub enum Tier {
    /// The single ready queue of a one-level policy.
    Ready,
    /// The high level of the feedback queue.
    High,
    /// The low level of the feedback queue.
    Low,
}

/// One entry of a simulation's log.
#[derive(Clone, Copy, Debug, PartialEq, Eq, Structural)]
pub enum Event {
    /// No process was ready from `time` for `length` units.
    Idle { time: u64, length: u64 },
    /// `pid` is dispatched at `time` for `run` units, with `remaining` units of
    /// work left before the slice.
    Start { time: u64, pid: usize, run: u32, remaining: u32, tier: Tier },
    /// `pid` was interrupted at `time` with `remaining` units left and went to
    /// the back of queue `tier`.
    Preempted { time: u64, pid: usize, remaining: u32, tier: Tier },
    /// `pid` completed at `time`.
    Finished { time: u64, pid: usize },
}

impl Event {
    /// The timestamp of an event.
    pub open spec fn at(self) -> u64 {
        match self {
            Event::Idle { time, .. } => time,
            Event::Start { time, .. } => time,
            Event::Preempted { time, .. } => time,
            Event::Finished { time, .. } => time,
        }
    }

    /// The timestamp of an event.
    pub fn timestamp(&self) -> (r: u64)
        ensures
            r == self.at(),
    {
        match self {
            Event::Idle { time, .. } => *time,
            Event::Start { time, .. } => *time,
            Event::Preempted { time, .. } => *time,
            Event::Finished { time, .. } => *time,
        }
    }
}

} // verus!
