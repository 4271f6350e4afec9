//! Lamport logical clocks: each domain counts its own events and moves past
//! the clock of every message it receives.

use vstd::prelude::*;

verus! {

#[derive(Debug, Clone, Copy, PartialEq, Eq, Structural, PartialOrd, Ord)]
pub struct LogicalClock {
    pub tick: u64,
}

/// The clock value after receiving a message stamped `incoming` at a clock
/// that reads `current`: one past the larger of the two stamps seen, unless
/// the local clock is already ahead.
pub open spec fn after_receive(current: u64, incoming: u64) -> int {
    if incoming >= current { incoming + 1 } else { current as int }
}

impl LogicalClock {
    /// A clock at zero.
    pub fn new() -> (c: Self)
        ensures
            c.tick == 0,
    {
        LogicalClock { tick: 0 }
    }

    /// Counts one local event and returns the new reading.
    pub fn tick(&mut self) -> (t: u64)
        requires
            old(self).tick < u64::MAX,
        ensures
            final(self).tick == old(self).tick + 1,
            t == final(self).tick,
    {
        self.tick = self.tick + 1;
        self.tick
    }

    /// Takes in the stamp of a received message: a stamp at or past the
    /// local reading moves the clock to one past it; an older one leaves the
    /// clock alone.
    pub fn update(&mut self, incoming: u64)
        requires
            incoming >= old(self).tick ==> incoming < u64::MAX,
        ensures
            final(self).tick == after_receive(old(self).tick, incoming),
    {
        if incoming >= self.tick {
            self.tick = incoming + 1;
        }
    }
}

impl Default for LogicalClock {
    fn default() -> (c: Self)
        ensures
            c.tick == 0,
    {
        LogicalClock { tick: 0 }
    }
}

/// A clock never runs backwards: receiving a stamp leaves the reading at
/// least where it was.
pub proof fn lemma_update_monotone(current: u64, incoming: u64)
    ensures
        after_receive(current, incoming) >= current,
{
}

/// After a clock has taken in a stamp, its reading is past that stamp: the
/// receipt, and every event after it, is ordered after the send.
pub proof fn lemma_receive_passes_stamp(current: u64, incoming: u64)
    ensures
        after_receive(current, incoming) > incoming,
{
}

} // verus!
