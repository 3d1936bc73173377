//! A minimal monotonic timestamp source for one process.

use vstd::prelude::*;

verus! {

/// Hands out strictly increasing timestamps.
#[derive(Debug)]
pub struct Tso {
    next: u64,
}

impl Tso {
    /// The timestamp that the next call of [`Tso::now`] hands out.
    pub closed spec fn upcoming(&self) -> u64 {
        self.next
    }

    /// Start issuing timestamps from 1 (0 is reserved as "before everything").
    pub fn new() -> (t: Tso)
        ensures
            t.upcoming() == 1,
    {
        Tso { next: 1 }
    }

    /// Allocate the next timestamp. The counter wraps around at the end of its range.
    pub fn now(&mut self) -> (ts: u64)
        ensures
            ts == old(self).upcoming(),
            final(self).upcoming() == if ts == u64::MAX {
                0
            } else {
                (ts + 1) as u64
            },
    {
        let ts: u64 = self.next;
        self.next = ts.wrapping_add(1);
        ts
    }
}

impl Default for Tso {
    fn default() -> (t: Self)
        ensures
            t.upcoming() == 1,
    {
        Tso::new()
    }
}

} // verus!
