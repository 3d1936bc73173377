//! The cluster's timestamp oracle: a hybrid logical clock.
//!
//! A single authoritative source of strictly increasing `u64` timestamps. Every start and commit
//! timestamp in the system is drawn from here, so timestamps are globally ordered.
//!
//! ## Hybrid logical clock
//!
//! A timestamp packs a **physical** wall-clock component (milliseconds) in its high bits and a
//! **logical** counter in its low [`LOGICAL_BITS`] bits. Before each allocation the oracle pulls
//! its next timestamp up to the current millisecond, so timestamps **track wall-clock time** while
//! the logical bits absorb many allocations within one millisecond. A wall clock that jumps
//! *backwards* never makes a timestamp regress.
//!
//! ## Restart safety
//!
//! Timestamps are reserved in **windows**: before any timestamp is handed out, an upper watermark
//! above it has been saved. After a restart the oracle resumes at the saved watermark, discarding
//! at most one window of never-used timestamps, but never reusing one.

use vstd::prelude::*;
use crate::bytes;
use crate::pd::clock::{Clock, FnClock, SystemClock};

verus! {

broadcast use bytes::group_be_len;

/// The name of the file that the watermark lives in.
pub const TSO_FILE: &'static str = "tso";

/// How many timestamps to reserve at a time.
pub const WINDOW: u64 = 0x1_0000;

/// Width of the logical (low) component of a timestamp.
pub const LOGICAL_BITS: u32 = 18;

/// How many timestamps there are in one millisecond.
pub const PER_MS: u64 = 0x4_0000;

/// Split a timestamp into its physical milliseconds and its logical counter.
pub fn split(ts: u64) -> (r: (u64, u64))
    ensures
        r.0 == ts / 0x4_0000,
        r.1 == ts % 0x4_0000,
        ts == r.0 * 0x4_0000 + r.1,
{
    (ts / PER_MS, ts % PER_MS)
}

/// Why no timestamp could be handed out.
#[derive(Debug, Clone, Copy, PartialEq, Eq, Structural)]
pub enum TsoError {
    /// The range of timestamps is used up.
    Exhausted,
}

/// The oracle's state.
pub struct TsoView {
    /// Next timestamp to hand out.
    pub next: u64,
    /// Everything below is reserved.
    pub upper: u64,
}

/// The first timestamp of a millisecond. Milliseconds past the top of the range lose their high
/// bits.
pub open spec fn floor(ms: u64) -> u64 {
    ((ms * 0x4_0000) % 0x1_0000_0000_0000_0000) as u64
}

/// An allocation: what is handed out, and the state after it.
#[derive(Debug, Clone, Copy, PartialEq, Eq, Structural)]
pub struct Grant {
    /// The first timestamp.
    pub first: u64,
    /// One past the last.
    pub next: u64,
    /// The watermark, to be saved before anything is handed out where it is new.
    pub upper: u64,
    /// Whether the watermark is new.
    pub fresh: bool,
}

impl TsoView {
    /// What is handed out lies below the watermark.
    pub open spec fn wf(self) -> bool {
        self.next <= self.upper || self.upper == 0
    }

    /// Where the next allocation starts: at the current millisecond, or where the last one ended
    /// if that is later.
    pub open spec fn start(self, ms: u64) -> u64 {
        if floor(ms) > self.next {
            floor(ms)
        } else {
            self.next
        }
    }

    /// The allocation of `count` timestamps (at least one) at a time.
    pub open spec fn grant(self, ms: u64, count: u64) -> Result<Grant, TsoError> {
        let n = if count == 0 {
            1
        } else {
            count as int
        };
        let end = self.start(ms) + n;
        if end <= self.upper {
            Ok(
                Grant {
                    first: self.start(ms),
                    next: end as u64,
                    upper: self.upper,
                    fresh: false,
                },
            )
        } else if end + 0x1_0000 <= u64::MAX {
            Ok(
                Grant {
                    first: self.start(ms),
                    next: end as u64,
                    upper: (end + 0x1_0000) as u64,
                    fresh: true,
                },
            )
        } else {
            Err(TsoError::Exhausted)
        }
    }

    /// The state after an allocation.
    pub open spec fn after(self, g: Result<Grant, TsoError>) -> TsoView {
        match g {
            Ok(g) => TsoView { next: g.next, upper: g.upper },
            Err(_) => self,
        }
    }

    /// The state of an oracle that starts from what its file holds.
    pub open spec fn opened(saved: Option<Seq<u8>>) -> TsoView {
        match saved {
            Some(b) => if b.len() >= 8 {
                TsoView { next: bytes::u64_at(b, 0), upper: bytes::u64_at(b, 0) }
            } else {
                TsoView { next: 1, upper: 0 }
            },
            None => TsoView { next: 1, upper: 0 },
        }
    }
}

/// The outcome of an allocation: its first timestamp, or why there is none.
pub open spec fn first_of(g: Result<Grant, TsoError>) -> Result<u64, TsoError> {
    match g {
        Ok(g) => Ok(g.first),
        Err(e) => Err(e),
    }
}

/// The authoritative timestamp oracle.
pub struct Tso<C: Clock> {
    next: u64,
    upper: u64,
    clock: C,
}

impl<C: Clock> View for Tso<C> {
    type V = TsoView;

    closed spec fn view(&self) -> TsoView {
        TsoView { next: self.next, upper: self.upper }
    }
}

impl<C: Clock> Tso<C> {
    /// Whether the oracle's clock can be read.
    pub closed spec fn ready(&self) -> bool {
        self.clock.ready()
    }

    /// Whether the oracle's clock can say this time.
    pub closed spec fn may_read(&self, ms: u64) -> bool {
        self.clock.may_read(ms)
    }
}

impl Tso<SystemClock> {
    /// An in-memory oracle with no restart safety.
    pub fn ephemeral() -> (t: Tso<SystemClock>)
        ensures
            t@ == TsoView::opened(None),
            t@.wf(),
            t.ready(),
    {
        Tso { next: 1, upper: 0, clock: SystemClock {  } }
    }

    /// A restart-safe oracle from what its watermark file holds. It resumes at the saved
    /// watermark, strictly above every timestamp that was handed out before. Each new watermark
    /// ([`Grant::fresh`]) is to be saved before its grant is accepted.
    pub fn open(saved: Option<&[u8]>) -> (t: Tso<SystemClock>)
        ensures
            t@ == TsoView::opened(
                match saved {
                    Some(b) => Some(b@),
                    None => None,
                },
            ),
            t@.wf(),
            t.ready(),
    {
        let mut next: u64 = 1;
        let mut upper: u64 = 0;
        match saved {
            Some(b) => {
                if b.len() >= 8 {
                    upper = bytes::read_u64(b, 0);
                    next = upper;
                }
            },
            None => {},
        }
        Tso { next, upper, clock: SystemClock {  } }
    }
}

impl<F: Fn() -> u64> Tso<FnClock<F>> {
    /// An in-memory oracle that an explicit clock drives: a function that returns the current
    /// physical time in milliseconds.
    pub fn with_clock(clock: F) -> (t: Tso<FnClock<F>>)
        requires
            call_requires(clock, ()),
        ensures
            t@ == TsoView::opened(None),
            t@.wf(),
            t.ready(),
            forall|ms: u64| #[trigger] t.may_read(ms) == call_ensures(clock, (), ms),
    {
        Tso { next: 1, upper: 0, clock: FnClock { source: clock } }
    }
}

impl<C: Clock> Tso<C> {
    /// What an allocation of `count` (at least 1) contiguous timestamps at a time would be. The
    /// oracle does not change until the grant is accepted, so that its watermark can be saved
    /// first.
    pub fn plan(&self, ms: u64, count: u64) -> (r: Result<Grant, TsoError>)
        ensures
            r == self@.grant(ms, count),
    {
        let n: u64 = if count == 0 {
            1
        } else {
            count
        };
        let floor: u64 = ms.wrapping_mul(PER_MS);
        let start: u64 = if floor > self.next {
            floor
        } else {
            self.next
        };
        if n > u64::MAX - start {
            return Err(TsoError::Exhausted);
        }
        let end: u64 = start + n;
        if end <= self.upper {
            return Ok(Grant { first: start, next: end, upper: self.upper, fresh: false });
        }
        if WINDOW > u64::MAX - end {
            return Err(TsoError::Exhausted);
        }
        Ok(Grant { first: start, next: end, upper: end + WINDOW, fresh: true })
    }

    /// Hand out what was planned.
    pub fn accept(&mut self, g: Grant) -> (first: u64)
        ensures
            first == g.first,
            final(self)@ == (TsoView { next: g.next, upper: g.upper }),
            final(self).ready() == old(self).ready(),
            forall|ms: u64| #[trigger] final(self).may_read(ms) == old(self).may_read(ms),
    {
        self.next = g.next;
        self.upper = g.upper;
        g.first
    }

    /// Allocate `count` (at least 1) contiguous timestamps at a time, returning the first.
    pub fn allocate_at(&mut self, ms: u64, count: u64) -> (r: Result<u64, TsoError>)
        ensures
            r == first_of(old(self)@.grant(ms, count)),
            final(self)@ == old(self)@.after(old(self)@.grant(ms, count)),
            final(self).ready() == old(self).ready(),
            forall|t: u64| #[trigger] final(self).may_read(t) == old(self).may_read(t),
    {
        let g = self.plan(ms, count);
        match g {
            Ok(g) => Ok(self.accept(g)),
            Err(e) => Err(e),
        }
    }

    /// What the clock says.
    pub fn time(&self) -> (ms: u64)
        requires
            self.ready(),
        ensures
            self.may_read(ms),
    {
        self.clock.read()
    }

    /// Allocate `count` (at least 1) contiguous timestamps, returning the first. The range
    /// `[first, first + count)` is reserved for the caller. It starts at the time that the clock
    /// says, or where the last one ended.
    pub fn allocate(&mut self, count: u64) -> (r: Result<u64, TsoError>)
        requires
            old(self).ready(),
        ensures
            exists|ms: u64| #[trigger]
                old(self).may_read(ms) && r == first_of(old(self)@.grant(ms, count))
                    && final(self)@ == old(self)@.after(old(self)@.grant(ms, count)),
            final(self).ready(),
            forall|ms: u64| #[trigger] final(self).may_read(ms) == old(self).may_read(ms),
    {
        let ms: u64 = self.time();
        self.allocate_at(ms, count)
    }

    /// Allocate a single timestamp.
    pub fn now(&mut self) -> (r: Result<u64, TsoError>)
        requires
            old(self).ready(),
        ensures
            exists|ms: u64| #[trigger]
                old(self).may_read(ms) && r == first_of(old(self)@.grant(ms, 1)) && final(self)@
                    == old(self)@.after(old(self)@.grant(ms, 1)),
            final(self).ready(),
            forall|ms: u64| #[trigger] final(self).may_read(ms) == old(self).may_read(ms),
    {
        self.allocate(1)
    }
}

/// Allocations never overlap and never go down, whatever the clock says: each starts at or past
/// the end of the one before.
pub proof fn law_monotonic(t: TsoView, ms: u64, count: u64, later_ms: u64, later_count: u64)
    requires
        t.wf(),
        t.grant(ms, count) is Ok,
        t.after(t.grant(ms, count)).grant(later_ms, later_count) is Ok,
    ensures
        ({
            let a = t.grant(ms, count)->Ok_0;
            let b = t.after(t.grant(ms, count)).grant(later_ms, later_count)->Ok_0;
            &&& a.first >= t.next
            &&& a.next > a.first
            &&& a.next - a.first == if count == 0 {
                1
            } else {
                count as int
            }
            &&& b.first >= a.next
            &&& t.after(t.grant(ms, count)).wf()
        }),
{
}

/// A timestamp is never reissued after a restart: everything that was handed out lies below the
/// saved watermark, and the oracle resumes there.
pub proof fn law_restart(t: TsoView, ms: u64, count: u64, later_ms: u64, later_count: u64)
    requires
        t.wf(),
        t.grant(ms, count) is Ok,
        TsoView::opened(Some(bytes::be64(t.grant(ms, count)->Ok_0.upper))).grant(
            later_ms,
            later_count,
        ) is Ok,
    ensures
        ({
            let a = t.grant(ms, count)->Ok_0;
            let b = TsoView::opened(Some(bytes::be64(a.upper))).grant(
                later_ms,
                later_count,
            )->Ok_0;
            b.first >= a.next
        }),
{
    let a = t.grant(ms, count)->Ok_0;
    let saved = bytes::be64(a.upper);
    assert(saved.subrange(0, 8) =~= saved);
    bytes::lemma_u64_at(saved, 0, a.upper);
}

/// The watermark changes only where it is said to be new, and so is saved.
pub proof fn law_watermark(t: TsoView, ms: u64, count: u64)
    requires
        t.grant(ms, count) is Ok,
    ensures
        t.grant(ms, count)->Ok_0.fresh || t.grant(ms, count)->Ok_0.upper == t.upper,
        t.grant(ms, count)->Ok_0.next <= t.grant(ms, count)->Ok_0.upper,
{
}

/// Timestamps track the wall clock: an allocation is never before the current millisecond.
pub proof fn law_tracks_time(t: TsoView, ms: u64, count: u64)
    requires
        t.grant(ms, count) is Ok,
        ms < 0x4000_0000_0000,
    ensures
        t.grant(ms, count)->Ok_0.first / 0x4_0000 >= ms,
{
    let first = t.grant(ms, count)->Ok_0.first;
    assert(floor(ms) == ms * 0x4_0000);
    assert(first >= ms * 0x4_0000);
    assert(first / 0x4_0000 >= ms) by (nonlinear_arith)
        requires
            first >= ms * 0x4_0000,
    ;
}

} // verus!
