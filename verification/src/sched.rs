//! The poll scheduler: the sole timing authority of the console.
//!
//! On each cooperative tick the scheduler decides whether enough time has
//! elapsed since the last refresh of the connection snapshot and the log
//! buffer. Time is a monotone millisecond counter supplied by the caller.

use vstd::prelude::*;

verus! {

/// Minimum time between two refreshes, in milliseconds.
pub const REFRESH_INTERVAL_MS: u64 = 1000;

pub struct PollScheduler {
    last_refresh: u64,
}

impl PollScheduler {
    /// The instant (in caller-supplied milliseconds) of the last refresh.
    pub closed spec fn last_refresh_spec(self) -> u64 {
        self.last_refresh
    }

    /// A refresh is due when a full interval has elapsed since the last one.
    pub open spec fn due_spec(self, now: u64) -> bool {
        now >= self.last_refresh_spec() + REFRESH_INTERVAL_MS
    }

    /// A fresh scheduler that treats `now` as the moment of the last refresh,
    /// so the first refresh becomes due one full interval later.
    pub fn new(now: u64) -> (s: Self)
        ensures
            s.last_refresh_spec() == now,
    {
        PollScheduler { last_refresh: now }
    }

    /// Reports whether a refresh is due at `now`; when it is, the tick
    /// consumes it by recording `now` as the last refresh. When it is not,
    /// the state is left unchanged.
    pub fn tick(&mut self, now: u64) -> (due: bool)
        ensures
            due == old(self).due_spec(now),
            final(self).last_refresh_spec() == if due {
                now
            } else {
                old(self).last_refresh_spec()
            },
    {
        if now >= self.last_refresh && now - self.last_refresh >= REFRESH_INTERVAL_MS {
            self.last_refresh = now;
            true
        } else {
            false
        }
    }
}

/// Debouncing: two ticks less than one interval apart yield at most one
/// "due" result, whatever state the scheduler started in. `s0` is the state
/// before the first tick and `s1` the state after it, as `tick` leaves it.
pub proof fn lemma_tick_debounce(s0: PollScheduler, s1: PollScheduler, t1: u64, t2: u64)
    requires
        t1 <= t2,
        t2 < t1 + REFRESH_INTERVAL_MS,
        s1.last_refresh_spec() == if s0.due_spec(t1) {
            t1
        } else {
            s0.last_refresh_spec()
        },
    ensures
        !(s0.due_spec(t1) && s1.due_spec(t2)),
{
}

} // verus!
