//! The timer service: the countdown of every delayed edge that is armed, and
//! the event that waits for it.
//!
//! A timer here counts as the `Timer` of `bevy_time` does when it runs once
//! and is never paused. That behaviour is three cases long (see [`ticked`]):
//! a finished timer stays as it is, a running timer adds the time passed,
//! and it finishes, exactly once, when its duration is reached. The timer
//! therefore holds its four values itself, in whole nanoseconds, and `tick`
//! is proved against `ticked`.
use crate::events::Event;
use vstd::prelude::*;

verus! {

/// A timer that runs once. Times are in nanoseconds.
#[derive(Clone, Copy, Debug, PartialEq, Eq, Structural)]
pub struct EdgeTimer {
    /// The time that has passed, at most `duration`.
    pub elapsed: u64,
    /// The time after which the timer finishes.
    pub duration: u64,
    /// Whether the timer has finished.
    pub finished: bool,
    /// Whether the timer finished in the last tick.
    pub just_finished: bool,
}

/// The sum of two times, held at the largest time.
pub open spec fn add_time(a: u64, b: u64) -> u64 {
    if a + b > u64::MAX {
        u64::MAX
    } else {
        (a + b) as u64
    }
}

/// The timer after `delta` has passed. A finished timer stays as it is and
/// no longer counts as just finished; a running timer finishes, exactly
/// once, when the time passed reaches its duration.
pub open spec fn ticked(t: EdgeTimer, delta: u64) -> EdgeTimer {
    if t.finished {
        EdgeTimer { just_finished: false, ..t }
    } else if add_time(t.elapsed, delta) >= t.duration {
        EdgeTimer { elapsed: t.duration, duration: t.duration, finished: true, just_finished: true }
    } else {
        EdgeTimer {
            elapsed: add_time(t.elapsed, delta),
            duration: t.duration,
            finished: false,
            just_finished: false,
        }
    }
}

/// A timer of the given duration on which no time has passed.
pub open spec fn fresh_timer(duration: u64) -> EdgeTimer {
    EdgeTimer { elapsed: 0, duration, finished: false, just_finished: false }
}

impl EdgeTimer {
    /// A timer of the given duration on which no time has passed.
    pub fn new(duration: u64) -> (t: EdgeTimer)
        ensures
            t == fresh_timer(duration),
    {
        EdgeTimer { elapsed: 0, duration, finished: false, just_finished: false }
    }

    /// Lets `delta` pass.
    pub fn tick(&mut self, delta: u64)
        ensures
            *final(self) == ticked(*old(self), delta),
    {
        if self.finished {
            self.just_finished = false;
            return ;
        }
        let passed = if delta > u64::MAX - self.elapsed {
            u64::MAX
        } else {
            self.elapsed + delta
        };
        if passed >= self.duration {
            self.elapsed = self.duration;
            self.finished = true;
            self.just_finished = true;
        } else {
            self.elapsed = passed;
            self.just_finished = false;
        }
    }

    /// Whether the timer finished in the last tick.
    pub fn just_finished(&self) -> (b: bool)
        ensures
            b == self.just_finished,
    {
        self.just_finished
    }
}

/// An event that waits on an edge for the edge's timer.
#[derive(Clone, Copy, Debug, PartialEq, Eq, Structural)]
pub struct PendingEvent {
    /// The event that armed the timer.
    pub event: Event,
}

/// What the timer service holds: by edge, the running timer and the waiting
/// event.
pub struct TimersView {
    /// The running timers, by edge.
    pub timers: Map<usize, EdgeTimer>,
    /// The waiting events, by edge.
    pub pending: Map<usize, Event>,
}

/// The timers and waiting events of a chart, by edge.
pub struct TimerService {
    timers: Vec<Option<EdgeTimer>>,
    pending: Vec<Option<PendingEvent>>,
}

/// The timer of edge `e`, if one is armed.
pub open spec fn timer_of(v: TimersView, e: usize) -> Option<EdgeTimer> {
    if v.timers.dom().contains(e) {
        Some(v.timers[e])
    } else {
        None
    }
}

/// The event that waits on edge `e`, if there is one.
pub open spec fn pending_of(v: TimersView, e: usize) -> Option<Event> {
    if v.pending.dom().contains(e) {
        Some(v.pending[e])
    } else {
        None
    }
}

impl View for TimerService {
    type V = TimersView;

    closed spec fn view(&self) -> TimersView {
        TimersView {
            timers: Map::new(
                |e: usize| e < self.timers@.len() && self.timers@[e as int] is Some,
                |e: usize| self.timers@[e as int]->0,
            ),
            pending: Map::new(
                |e: usize| e < self.pending@.len() && self.pending@[e as int] is Some,
                |e: usize| self.pending@[e as int]->0.event,
            ),
        }
    }
}

impl TimerService {
    /// A service without timers or waiting events.
    pub fn new() -> (s: TimerService)
        ensures
            s@.timers == Map::<usize, EdgeTimer>::empty(),
            s@.pending == Map::<usize, Event>::empty(),
    {
        let s = TimerService { timers: Vec::new(), pending: Vec::new() };
        proof {
            assert(s@.timers =~= Map::<usize, EdgeTimer>::empty());
            assert(s@.pending =~= Map::<usize, Event>::empty());
        }
        s
    }

    /// The timer of edge `e`, if one is armed.
    pub fn timer(&self, e: usize) -> (t: Option<EdgeTimer>)
        ensures
            t == timer_of(self@, e),
    {
        if e < self.timers.len() {
            self.timers[e]
        } else {
            None
        }
    }

    /// The event that waits on edge `e`, if there is one.
    pub fn pending(&self, e: usize) -> (p: Option<Event>)
        ensures
            p == pending_of(self@, e),
    {
        if e < self.pending.len() {
            match self.pending[e] {
                Some(p) => Some(p.event),
                None => None,
            }
        } else {
            None
        }
    }

    /// Puts `timer` on edge `e`, in place of an earlier one.
    pub fn set_timer(&mut self, e: usize, timer: EdgeTimer)
        ensures
            final(self)@.timers == old(self)@.timers.insert(e, timer),
            final(self)@.pending == old(self)@.pending,
    {
        while self.timers.len() <= e
            invariant
                self@ == old(self)@,
            decreases e + 1 - self.timers.len(),
        {
            let ghost before = self@;
            self.timers.push(None);
            proof {
                assert(self@.timers =~= before.timers);
                assert(self@.pending =~= before.pending);
            }
        }
        self.timers.set(e, Some(timer));
        proof {
            assert(self@.timers =~= old(self)@.timers.insert(e, timer));
            assert(self@.pending =~= old(self)@.pending);
        }
    }

    /// Arms edge `e` with a fresh timer of the given duration.
    pub fn arm(&mut self, e: usize, duration: u64)
        ensures
            final(self)@.timers == old(self)@.timers.insert(e, fresh_timer(duration)),
            final(self)@.pending == old(self)@.pending,
    {
        self.set_timer(e, EdgeTimer::new(duration));
    }

    /// Takes the timer off edge `e`.
    pub fn cancel(&mut self, e: usize)
        ensures
            final(self)@.timers == old(self)@.timers.remove(e),
            final(self)@.pending == old(self)@.pending,
    {
        if e < self.timers.len() {
            self.timers.set(e, None);
        }
        proof {
            assert(self@.timers =~= old(self)@.timers.remove(e));
            assert(self@.pending =~= old(self)@.pending);
        }
    }

    /// Lets `event` wait on edge `e`, in place of an earlier one.
    pub fn set_pending(&mut self, e: usize, event: Event)
        ensures
            final(self)@.pending == old(self)@.pending.insert(e, event),
            final(self)@.timers == old(self)@.timers,
    {
        while self.pending.len() <= e
            invariant
                self@ == old(self)@,
            decreases e + 1 - self.pending.len(),
        {
            let ghost before = self@;
            self.pending.push(None);
            proof {
                assert(self@.timers =~= before.timers);
                assert(self@.pending =~= before.pending);
            }
        }
        self.pending.set(e, Some(PendingEvent { event }));
        proof {
            assert(self@.pending =~= old(self)@.pending.insert(e, event));
            assert(self@.timers =~= old(self)@.timers);
        }
    }

    /// Takes timer and waiting event off edge `e`.
    pub fn cleanup(&mut self, e: usize)
        ensures
            final(self)@.timers == old(self)@.timers.remove(e),
            final(self)@.pending == old(self)@.pending.remove(e),
    {
        if e < self.timers.len() {
            self.timers.set(e, None);
        }
        if e < self.pending.len() {
            self.pending.set(e, None);
        }
        proof {
            assert(self@.timers =~= old(self)@.timers.remove(e));
            assert(self@.pending =~= old(self)@.pending.remove(e));
        }
    }
}

} // verus!
