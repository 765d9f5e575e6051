//! The deferral queue: events that a state holds back while it is active.
use crate::events::Event;
use vstd::prelude::*;

verus! {

/// A buffer for one type of event on one state. It holds at most one event:
/// a later event takes the place of an earlier one.
#[derive(Clone, Copy, Debug, PartialEq, Eq, Structural)]
pub struct DeferEvent {
    /// The type of event that the buffer holds back.
    pub kind: u64,
    /// The event held back, if any.
    pub deferred: Option<Event>,
}

impl DeferEvent {
    /// An empty buffer for events of type `kind`.
    pub fn new(kind: u64) -> (d: DeferEvent)
        ensures
            d == (DeferEvent { kind, deferred: None }),
    {
        DeferEvent { kind, deferred: None }
    }

    /// Holds `event` back, in place of an earlier one.
    pub fn defer_event(&mut self, event: Event)
        ensures
            *final(self) == (DeferEvent { kind: old(self).kind, deferred: Some(event) }),
    {
        self.deferred = Some(event);
    }

    /// Hands out the event held back and empties the buffer.
    pub fn take_deferred(&mut self) -> (e: Option<Event>)
        ensures
            e == old(self).deferred,
            *final(self) == (DeferEvent { kind: old(self).kind, deferred: None }),
    {
        let e = self.deferred;
        self.deferred = None;
        e
    }
}

/// The buffers of a chart, by state.
pub struct DeferralQueue {
    slots: Vec<Vec<DeferEvent>>,
}

/// The buffers of state `s`, in the order in which they were added.
pub open spec fn buffers_of(q: Seq<Seq<DeferEvent>>, s: usize) -> Seq<DeferEvent> {
    if s < q.len() {
        q[s as int]
    } else {
        Seq::empty()
    }
}

/// Whether one of the buffers is for events of type `kind`.
pub open spec fn defers(bufs: Seq<DeferEvent>, kind: u64) -> bool {
    exists|i: int| 0 <= i < bufs.len() && (#[trigger] bufs[i]).kind == kind
}

/// The buffers after `event` was handed to them: every buffer for the
/// event's type holds the event, the others are as before.
pub open spec fn after_defer(bufs: Seq<DeferEvent>, event: Event) -> Seq<DeferEvent> {
    bufs.map_values(
        |b: DeferEvent|
            if b.kind == event.kind {
                DeferEvent { kind: b.kind, deferred: Some(event) }
            } else {
                b
            },
    )
}

/// The events that the buffers hold back, in the order of the buffers.
pub open spec fn held(bufs: Seq<DeferEvent>) -> Seq<Event>
    decreases bufs.len(),
{
    if bufs.len() == 0 {
        Seq::empty()
    } else {
        match bufs.last().deferred {
            Some(e) => held(bufs.drop_last()).push(e),
            None => held(bufs.drop_last()),
        }
    }
}

/// The events, each addressed to `root`.
pub open spec fn readdressed(events: Seq<Event>, root: usize) -> Seq<Event> {
    events.map_values(|e: Event| Event { target: root, ..e })
}

/// The buffers, emptied.
pub open spec fn emptied(bufs: Seq<DeferEvent>) -> Seq<DeferEvent> {
    bufs.map_values(|b: DeferEvent| DeferEvent { kind: b.kind, deferred: None })
}

/// The queue after `event` was handed to the buffers of state `s`.
pub open spec fn defer_in(q: Seq<Seq<DeferEvent>>, s: usize, event: Event) -> Seq<Seq<DeferEvent>> {
    if s < q.len() {
        q.update(s as int, after_defer(q[s as int], event))
    } else {
        q
    }
}

/// The queue after the buffers of state `s` were emptied.
pub open spec fn take_in(q: Seq<Seq<DeferEvent>>, s: usize) -> Seq<Seq<DeferEvent>> {
    if s < q.len() {
        q.update(s as int, emptied(q[s as int]))
    } else {
        q
    }
}

impl View for DeferralQueue {
    type V = Seq<Seq<DeferEvent>>;

    closed spec fn view(&self) -> Seq<Seq<DeferEvent>> {
        self.slots@.map_values(|v: Vec<DeferEvent>| v@)
    }
}

impl DeferralQueue {
    /// A queue without buffers.
    pub fn new() -> (q: DeferralQueue)
        ensures
            q@.len() == 0,
    {
        DeferralQueue { slots: Vec::new() }
    }

    /// Gives state `s` a buffer for events of type `kind`, unless it has one.
    pub fn add_buffer(&mut self, s: usize, kind: u64)
        ensures
            buffers_of(final(self)@, s) == if defers(buffers_of(old(self)@, s), kind) {
                buffers_of(old(self)@, s)
            } else {
                buffers_of(old(self)@, s).push(DeferEvent { kind, deferred: None })
            },
            forall|x: usize| x != s ==> #[trigger] buffers_of(final(self)@, x) == buffers_of(old(self)@, x),
    {
        while self.slots.len() <= s
            invariant
                forall|x: usize| #[trigger] buffers_of(self@, x) == buffers_of(old(self)@, x),
            decreases s + 1 - self.slots.len(),
        {
            let ghost before = self@;
            let ghost slots = self.slots@;
            self.slots.push(Vec::new());
            proof {
                assert forall|x: usize| #[trigger] buffers_of(self@, x) == buffers_of(before, x) by {
                    if x < slots.len() {
                        assert(self.slots@[x as int] == slots[x as int]);
                    } else if x == slots.len() {
                        assert(self.slots@[x as int]@ =~= Seq::<DeferEvent>::empty());
                    }
                }
            }
        }
        let ghost mid = self@;
        let ghost slots = self.slots@;
        assert(buffers_of(mid, s) == buffers_of(old(self)@, s));
        let found = self.has_buffer(s, kind);
        if !found {
            self.slots[s].push(DeferEvent::new(kind));
        }
        proof {
            assert forall|x: usize| x != s implies #[trigger] buffers_of(self@, x) == buffers_of(
                old(self)@,
                x,
            ) by {
                assert(buffers_of(mid, x) == buffers_of(old(self)@, x));
                if x < slots.len() {
                    assert(self.slots@[x as int] == slots[x as int]);
                }
            }
        }
    }

    /// Whether state `s` has a buffer for events of type `kind`.
    pub fn has_buffer(&self, s: usize, kind: u64) -> (b: bool)
        ensures
            b == defers(buffers_of(self@, s), kind),
    {
        if s >= self.slots.len() {
            return false;
        }
        let bufs = &self.slots[s];
        let mut i: usize = 0;
        while i < bufs.len()
            invariant
                i <= bufs.len(),
                bufs@ == buffers_of(self@, s),
                forall|j: int| 0 <= j < i ==> (#[trigger] bufs@[j]).kind != kind,
            decreases bufs.len() - i,
        {
            if bufs[i].kind == kind {
                return true;
            }
            i = i + 1;
        }
        false
    }

    /// Hands `event` to the buffers of state `s`: every buffer for the
    /// event's type holds it afterwards.
    pub fn defer(&mut self, s: usize, event: Event)
        ensures
            final(self)@ == defer_in(old(self)@, s, event),
    {
        if s >= self.slots.len() {
            return ;
        }
        let ghost slots = self.slots@;
        let n = self.slots[s].len();
        let mut i: usize = 0;
        while i < n
            invariant
                s < self.slots@.len(),
                self.slots@.len() == slots.len(),
                n == slots[s as int]@.len(),
                self.slots@[s as int]@.len() == n,
                i <= n,
                forall|x: int| 0 <= x < slots.len() && x != s ==> self.slots@[x] == slots[x],
                forall|j: int|
                    0 <= j < i ==> #[trigger] self.slots@[s as int]@[j] == after_defer(
                        slots[s as int]@,
                        event,
                    )[j],
                forall|j: int| i <= j < n ==> #[trigger] self.slots@[s as int]@[j] == slots[s as int]@[j],
            decreases n - i,
        {
            if self.slots[s][i].kind == event.kind {
                self.slots[s][i].deferred = Some(event);
            }
            i = i + 1;
        }
        proof {
            assert(self.slots@[s as int]@ =~= after_defer(slots[s as int]@, event));
            assert(self@ =~= defer_in(old(self)@, s, event));
        }
    }

    /// Hands out the events that state `s` holds back, in the order of its
    /// buffers, and empties the buffers.
    pub fn take(&mut self, s: usize) -> (events: Vec<Event>)
        ensures
            events@ == held(buffers_of(old(self)@, s)),
            final(self)@ == take_in(old(self)@, s),
    {
        let mut events: Vec<Event> = Vec::new();
        if s >= self.slots.len() {
            return events;
        }
        let ghost slots = self.slots@;
        let n = self.slots[s].len();
        let mut i: usize = 0;
        while i < n
            invariant
                s < self.slots@.len(),
                self.slots@.len() == slots.len(),
                n == slots[s as int]@.len(),
                self.slots@[s as int]@.len() == n,
                i <= n,
                events@ == held(slots[s as int]@.take(i as int)),
                forall|x: int| 0 <= x < slots.len() && x != s ==> self.slots@[x] == slots[x],
                forall|j: int|
                    0 <= j < i ==> #[trigger] self.slots@[s as int]@[j] == emptied(slots[s as int]@)[j],
                forall|j: int| i <= j < n ==> #[trigger] self.slots@[s as int]@[j] == slots[s as int]@[j],
            decreases n - i,
        {
            proof {
                let t1 = slots[s as int]@.take(i + 1);
                assert(t1.drop_last() == slots[s as int]@.take(i as int));
                assert(t1.last() == slots[s as int]@[i as int]);
            }
            match self.slots[s][i].take_deferred() {
                Some(e) => {
                    events.push(e);
                },
                None => {},
            }
            i = i + 1;
        }
        proof {
            assert(slots[s as int]@.take(n as int) == slots[s as int]@);
            assert(self.slots@[s as int]@ =~= emptied(slots[s as int]@));
            assert(self@ =~= take_in(old(self)@, s));
        }
        events
    }
}

} // verus!
