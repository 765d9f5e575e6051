//! A chart and its machine, driven one stimulus at a time.
//!
//! Stimuli wait on a stack. A step takes the stimulus on top, lets the
//! engine react to it, and puts what the reaction raises on top of the
//! stack, the first raised stimulus uppermost: the consequences of a
//! stimulus are worked off before the stimulus that was waiting below it.
use crate::deferral::{buffers_of, held, readdressed, take_in, DeferEvent, DeferralQueue};
use crate::dispatch::{
    always_choice, always_edge_listener, edge_event_listener, heard, no_payload, request,
};
use crate::edges::{listed, EdgeTable, EdgeTableView};
use crate::engine::{fire, fire_outcome};
use crate::events::{
    EnterState, Event, ExitState, Notification, Reset, ResetRegion, Transition, TransitionActions,
};
use crate::graph::{StateGraph, StateNode};
use crate::history::HistoryStore;
use crate::machine::{closure, StateMachine};
use crate::reset::{
    initial_transition, initialize_state_machine, reset_on_transition_actions, reset_state_region,
    resets_of,
};
use crate::timers::{TimerService, TimersView};
use crate::timing::{
    armed_on_enter, cancel_after_on_exit, cancel_pending_event_on_exit, cancelled_on_exit,
    check_always_on_guards_changed, dropped_on_exit, rechecked, replay_deferred_event,
    start_after_on_enter, tick_after_event_timers, tick_after_system, tick_events, tick_sources,
};
use vstd::prelude::*;

verus! {

/// What a chart reacts to.
#[derive(Clone, Copy, Debug, PartialEq, Eq, Structural)]
pub enum Stimulus {
    /// An event was sent to a state or to the root.
    Event(Event),
    /// A transition is to be taken.
    Fire(Transition),
    /// A state has been entered.
    Entered(EnterState),
    /// A state has been exited.
    Exited(ExitState),
    /// The actions of a transition have run.
    Acted(TransitionActions),
    /// The guards of an edge have changed.
    GuardsChanged(usize),
    /// Time has passed, in nanoseconds.
    Tick(u64),
    /// The machine is to be reset.
    Reset(ResetRegion),
}

/// A chart with its machine and the stimuli that wait to be worked off.
pub struct Chart {
    /// The states.
    pub graph: StateGraph,
    /// The edges.
    pub edges: EdgeTable,
    /// The snapshots of the history states.
    pub history: HistoryStore,
    /// The timers of the delayed edges.
    pub timers: TimerService,
    /// The events that states hold back.
    pub deferrals: DeferralQueue,
    /// The active states.
    pub machine: StateMachine,
    /// The stimuli that wait, the next one last.
    pub pending: Vec<Stimulus>,
}

/// What a chart holds, apart from the waiting stimuli.
pub struct ChartView {
    /// The states.
    pub g: Seq<StateNode>,
    /// The edges.
    pub t: EdgeTableView,
    /// The snapshots, by history state.
    pub h: Map<usize, Set<usize>>,
    /// The timers and waiting events, by edge.
    pub v: TimersView,
    /// The deferral buffers, by state.
    pub q: Seq<Seq<DeferEvent>>,
    /// The active leaves.
    pub leaves: Set<usize>,
    /// The active states.
    pub active: Set<usize>,
    /// The root of the machine.
    pub root: usize,
}

/// What a stimulus leads to.
pub struct Reaction {
    /// The chart afterwards.
    pub next: ChartView,
    /// The notifications for the host, in order.
    pub out: Seq<Notification>,
    /// The stimuli raised, in the order in which they are to be worked off.
    pub raised: Seq<Stimulus>,
}

/// The transitions as stimuli.
pub open spec fn fires(transitions: Seq<Transition>) -> Seq<Stimulus> {
    transitions.map_values(|tr: Transition| Stimulus::Fire(tr))
}

/// The events as stimuli.
pub open spec fn sends(events: Seq<Event>) -> Seq<Stimulus> {
    events.map_values(|e: Event| Stimulus::Event(e))
}

/// The stimuli that the notifications of a transition raise: one for every
/// exit, for the actions and for every entry, in the order of the
/// notifications.
pub open spec fn follow_ups(notes: Seq<Notification>) -> Seq<Stimulus>
    decreases notes.len(),
{
    if notes.len() == 0 {
        Seq::empty()
    } else {
        let rest = follow_ups(notes.drop_last());
        match notes.last() {
            Notification::Enter(e) => rest.push(Stimulus::Entered(e)),
            Notification::Exit(x) => rest.push(Stimulus::Exited(x)),
            Notification::Actions(a) => rest.push(Stimulus::Acted(a)),
            _ => rest,
        }
    }
}

/// The reaction to a transition request, given what it does to the machine.
pub open spec fn react_fire(c: ChartView, tr: Transition) -> Reaction {
    match fire_outcome(c.g, c.t, c.h, c.leaves, c.active, c.root, tr) {
        Some(o) => Reaction {
            next: ChartView {
                h: o.history,
                leaves: o.leaves,
                active: closure(c.g, o.leaves).insert(c.root),
                ..c
            },
            out: o.notifications,
            raised: follow_ups(o.notifications),
        },
        None => Reaction { next: c, out: Seq::empty(), raised: Seq::empty() },
    }
}

/// The chart with a machine that has not been initialized.
pub open spec fn blank(c: ChartView) -> ChartView {
    ChartView { leaves: Set::empty(), active: Set::empty().insert(c.root), ..c }
}

/// The reaction to an event: it selects edges, and every edge that fires
/// raises a transition.
pub open spec fn react_event(c: ChartView, ev: Event) -> Reaction {
    let h = heard(c.g, c.t, c.q, c.v, c.leaves, c.active, c.root, ev);
    Reaction {
        next: ChartView { q: h.queue, v: h.timers, ..c },
        out: Seq::empty(),
        raised: fires(h.transitions),
    }
}

/// The reaction to an entered state: its delayed always-edges are armed,
/// and its first ready always-edge raises a transition.
pub open spec fn react_entered(c: ChartView, en: EnterState) -> Reaction {
    Reaction {
        next: ChartView { v: armed_on_enter(c.t, c.v, listed(c.t, en.target)), ..c },
        out: Seq::empty(),
        raised: match always_choice(c.t, en.target) {
            Some(e) => seq![Stimulus::Fire(request(c.g, en.target, e, no_payload()))],
            None => Seq::empty(),
        },
    }
}

/// The reaction to an exited state: it loses the timers of its delayed
/// edges and the events that wait on its edges, and the events it held back
/// are sent again, to the root.
pub open spec fn react_exited(c: ChartView, ex: ExitState) -> Reaction {
    let list = listed(c.t, ex.target);
    Reaction {
        next: ChartView {
            v: dropped_on_exit(cancelled_on_exit(c.t, c.v, list), list),
            q: take_in(c.q, ex.target),
            ..c
        },
        out: Seq::empty(),
        raised: sends(readdressed(held(buffers_of(c.q, ex.target)), c.root)),
    }
}

/// The reaction to the actions of a transition: the reset notices that its
/// edge asks for.
pub open spec fn react_acted(c: ChartView, a: TransitionActions) -> Reaction {
    Reaction {
        next: c,
        out: resets_of(c.g, c.t, a).map_values(|r: Reset| Notification::Reset(r)),
        raised: Seq::empty(),
    }
}

/// The reaction to changed guards: the edge is rechecked.
pub open spec fn react_guards(c: ChartView, e: usize) -> Reaction {
    let (v, trs) = rechecked(c.g, c.t, c.active, c.v, seq![e]);
    Reaction { next: ChartView { v, ..c }, out: Seq::empty(), raised: fires(trs) }
}

/// The reaction to passing time: first the delayed always-edges, then the
/// events that wait on delayed event-edges; every edge whose time has come
/// raises a transition.
pub open spec fn react_tick(c: ChartView, delta: u64) -> Reaction {
    let (m, first) = tick_sources(c.g, c.t, c.active, c.v.timers, delta, c.g.len() as usize);
    let (v, second) = tick_events(
        c.g,
        c.t,
        c.active,
        TimersView { timers: m, pending: c.v.pending },
        delta,
        c.t.edges.len() as usize,
    );
    Reaction { next: ChartView { v, ..c }, out: Seq::empty(), raised: fires(first + second) }
}

/// The reaction to a reset request: one for the root initializes the
/// machine again, one for another state does nothing.
pub open spec fn react_reset(c: ChartView, r: ResetRegion) -> Reaction {
    if r.target == c.root {
        react_fire(blank(c), initial_transition(c.root))
    } else {
        Reaction { next: c, out: Seq::empty(), raised: Seq::empty() }
    }
}

/// The reaction of a chart to a stimulus.
#[verifier::opaque]
pub open spec fn react(c: ChartView, s: Stimulus) -> Reaction {
    match s {
        Stimulus::Event(ev) => react_event(c, ev),
        Stimulus::Fire(tr) => react_fire(c, tr),
        Stimulus::Entered(en) => react_entered(c, en),
        Stimulus::Exited(ex) => react_exited(c, ex),
        Stimulus::Acted(a) => react_acted(c, a),
        Stimulus::GuardsChanged(e) => react_guards(c, e),
        Stimulus::Tick(delta) => react_tick(c, delta),
        Stimulus::Reset(r) => react_reset(c, r),
    }
}

/// The chart and the notifications after at most `fuel` steps, with the
/// stimuli that still wait.
pub open spec fn run_of(c: ChartView, pending: Seq<Stimulus>, fuel: nat) -> (
    ChartView,
    Seq<Stimulus>,
    Seq<Notification>,
)
    decreases fuel,
{
    if fuel == 0 || pending.len() == 0 {
        (c, pending, Seq::empty())
    } else {
        let r = react(c, pending.last());
        let (chart2, wait2, more_out) = run_of(
            r.next,
            pending.drop_last() + r.raised.reverse(),
            (fuel - 1) as nat,
        );
        (chart2, wait2, r.out + more_out)
    }
}

fn raise(pending: &mut Vec<Stimulus>, raised: &Vec<Stimulus>)
    ensures
        final(pending)@ == old(pending)@ + raised@.reverse(),
{
    let n = raised.len();
    let mut i: usize = 0;
    while i < n
        invariant
            n == raised.len(),
            i <= n,
            pending@ == old(pending)@ + raised@.reverse().take(i as int),
        decreases n - i,
    {
        pending.push(raised[n - 1 - i]);
        proof {
            let r = raised@.reverse();
            assert(r[i as int] == raised@[n - 1 - i]);
            assert(r.take(i + 1) == r.take(i as int).push(r[i as int]));
            assert(pending@ == old(pending)@ + r.take(i + 1));
        }
        i = i + 1;
    }
    proof {
        assert(raised@.reverse().take(n as int) == raised@.reverse());
    }
}

fn to_fires(transitions: &Vec<Transition>) -> (out: Vec<Stimulus>)
    ensures
        out@ == fires(transitions@),
{
    let mut out: Vec<Stimulus> = Vec::new();
    let mut i: usize = 0;
    while i < transitions.len()
        invariant
            i <= transitions.len(),
            out@ == fires(transitions@.take(i as int)),
        decreases transitions.len() - i,
    {
        out.push(Stimulus::Fire(transitions[i]));
        proof {
            assert(transitions@.take(i + 1) == transitions@.take(i as int).push(
                transitions@[i as int],
            ));
            assert(fires(transitions@.take(i + 1)) =~= fires(transitions@.take(i as int)).push(
                Stimulus::Fire(transitions@[i as int]),
            ));
        }
        i = i + 1;
    }
    proof {
        assert(transitions@.take(transitions@.len() as int) == transitions@);
    }
    out
}

fn to_sends(events: &Vec<Event>) -> (out: Vec<Stimulus>)
    ensures
        out@ == sends(events@),
{
    let mut out: Vec<Stimulus> = Vec::new();
    let mut i: usize = 0;
    while i < events.len()
        invariant
            i <= events.len(),
            out@ == sends(events@.take(i as int)),
        decreases events.len() - i,
    {
        out.push(Stimulus::Event(events[i]));
        proof {
            assert(events@.take(i + 1) == events@.take(i as int).push(events@[i as int]));
            assert(sends(events@.take(i + 1)) =~= sends(events@.take(i as int)).push(
                Stimulus::Event(events@[i as int]),
            ));
        }
        i = i + 1;
    }
    proof {
        assert(events@.take(events@.len() as int) == events@);
    }
    out
}

fn to_follow_ups(notes: &Vec<Notification>) -> (out: Vec<Stimulus>)
    ensures
        out@ == follow_ups(notes@),
{
    let mut out: Vec<Stimulus> = Vec::new();
    let mut i: usize = 0;
    while i < notes.len()
        invariant
            i <= notes.len(),
            out@ == follow_ups(notes@.take(i as int)),
        decreases notes.len() - i,
    {
        proof {
            assert(notes@.take(i + 1).drop_last() == notes@.take(i as int));
            assert(notes@.take(i + 1).last() == notes@[i as int]);
        }
        match notes[i] {
            Notification::Enter(e) => {
                out.push(Stimulus::Entered(e));
            },
            Notification::Exit(x) => {
                out.push(Stimulus::Exited(x));
            },
            Notification::Actions(a) => {
                out.push(Stimulus::Acted(a));
            },
            _ => {},
        }
        i = i + 1;
    }
    proof {
        assert(notes@.take(notes@.len() as int) == notes@);
    }
    out
}

fn to_reset_notes(resets: &Vec<Reset>) -> (out: Vec<Notification>)
    ensures
        out@ == resets@.map_values(|r: Reset| Notification::Reset(r)),
{
    let ghost f = |r: Reset| Notification::Reset(r);
    let mut out: Vec<Notification> = Vec::new();
    let mut i: usize = 0;
    while i < resets.len()
        invariant
            i <= resets.len(),
            f == (|r: Reset| Notification::Reset(r)),
            out@ == resets@.take(i as int).map_values(f),
        decreases resets.len() - i,
    {
        out.push(Notification::Reset(resets[i]));
        proof {
            assert(resets@.take(i + 1) == resets@.take(i as int).push(resets@[i as int]));
            assert(resets@.take(i + 1).map_values(f) =~= resets@.take(i as int).map_values(f).push(
                f(resets@[i as int]),
            ));
        }
        i = i + 1;
    }
    proof {
        assert(resets@.take(resets@.len() as int) == resets@);
    }
    out
}

impl View for Chart {
    type V = ChartView;

    open spec fn view(&self) -> ChartView {
        ChartView {
            g: self.graph@,
            t: self.edges@,
            h: self.history@,
            v: self.timers@,
            q: self.deferrals@,
            leaves: self.machine.leaf_set(),
            active: self.machine.active_set(),
            root: self.machine.root,
        }
    }
}

impl Chart {
    /// A chart over the given states and edges with a machine rooted at
    /// `root`. The machine is not initialized yet: its initial transition
    /// waits as the first stimulus.
    pub fn new(graph: StateGraph, edges: EdgeTable, root: usize) -> (c: Chart)
        ensures
            c.graph@ == graph@,
            c.edges@ == edges@,
            c@ == blank(c@),
            c@.root == root,
            c.history@ == Map::<usize, Set<usize>>::empty(),
            c.deferrals@.len() == 0,
            c.pending@ == seq![Stimulus::Fire(initial_transition(root))],
            c.machine.closed_over(c.graph@),
    {
        let mut pending: Vec<Stimulus> = Vec::new();
        pending.push(Stimulus::Fire(initialize_state_machine(root)));
        Chart {
            graph,
            edges,
            history: HistoryStore::new(),
            timers: TimerService::new(),
            deferrals: DeferralQueue::new(),
            machine: StateMachine::new(root),
            pending,
        }
    }

    /// Lets `stimulus` wait on top of the stack.
    pub fn submit(&mut self, stimulus: Stimulus)
        ensures
            final(self)@ == old(self)@,
            final(self).pending@ == old(self).pending@.push(stimulus),
    {
        self.pending.push(stimulus);
    }

    /// Whether no stimulus waits.
    pub fn is_idle(&self) -> (idle: bool)
        ensures
            idle == (self.pending@.len() == 0),
    {
        self.pending.len() == 0
    }

    fn on_event(&mut self, ev: Event) -> (out: Vec<Notification>)
        ensures
            out@ == react_event(old(self)@, ev).out,
            final(self)@ == react_event(old(self)@, ev).next,
            final(self).pending@ == old(self).pending@ + react_event(old(self)@, ev).raised.reverse(),
            final(self).machine == old(self).machine,
            final(self).graph@ == old(self).graph@,
    {
        let transitions = edge_event_listener(
            &ev,
            &self.graph,
            &self.edges,
            &self.machine,
            &mut self.deferrals,
            &mut self.timers,
        );
        let raised = to_fires(&transitions);
        raise(&mut self.pending, &raised);
        Vec::new()
    }

    fn on_fire(&mut self, tr: Transition) -> (out: Vec<Notification>)
        ensures
            out@ == react_fire(old(self)@, tr).out,
            final(self)@ == react_fire(old(self)@, tr).next,
            final(self).pending@ == old(self).pending@ + react_fire(old(self)@, tr).raised.reverse(),
            old(self).machine.closed_over(old(self).graph@) ==> final(self).machine.closed_over(
                final(self).graph@,
            ),
            final(self).graph@ == old(self).graph@,
    {
        let ghost c = self@;
        let out = fire(&self.graph, &self.edges, &mut self.history, &mut self.machine, &tr);
        let raised = to_follow_ups(&out);
        raise(&mut self.pending, &raised);
        proof {
            match fire_outcome(c.g, c.t, c.h, c.leaves, c.active, c.root, tr) {
                Some(o) => {
                    assert(self@ == react_fire(c, tr).next);
                },
                None => {
                    assert(out@ =~= Seq::<Notification>::empty());
                    assert(raised@ =~= Seq::<Stimulus>::empty());
                    assert(self@ == c);
                },
            }
        }
        out
    }

    fn on_entered(&mut self, en: EnterState) -> (out: Vec<Notification>)
        ensures
            out@ == react_entered(old(self)@, en).out,
            final(self)@ == react_entered(old(self)@, en).next,
            final(self).pending@ == old(self).pending@ + react_entered(
                old(self)@,
                en,
            ).raised.reverse(),
            final(self).machine == old(self).machine,
            final(self).graph@ == old(self).graph@,
    {
        let fired = always_edge_listener(&en, &self.graph, &self.edges);
        start_after_on_enter(&en, &self.edges, &mut self.timers);
        let mut raised: Vec<Stimulus> = Vec::new();
        match fired {
            Some(tr) => {
                raised.push(Stimulus::Fire(tr));
            },
            None => {},
        }
        raise(&mut self.pending, &raised);
        Vec::new()
    }

    fn on_exited(&mut self, ex: ExitState) -> (out: Vec<Notification>)
        ensures
            out@ == react_exited(old(self)@, ex).out,
            final(self)@ == react_exited(old(self)@, ex).next,
            final(self).pending@ == old(self).pending@ + react_exited(
                old(self)@,
                ex,
            ).raised.reverse(),
            final(self).machine == old(self).machine,
            final(self).graph@ == old(self).graph@,
    {
        cancel_after_on_exit(&ex, &self.edges, &mut self.timers);
        cancel_pending_event_on_exit(&ex, &self.edges, &mut self.timers);
        let events = replay_deferred_event(&ex, self.machine.root, &mut self.deferrals);
        let raised = to_sends(&events);
        raise(&mut self.pending, &raised);
        Vec::new()
    }

    fn on_acted(&mut self, a: TransitionActions) -> (out: Vec<Notification>)
        ensures
            out@ == react_acted(old(self)@, a).out,
            final(self)@ == react_acted(old(self)@, a).next,
            final(self).pending@ == old(self).pending@ + react_acted(old(self)@, a).raised.reverse(),
            final(self).machine == old(self).machine,
            final(self).graph@ == old(self).graph@,
    {
        let resets = reset_on_transition_actions(&a, &self.graph, &self.edges);
        proof {
            assert(self.pending@ == self.pending@ + Seq::<Stimulus>::empty().reverse());
        }
        to_reset_notes(&resets)
    }

    fn on_guards_changed(&mut self, e: usize) -> (out: Vec<Notification>)
        ensures
            out@ == react_guards(old(self)@, e).out,
            final(self)@ == react_guards(old(self)@, e).next,
            final(self).pending@ == old(self).pending@ + react_guards(old(self)@, e).raised.reverse(),
            final(self).machine == old(self).machine,
            final(self).graph@ == old(self).graph@,
    {
        let mut changed: Vec<usize> = Vec::new();
        changed.push(e);
        proof {
            assert(changed@ == seq![e]);
        }
        let transitions = check_always_on_guards_changed(
            &changed,
            &self.graph,
            &self.edges,
            &self.machine,
            &mut self.timers,
        );
        let raised = to_fires(&transitions);
        raise(&mut self.pending, &raised);
        Vec::new()
    }

    fn on_tick(&mut self, delta: u64) -> (out: Vec<Notification>)
        ensures
            out@ == react_tick(old(self)@, delta).out,
            final(self)@ == react_tick(old(self)@, delta).next,
            final(self).pending@ == old(self).pending@ + react_tick(
                old(self)@,
                delta,
            ).raised.reverse(),
            final(self).machine == old(self).machine,
            final(self).graph@ == old(self).graph@,
    {
        let ghost c = self@;
        let mut transitions = tick_after_system(
            delta,
            &self.graph,
            &self.edges,
            &self.machine,
            &mut self.timers,
        );
        let ghost first = transitions@;
        let ghost mid = self.timers@;
        let more = tick_after_event_timers(
            delta,
            &self.graph,
            &self.edges,
            &self.machine,
            &mut self.timers,
        );
        let mut i: usize = 0;
        while i < more.len()
            invariant
                i <= more.len(),
                transitions@ == first + more@.take(i as int),
            decreases more.len() - i,
        {
            transitions.push(more[i]);
            proof {
                assert(more@.take(i + 1) == more@.take(i as int).push(more@[i as int]));
                assert(transitions@ == first + more@.take(i + 1));
            }
            i = i + 1;
        }
        proof {
            assert(more@.take(more@.len() as int) == more@);
            assert(mid == (TimersView { timers: mid.timers, pending: c.v.pending }));
        }
        let raised = to_fires(&transitions);
        raise(&mut self.pending, &raised);
        Vec::new()
    }

    fn on_reset(&mut self, r: ResetRegion) -> (out: Vec<Notification>)
        ensures
            out@ == react_reset(old(self)@, r).out,
            final(self)@ == react_reset(old(self)@, r).next,
            final(self).pending@ == old(self).pending@ + react_reset(old(self)@, r).raised.reverse(),
            old(self).machine.closed_over(old(self).graph@) ==> final(self).machine.closed_over(
                final(self).graph@,
            ),
            final(self).graph@ == old(self).graph@,
    {
        let ghost c = self@;
        let out = reset_state_region(
            &r,
            &self.graph,
            &self.edges,
            &mut self.history,
            &mut self.machine,
        );
        let raised = to_follow_ups(&out);
        raise(&mut self.pending, &raised);
        proof {
            if r.target == c.root {
                let b = blank(c);
                match fire_outcome(b.g, b.t, b.h, b.leaves, b.active, b.root, initial_transition(c.root)) {
                    Some(o) => {
                        assert(self@ == react_fire(b, initial_transition(c.root)).next);
                    },
                    None => {
                        assert(out@ =~= Seq::<Notification>::empty());
                        assert(raised@ =~= Seq::<Stimulus>::empty());
                        assert(self@.active =~= b.active);
                        assert(self@ == b);
                    },
                }
            } else {
                assert(out@ =~= Seq::<Notification>::empty());
                assert(raised@ =~= Seq::<Stimulus>::empty());
                assert(self@ == c);
            }
        }
        out
    }

    /// Works off the stimulus on top of the stack and returns the
    /// notifications this gives; `None` when no stimulus waits. The closure
    /// invariant of the machine is kept.
    pub fn step(&mut self) -> (out: Option<Vec<Notification>>)
        ensures
            old(self).pending@.len() == 0 ==> out is None && final(self)@ == old(self)@
                && final(self).pending@ == old(self).pending@,
            old(self).pending@.len() > 0 ==> {
                let r = react(old(self)@, old(self).pending@.last());
                &&& out is Some
                &&& out->0@ == r.out
                &&& final(self)@ == r.next
                &&& final(self).pending@ == old(self).pending@.drop_last() + r.raised.reverse()
            },
            old(self).machine.closed_over(old(self).graph@) ==> final(self).machine.closed_over(
                final(self).graph@,
            ),
    {
        let stimulus = match self.pending.pop() {
            Some(s) => s,
            None => {
                return None;
            },
        };
        proof {
            reveal(react);
            assert(self.pending@ == old(self).pending@.drop_last());
            assert(stimulus == old(self).pending@.last());
            assert(self@ == old(self)@);
        }
        let out = match stimulus {
            Stimulus::Event(ev) => self.on_event(ev),
            Stimulus::Fire(tr) => self.on_fire(tr),
            Stimulus::Entered(en) => self.on_entered(en),
            Stimulus::Exited(ex) => self.on_exited(ex),
            Stimulus::Acted(a) => self.on_acted(a),
            Stimulus::GuardsChanged(e) => self.on_guards_changed(e),
            Stimulus::Tick(delta) => self.on_tick(delta),
            Stimulus::Reset(r) => self.on_reset(r),
        };
        Some(out)
    }

    /// Works off waiting stimuli, at most `limit` of them, and returns all
    /// notifications in order. What still waits afterwards was raised by the
    /// last steps.
    pub fn run(&mut self, limit: usize) -> (out: Vec<Notification>)
        ensures
            (final(self)@, final(self).pending@, out@) == run_of(
                old(self)@,
                old(self).pending@,
                limit as nat,
            ),
            old(self).machine.closed_over(old(self).graph@) ==> final(self).machine.closed_over(
                final(self).graph@,
            ),
    {
        let mut out: Vec<Notification> = Vec::new();
        let mut left: usize = limit;
        proof {
            let (chart2, wait2, notes2) = run_of(self@, self.pending@, left as nat);
            assert(out@ + notes2 == notes2);
        }
        while left > 0 && self.pending.len() > 0
            invariant
                ({
                    let (chart1, wait1, notes1) = run_of(old(self)@, old(self).pending@, limit as nat);
                    let (chart2, wait2, notes2) = run_of(self@, self.pending@, left as nat);
                    chart1 == chart2 && wait1 == wait2 && notes1 == out@ + notes2
                }),
                old(self).machine.closed_over(old(self).graph@) ==> self.machine.closed_over(
                    self.graph@,
                ),
            decreases left,
        {
            let ghost before = out@;
            let ghost c = self@;
            let ghost p = self.pending@;
            let notes = self.step();
            match notes {
                Some(more) => {
                    let mut i: usize = 0;
                    while i < more.len()
                        invariant
                            i <= more.len(),
                            out@ == before + more@.take(i as int),
                        decreases more.len() - i,
                    {
                        out.push(more[i]);
                        proof {
                            assert(more@.take(i + 1) == more@.take(i as int).push(more@[i as int]));
                            assert(out@ == before + more@.take(i + 1));
                        }
                        i = i + 1;
                    }
                    proof {
                        assert(more@.take(more@.len() as int) == more@);
                        let r = react(c, p.last());
                        let (chart2, wait2, notes2) = run_of(
                            r.next,
                            p.drop_last() + r.raised.reverse(),
                            (left - 1) as nat,
                        );
                        assert(before + (r.out + notes2) == (before + r.out) + notes2);
                    }
                },
                None => {},
            }
            left = left - 1;
        }
        proof {
            let (chart2, wait2, notes2) = run_of(self@, self.pending@, left as nat);
            assert(out@ + notes2 == out@);
        }
        out
    }
}

} // verus!
